//! Decoded data model: [`BinaryCookies`], [`Page`], [`Cookie`], [`Flags`].

use vstd::prelude::*;

verus! {

/// Raw cookie flag bits with typed accessors.
///
/// Real Safari files use `0x0`, `0x1` (`Secure`), `0x4` (`HttpOnly`) or `0x5`;
/// unknown bits are preserved and readable through [`Flags::bits`].
#[derive(Debug, Clone, Copy, PartialEq, Eq, Hash)]
#[non_exhaustive]
pub struct Flags(u32);

impl View for Flags {
    type V = u32;

    closed spec fn view(&self) -> u32 {
        self.0
    }
}

/// Whether bit 0 (`Secure`) of `bits` is set.
pub open spec fn secure_bit(bits: u32) -> bool {
    bits % 2 == 1
}

/// Whether bit 2 (`HttpOnly`) of `bits` is set.
pub open spec fn http_only_bit(bits: u32) -> bool {
    (bits / 4) % 2 == 1
}

impl Flags {
    /// The `Secure` bit.
    pub const SECURE: u32 = 0x1;

    /// The `HttpOnly` bit.
    pub const HTTP_ONLY: u32 = 0x4;

    /// Flags holding exactly `bits`.
    pub fn new(bits: u32) -> (flags: Self)
        ensures
            flags@ == bits,
    {
        Flags(bits)
    }

    /// The raw flag bits as stored on disk.
    pub fn bits(self) -> (bits: u32)
        ensures
            bits == self@,
    {
        self.0
    }

    /// Whether every bit of `bit` is set.
    pub fn contains(self, bit: u32) -> (r: bool)
        ensures
            r == (self@ & bit == bit),
    {
        self.0 & bit == bit
    }

    /// Whether the [`Flags::SECURE`] bit is set.
    pub fn is_secure(self) -> (r: bool)
        ensures
            r == secure_bit(self@),
    {
        let bits = self.0;
        assert((bits & 1u32 == 1u32) == (bits % 2 == 1)) by (bit_vector);
        self.contains(Self::SECURE)
    }

    /// Whether the [`Flags::HTTP_ONLY`] bit is set.
    pub fn is_http_only(self) -> (r: bool)
        ensures
            r == http_only_bit(self@),
    {
        let bits = self.0;
        assert((bits & 4u32 == 4u32) == ((bits / 4) % 2 == 1)) by (bit_vector);
        self.contains(Self::HTTP_ONLY)
    }
}

/// The mathematical content of a [`Cookie`].
pub struct CookieView {
    pub domain: Seq<char>,
    pub name: Seq<char>,
    pub path: Seq<char>,
    pub value: Seq<char>,
    pub comment: Option<Seq<char>>,
    pub flags: u32,
    pub expires: u64,
    pub creation: u64,
}

/// A single decoded HTTP cookie.
///
/// The two timestamps are kept as the raw bits of the on-disk little-endian
/// `f64` seconds since the Mac epoch (2001-01-01); turning them into calendar
/// time is floating-point work that this library leaves to its callers.
#[derive(Debug, Clone, PartialEq, Eq, Hash)]
pub struct Cookie {
    /// The cookie domain, with its single trailing NUL terminator removed.
    pub domain: String,
    /// The cookie name, with its single trailing NUL terminator removed.
    pub name: String,
    /// The cookie path, with its single trailing NUL terminator removed.
    pub path: String,
    /// The cookie value, truncated at the first NUL byte.
    pub value: String,
    /// The optional cookie comment, stored verbatim (including any trailing
    /// NUL). `None` when the record's comment offset is zero.
    pub comment: Option<String>,
    /// The raw flag bits.
    pub flags: Flags,
    /// Expiration time: bits of the on-disk `f64` Mac-epoch seconds.
    pub expires: u64,
    /// Creation time: bits of the on-disk `f64` Mac-epoch seconds.
    pub creation: u64,
}

impl View for Cookie {
    type V = CookieView;

    open spec fn view(&self) -> CookieView {
        CookieView {
            domain: self.domain@,
            name: self.name@,
            path: self.path@,
            value: self.value@,
            comment: match self.comment {
                Some(c) => Some(c@),
                None => None,
            },
            flags: self.flags@,
            expires: self.expires,
            creation: self.creation,
        }
    }
}

impl Cookie {
    /// Whether the `Secure` flag bit (`0x1`) is set.
    pub fn is_secure(&self) -> (r: bool)
        ensures
            r == secure_bit(self@.flags),
    {
        self.flags.is_secure()
    }

    /// Whether the `HttpOnly` flag bit (`0x4`) is set.
    pub fn is_http_only(&self) -> (r: bool)
        ensures
            r == http_only_bit(self@.flags),
    {
        self.flags.is_http_only()
    }
}

/// The mathematical content of a [`Page`].
pub struct PageView {
    pub cookies: Seq<CookieView>,
    pub offsets: Seq<u32>,
}

/// A single page, grouping the cookies of one domain.
#[derive(Debug, Clone, PartialEq, Eq, Hash)]
pub struct Page {
    /// The cookies in record order.
    pub cookies: Vec<Cookie>,
    /// The page's raw cookie-offset table, kept for forensic verification.
    /// Decoding never depends on it: cookies are consumed sequentially.
    pub offsets: Vec<u32>,
}

/// The views of a sequence of cookies.
pub open spec fn cookie_views(cookies: Seq<Cookie>) -> Seq<CookieView> {
    cookies.map_values(|c: Cookie| c@)
}

impl View for Page {
    type V = PageView;

    open spec fn view(&self) -> PageView {
        PageView { cookies: cookie_views(self.cookies@), offsets: self.offsets@ }
    }
}

impl Page {
    /// This page's cookies, in record order.
    pub fn iter(&self) -> (cookies: &[Cookie])
        ensures
            cookies@ == self.cookies@,
    {
        self.cookies.as_slice()
    }
}

/// The mathematical content of a [`BinaryCookies`].
pub struct JarView {
    pub pages: Seq<PageView>,
    pub checksum: Seq<u8>,
}

/// A fully decoded `.binarycookies` file.
#[derive(Debug, Clone, PartialEq, Eq, Hash)]
pub struct BinaryCookies {
    /// The pages in file order, including empty ones.
    pub pages: Vec<Page>,
    /// The trailing 8-byte checksum, stored as-is and never verified.
    pub checksum: [u8; 8],
}

impl View for BinaryCookies {
    type V = JarView;

    open spec fn view(&self) -> JarView {
        JarView { pages: self.pages@.map_values(|p: Page| p@), checksum: self.checksum@ }
    }
}

/// Every cookie of `pages`, page after page, each page's in record order.
pub open spec fn all_cookies(pages: Seq<PageView>) -> Seq<CookieView> {
    pages.map_values(|p: PageView| p.cookies).flatten()
}

impl BinaryCookies {
    /// Every cookie across all pages, in file order.
    pub fn cookies(&self) -> (cookies: Vec<&Cookie>)
        ensures
            cookies@.map_values(|c: &Cookie| c@) == all_cookies(self@.pages),
    {
        self.iter()
    }

    /// Every cookie across all pages, in file order; the same sequence as
    /// [`BinaryCookies::cookies`].
    pub fn iter(&self) -> (cookies: Vec<&Cookie>)
        ensures
            cookies@.map_values(|c: &Cookie| c@) == all_cookies(self@.pages),
    {
        let mut out: Vec<&Cookie> = Vec::new();
        let mut i: usize = 0;
        let ghost pages = self@.pages;
        assert(pages.take(0).map_values(|p: PageView| p.cookies) =~= Seq::<Seq<CookieView>>::empty());
        while i < self.pages.len()
            invariant
                pages == self@.pages,
                i <= self.pages.len(),
                out@.map_values(|c: &Cookie| c@) == all_cookies(pages.take(i as int)),
            decreases self.pages.len() - i,
        {
            let page = &self.pages[i];
            let mut j: usize = 0;
            let ghost before = out@.map_values(|c: &Cookie| c@);
            while j < page.cookies.len()
                invariant
                    i < self.pages.len(),
                    page == &self.pages@[i as int],
                    j <= page.cookies.len(),
                    out@.map_values(|c: &Cookie| c@) == before + cookie_views(
                        page.cookies@,
                    ).take(j as int),
                decreases page.cookies.len() - j,
            {
                let ghost prev = out@;
                out.push(&page.cookies[j]);
                assert(out@.map_values(|c: &Cookie| c@) =~= prev.map_values(|c: &Cookie| c@).push(
                    page.cookies@[j as int]@,
                ));
                assert(cookie_views(page.cookies@).take(j + 1) =~= cookie_views(
                    page.cookies@,
                ).take(j as int).push(page.cookies@[j as int]@));
                j = j + 1;
            }
            assert(cookie_views(page.cookies@).take(j as int) =~= cookie_views(page.cookies@));
            let ghost heads = pages.take(i as int).map_values(|p: PageView| p.cookies);
            assert(pages[i as int].cookies == cookie_views(page.cookies@));
            assert(pages.take(i + 1).map_values(|p: PageView| p.cookies) =~= heads.push(
                pages[i as int].cookies,
            ));
            proof {
                heads.lemma_flatten_push(pages[i as int].cookies);
            }
            i = i + 1;
        }
        assert(pages.take(i as int) =~= pages);
        out
    }
}

} // verus!
