//! Sequential decoder for the `.binarycookies` byte format.

use vstd::prelude::*;

use crate::cursor::{be_u32, le_u32, Cursor};
use crate::error::{Component, Error};
use crate::format::{
    after_prefix, component_len, decode_component_lens, decode_cookie, decode_cookie_run,
    decode_file, decode_file_header, decode_page, decode_page_header, decode_pages,
    lemma_after_prefix_assoc, lemma_cookie_run_step, lemma_pages_step, magic, offset_table,
    page_tag, spec_table_len, table_len, to_len, zero_tag, MAX_COOKIES_PER_PAGE, MAX_COOKIE_SIZE,
    MAX_PAGES,
};
use crate::model::{
    cookie_views, BinaryCookies, Cookie, CookieView, Flags, JarView, Page, PageView,
};
use crate::text::{lossy, trim_terminator, truncate_at_nul};

verus! {

broadcast use vstd::array::group_array_axioms;

/// The format layer over a [`Cursor`]: each field read is a method here, while
/// the cursor stays the sole place raw bytes are sliced. The eager
/// [`from_bytes`] decode and the lazy [`crate::iter::cookies`] stream drive the
/// same methods.
#[derive(Debug)]
pub struct Decoder<'a> {
    cursor: Cursor<'a>,
}

impl<'a> Clone for Decoder<'a> {
    fn clone(&self) -> (copy: Self)
        ensures
            copy == *self,
    {
        Decoder { cursor: self.cursor.clone() }
    }
}

impl<'a> Decoder<'a> {
    /// The input being decoded.
    pub closed spec fn data(&self) -> Seq<u8> {
        self.cursor.data()
    }

    /// The position of the next byte to decode.
    pub closed spec fn pos(&self) -> int {
        self.cursor.pos()
    }

    /// The position is within the input.
    pub closed spec fn wf(&self) -> bool {
        self.cursor.wf()
    }

    /// A decoder at the start of `input`.
    pub fn new(input: &'a [u8]) -> (d: Self)
        ensures
            d.wf(),
            d.data() == input@,
            d.pos() == 0,
    {
        Decoder { cursor: Cursor::new(input) }
    }

    /// The magic, matched as raw bytes.
    pub fn signature(&mut self) -> (r: Result<(), Error>)
        requires
            old(self).wf(),
        ensures
            final(self).wf(),
            final(self).data() == old(self).data(),
            ({
                let s = old(self).data();
                let p = old(self).pos();
                if p + 4 > s.len() {
                    r == Err::<(), Error>(Error::UnexpectedEof)
                } else if s.subrange(p, p + 4) != magic() {
                    r matches Err(Error::InvalidSignature(found)) && found@ == s.subrange(p, p + 4)
                } else {
                    r is Ok && final(self).pos() == p + 4
                }
            }),
    {
        let ghost s = self.data();
        let ghost p = self.pos();
        let signature = self.cursor.array()?;
        if signature[0] == 0x63 && signature[1] == 0x6f && signature[2] == 0x6f && signature[3]
            == 0x6b {
            assert(s.subrange(p, p + 4) =~= magic());
            Ok(())
        } else {
            assert(s.subrange(p, p + 4) != magic()) by {
                if s.subrange(p, p + 4) == magic() {
                    assert(signature@[0] == magic()[0] && signature@[1] == magic()[1]);
                    assert(signature@[2] == magic()[2] && signature@[3] == magic()[3]);
                }
            }
            Err(Error::InvalidSignature(signature))
        }
    }

    /// The big-endian page count, rejected above [`MAX_PAGES`].
    pub fn page_count(&mut self) -> (r: Result<u32, Error>)
        requires
            old(self).wf(),
        ensures
            final(self).wf(),
            final(self).data() == old(self).data(),
            ({
                let s = old(self).data();
                let p = old(self).pos();
                if p + 4 > s.len() {
                    r == Err::<u32, Error>(Error::UnexpectedEof)
                } else if be_u32(s, p) > MAX_PAGES {
                    r == Err::<u32, Error>(Error::TooManyPages(be_u32(s, p)))
                } else {
                    r == Ok::<u32, Error>(be_u32(s, p)) && final(self).pos() == p + 4
                }
            }),
    {
        let count = self.cursor.u32_be()?;
        if count > MAX_PAGES {
            return Err(Error::TooManyPages(count));
        }
        Ok(count)
    }

    /// Skips the big-endian page-size table: pages are read in sequence, never
    /// located through it.
    pub fn skip_page_size_table(&mut self, page_count: u32) -> (r: Result<(), Error>)
        requires
            old(self).wf(),
        ensures
            final(self).wf(),
            final(self).data() == old(self).data(),
            ({
                let s = old(self).data();
                let p = old(self).pos();
                match spec_table_len(page_count) {
                    Err(e) => r == Err::<(), Error>(e),
                    Ok(t) => if p + t > s.len() {
                        r == Err::<(), Error>(Error::UnexpectedEof)
                    } else {
                        r is Ok && final(self).pos() == p + t
                    },
                }
            }),
    {
        let len = match table_len(page_count) {
            Ok(len) => len,
            Err(e) => return Err(e),
        };
        self.cursor.skip(len)
    }

    /// The page tag, matched as raw bytes.
    pub fn page_tag(&mut self) -> (r: Result<(), Error>)
        requires
            old(self).wf(),
        ensures
            final(self).wf(),
            final(self).data() == old(self).data(),
            ({
                let s = old(self).data();
                let p = old(self).pos();
                if p + 4 > s.len() {
                    r == Err::<(), Error>(Error::UnexpectedEof)
                } else if s.subrange(p, p + 4) != page_tag() {
                    r == Err::<(), Error>(Error::InvalidPageTag)
                } else {
                    r is Ok && final(self).pos() == p + 4
                }
            }),
    {
        let tag: [u8; 4] = [0x00, 0x00, 0x01, 0x00];
        assert(tag@ =~= page_tag());
        self.cursor.expect_tag(tag, Error::InvalidPageTag)
    }

    /// The zero marker that ends a page header.
    pub fn page_end(&mut self) -> (r: Result<(), Error>)
        requires
            old(self).wf(),
        ensures
            final(self).wf(),
            final(self).data() == old(self).data(),
            ({
                let s = old(self).data();
                let p = old(self).pos();
                if p + 4 > s.len() {
                    r == Err::<(), Error>(Error::UnexpectedEof)
                } else if s.subrange(p, p + 4) != zero_tag() {
                    r == Err::<(), Error>(Error::InvalidPageEnd)
                } else {
                    r is Ok && final(self).pos() == p + 4
                }
            }),
    {
        let tag: [u8; 4] = [0x00, 0x00, 0x00, 0x00];
        assert(tag@ =~= zero_tag());
        self.cursor.expect_tag(tag, Error::InvalidPageEnd)
    }

    /// The little-endian cookie count: rejected above
    /// [`MAX_COOKIES_PER_PAGE`], and when its offset table could not fit in
    /// the bytes left, before anything is allocated for it.
    pub fn cookie_count(&mut self) -> (r: Result<u32, Error>)
        requires
            old(self).wf(),
        ensures
            final(self).wf(),
            final(self).data() == old(self).data(),
            ({
                let s = old(self).data();
                let p = old(self).pos();
                if p + 4 > s.len() {
                    r == Err::<u32, Error>(Error::UnexpectedEof)
                } else if le_u32(s, p) > MAX_COOKIES_PER_PAGE {
                    r == Err::<u32, Error>(Error::TooManyCookies(le_u32(s, p)))
                } else {
                    match spec_table_len(le_u32(s, p)) {
                        Err(e) => r == Err::<u32, Error>(e),
                        Ok(t) => if p + 4 + t > s.len() {
                            r == Err::<u32, Error>(Error::UnexpectedEof)
                        } else {
                            r == Ok::<u32, Error>(le_u32(s, p)) && final(self).pos() == p + 4
                        },
                    }
                }
            }),
    {
        let count = self.cursor.u32_le()?;
        if count > MAX_COOKIES_PER_PAGE {
            return Err(Error::TooManyCookies(count));
        }
        if table_len(count)? > self.cursor.remaining() {
            return Err(Error::UnexpectedEof);
        }
        Ok(count)
    }

    /// Skips a page's cookie-offset table.
    pub fn skip_cookie_offset_table(&mut self, count: u32) -> (r: Result<(), Error>)
        requires
            old(self).wf(),
        ensures
            final(self).wf(),
            final(self).data() == old(self).data(),
            ({
                let s = old(self).data();
                let p = old(self).pos();
                match spec_table_len(count) {
                    Err(e) => r == Err::<(), Error>(e),
                    Ok(t) => if p + t > s.len() {
                        r == Err::<(), Error>(Error::UnexpectedEof)
                    } else {
                        r is Ok && final(self).pos() == p + t
                    },
                }
            }),
    {
        let len = match table_len(count) {
            Ok(len) => len,
            Err(e) => return Err(e),
        };
        self.cursor.skip(len)
    }

    /// The trailing checksum: stored, never computed or verified.
    pub fn checksum(&mut self) -> (r: Result<[u8; 8], Error>)
        requires
            old(self).wf(),
        ensures
            final(self).wf(),
            final(self).data() == old(self).data(),
            match r {
                Ok(sum) => {
                    &&& old(self).pos() + 8 <= old(self).data().len()
                    &&& sum@ == old(self).data().subrange(old(self).pos(), old(self).pos() + 8)
                    &&& final(self).pos() == old(self).pos() + 8
                },
                Err(e) => old(self).pos() + 8 > old(self).data().len() && e == Error::UnexpectedEof,
            },
    {
        self.cursor.array8()
    }

    /// One cookie record. All five component lengths are validated before any
    /// string is read; a zero comment offset means no comment and no bytes.
    #[verifier::rlimit(50)]
    pub fn cookie(&mut self) -> (r: Result<Cookie, Error>)
        requires
            old(self).wf(),
        ensures
            final(self).wf(),
            final(self).data() == old(self).data(),
            match r {
                Ok(c) => decode_cookie(old(self).data(), old(self).pos()) == Ok::<
                    (CookieView, int),
                    Error,
                >((c@, final(self).pos())),
                Err(e) => decode_cookie(old(self).data(), old(self).pos()) == Err::<
                    (CookieView, int),
                    Error,
                >(e),
            },
    {
        let ghost s = self.data();
        let ghost p = self.pos();
        reveal(decode_cookie);
        let size = self.cursor.u32_le()?;
        // Two 4-byte fields of unknown purpose surround the flags.
        self.cursor.skip(4)?;
        let flags = Flags::new(self.cursor.u32_le()?);
        self.cursor.skip(4)?;
        let domain_offset = self.cursor.u32_le()?;
        let name_offset = self.cursor.u32_le()?;
        let path_offset = self.cursor.u32_le()?;
        let value_offset = self.cursor.u32_le()?;
        let comment_offset = self.cursor.u32_le()?;
        let tag: [u8; 4] = [0x00, 0x00, 0x00, 0x00];
        assert(tag@ =~= zero_tag());
        self.cursor.expect_tag(tag, Error::InvalidCookieHeaderEnd)?;
        let expires = self.cursor.u64_le()?;
        let creation = self.cursor.u64_le()?;
        assert(self.pos() == p + 56);

        let comment_len = component_len(Component::Comment, comment_offset, domain_offset)?;
        let domain_len = component_len(Component::Domain, domain_offset, name_offset)?;
        let name_len = component_len(Component::Name, name_offset, path_offset)?;
        let path_len = component_len(Component::Path, path_offset, value_offset)?;
        let value_len = component_len(Component::Value, value_offset, size)?;
        let total = comment_len + domain_len + name_len + path_len + value_len;
        if total > MAX_COOKIE_SIZE {
            return Err(Error::CookieTotalTooLarge(total));
        }
        assert(decode_component_lens(
            size,
            domain_offset,
            name_offset,
            path_offset,
            value_offset,
            comment_offset,
        ) == Ok::<(u32, u32, u32, u32, u32), Error>(
            (comment_len, domain_len, name_len, path_len, value_len),
        ));

        let comment = if comment_offset == 0 {
            None
        } else {
            let bytes = self.cursor.take(to_len(comment_len)?)?;
            Some(lossy(bytes))
        };
        let domain = trim_terminator(self.cursor.take(to_len(domain_len)?)?);
        let name = trim_terminator(self.cursor.take(to_len(name_len)?)?);
        let path = trim_terminator(self.cursor.take(to_len(path_len)?)?);
        // The value's declared length may run past its terminator into trailing
        // metadata; all of it is consumed to keep the stream aligned.
        let value = truncate_at_nul(self.cursor.take(to_len(value_len)?)?);

        let cookie = Cookie { domain, name, path, value, comment, flags, expires, creation };
        assert(cookie@ == decode_cookie(s, p)->Ok_0.0);
        Ok(cookie)
    }

    /// One page: its header, the offset table (kept verbatim, never used for
    /// decoding), then the declared number of cookie records in sequence.
    pub fn page(&mut self) -> (r: Result<Page, Error>)
        requires
            old(self).wf(),
        ensures
            final(self).wf(),
            final(self).data() == old(self).data(),
            match r {
                Ok(page) => decode_page(old(self).data(), old(self).pos()) == Ok::<
                    (PageView, int),
                    Error,
                >((page@, final(self).pos())),
                Err(e) => decode_page(old(self).data(), old(self).pos()) == Err::<
                    (PageView, int),
                    Error,
                >(e),
            },
    {
        let ghost s = self.data();
        let ghost p = self.pos();
        reveal(decode_page);
        self.page_tag()?;
        let cookie_count = self.cookie_count()?;
        let ghost table = offset_table(s, p, cookie_count);
        let mut offsets: Vec<u32> = Vec::new();
        let mut i: u32 = 0;
        while i < cookie_count
            invariant
                self.wf(),
                self.data() == s,
                p + 8 + 4 * cookie_count <= s.len(),
                i <= cookie_count,
                self.pos() == p + 8 + 4 * i,
                table == offset_table(s, p, cookie_count),
                offsets@ == table.take(i as int),
            decreases cookie_count - i,
        {
            let offset = self.cursor.u32_le()?;
            offsets.push(offset);
            assert(offsets@ =~= table.take(i + 1));
            i = i + 1;
        }
        assert(offsets@ =~= table);
        self.page_end()?;
        let ghost first = self.pos();
        assert(decode_page_header(s, p) == Ok::<(u32, int), Error>((cookie_count, first)));

        let mut cookies: Vec<Cookie> = Vec::new();
        let mut j: u32 = 0;
        while j < cookie_count
            invariant
                self.wf(),
                self.data() == s,
                s == old(self).data(),
                p == old(self).pos(),
                j <= cookie_count,
                decode_page_header(s, p) == Ok::<(u32, int), Error>((cookie_count, first)),
                decode_cookie_run(s, first, cookie_count as nat) == after_prefix(
                    cookie_views(cookies@),
                    decode_cookie_run(s, self.pos(), (cookie_count - j) as nat),
                ),
            decreases cookie_count - j,
        {
            let ghost before = self.pos();
            let ghost views = cookie_views(cookies@);
            proof {
                lemma_cookie_run_step(s, before, (cookie_count - j) as nat);
            }
            let cookie = match self.cookie() {
                Ok(cookie) => cookie,
                Err(e) => {
                    proof {
                        reveal(decode_page);
                    }
                    return Err(e);
                },
            };
            cookies.push(cookie);
            proof {
                assert(cookie_views(cookies@) =~= views.push(cookie@));
                assert(views.push(cookie@) =~= views + seq![cookie@]);
                lemma_after_prefix_assoc(
                    views,
                    seq![cookie@],
                    decode_cookie_run(s, self.pos(), (cookie_count - j - 1) as nat),
                );
            }
            j = j + 1;
        }
        assert(cookie_views(cookies@) + Seq::<CookieView>::empty() =~= cookie_views(cookies@));
        Ok(Page { cookies, offsets })
    }
}

} // verus!

verus! {

/// The page views of a sequence of pages.
pub open spec fn page_views(pages: Seq<Page>) -> Seq<PageView> {
    pages.map_values(|p: Page| p@)
}

/// Decodes a complete `.binarycookies` file from a byte slice.
///
/// Pure slice parsing, no I/O. Pages and cookies are consumed in file order;
/// bytes after the trailing checksum are ignored. Malformed input returns the
/// first structural violation found, never panics.
pub fn from_bytes(input: &[u8]) -> (r: Result<BinaryCookies, Error>)
    ensures
        match r {
            Ok(jar) => decode_file(input@) == Ok::<JarView, Error>(jar@),
            Err(e) => decode_file(input@) == Err::<JarView, Error>(e),
        },
{
    let ghost s = input@;
    let mut decoder = Decoder::new(input);

    match decoder.signature() {
        Ok(()) => {},
        Err(e) => {
            proof {
                if let Error::InvalidSignature(found) = e {
                    crate::format::lemma_signature_of(s, found);
                }
            }
            return Err(e);
        },
    }
    let page_count = decoder.page_count()?;
    decoder.skip_page_size_table(page_count)?;
    let ghost first = decoder.pos();
    assert(decode_file_header(s) == Ok::<(u32, int), Error>((page_count, first)));

    // Grown per parsed page instead of pre-allocated from the declared count,
    // so memory tracks input actually consumed.
    let mut pages: Vec<Page> = Vec::new();
    let mut i: u32 = 0;
    while i < page_count
        invariant
            decoder.wf(),
            decoder.data() == s,
            s == input@,
            i <= page_count,
            decode_file_header(s) == Ok::<(u32, int), Error>((page_count, first)),
            decode_pages(s, first, page_count as nat) == after_prefix(
                page_views(pages@),
                decode_pages(s, decoder.pos(), (page_count - i) as nat),
            ),
        decreases page_count - i,
    {
        let ghost before = decoder.pos();
        let ghost views = page_views(pages@);
        proof {
            lemma_pages_step(s, before, (page_count - i) as nat);
        }
        let page = match decoder.page() {
            Ok(page) => page,
            Err(e) => return Err(e),
        };
        pages.push(page);
        proof {
            assert(page_views(pages@) =~= views.push(page@));
            assert(views.push(page@) =~= views + seq![page@]);
            lemma_after_prefix_assoc(
                views,
                seq![page@],
                decode_pages(s, decoder.pos(), (page_count - i - 1) as nat),
            );
        }
        i = i + 1;
    }
    assert(page_views(pages@) + Seq::<PageView>::empty() =~= page_views(pages@));

    // Bytes after the checksum (usually a bplist00 blob) are left unread.
    let checksum = decoder.checksum()?;
    let jar = BinaryCookies { pages, checksum };
    assert(jar@.pages == page_views(pages@));
    Ok(jar)
}

} // verus!
