//! The `.binarycookies` byte format, stated as specifications, and the small
//! length computations that the decoder shares.
//!
//! Each `decode_*` specification reads a structure starting at a byte position
//! and gives either its value and the position after it, or the first
//! structural violation met when reading it front to back.

use vstd::prelude::*;

use crate::cursor::{be_u32, le_u32, le_u64};
use crate::error::{Component, Error};
use crate::model::{CookieView, JarView, PageView};
use crate::text::{before_first_nul, utf8_lossy, without_trailing_nul};

verus! {

/// Cap on the declared page count, far above any real Safari jar.
pub const MAX_PAGES: u32 = 0x1_0000;

/// Cap on the declared per-page cookie count.
pub const MAX_COOKIES_PER_PAGE: u32 = 0x10_0000;

/// Bound on each cookie component and on the sum of the five.
pub const MAX_COOKIE_SIZE: u32 = 4096;

/// Length in bytes of a cookie record's fixed header.
pub const COOKIE_HEADER_LEN: usize = 56;

/// The file magic `cook`.
pub open spec fn magic() -> Seq<u8> {
    seq![0x63u8, 0x6fu8, 0x6fu8, 0x6bu8]
}

/// The tag that opens every page: `00 00 01 00`.
pub open spec fn page_tag() -> Seq<u8> {
    seq![0x00u8, 0x00u8, 0x01u8, 0x00u8]
}

/// The all-zero marker closing page headers and cookie headers.
pub open spec fn zero_tag() -> Seq<u8> {
    seq![0x00u8, 0x00u8, 0x00u8, 0x00u8]
}

/// The first four bytes of `s`, as carried by `InvalidSignature`.
pub open spec fn signature_of(s: Seq<u8>) -> [u8; 4] {
    choose|found: [u8; 4]| found@ == s.subrange(0, 4)
}

/// Any four-byte array holding the first four bytes of `s` is `signature_of(s)`.
pub proof fn lemma_signature_of(s: Seq<u8>, found: [u8; 4])
    requires
        s.len() >= 4,
        found@ == s.subrange(0, 4),
    ensures
        signature_of(s) == found,
{
    broadcast use vstd::array::group_array_axioms;

    let chosen = signature_of(s);
    assert(chosen@ == s.subrange(0, 4));
    assert(chosen@ =~= found@);
}

/// The length `end - start` of one cookie component, which must not be
/// negative nor exceed [`MAX_COOKIE_SIZE`].
pub open spec fn spec_component_len(component: Component, start: u32, end: u32) -> Result<u32, Error> {
    if end < start {
        Err(Error::MalformedOffsets)
    } else if end - start > MAX_COOKIE_SIZE {
        Err(Error::CookieTooLarge { component, size: (end - start) as u32 })
    } else {
        Ok((end - start) as u32)
    }
}

/// The byte length of a table of `count` four-byte entries, when it fits in
/// `usize`.
pub open spec fn spec_table_len(count: u32) -> Result<usize, Error> {
    if count * 4 <= usize::MAX {
        Ok((count * 4) as usize)
    } else {
        Err(Error::UnexpectedEof)
    }
}

/// Checks one component length against [`MAX_COOKIE_SIZE`].
pub fn component_len(component: Component, start: u32, end: u32) -> (r: Result<u32, Error>)
    ensures
        r == spec_component_len(component, start, end),
{
    if end < start {
        return Err(Error::MalformedOffsets);
    }
    let len = end - start;
    if len > MAX_COOKIE_SIZE {
        return Err(Error::CookieTooLarge { component, size: len });
    }
    Ok(len)
}

/// The byte length of a table of `count` four-byte entries; widened so the
/// multiplication cannot overflow, failing only where `usize` is too narrow.
pub fn table_len(count: u32) -> (r: Result<usize, Error>)
    ensures
        r == spec_table_len(count),
{
    let bytes: u64 = count as u64 * 4;
    if bytes <= usize::MAX as u64 {
        Ok(bytes as usize)
    } else {
        Err(Error::UnexpectedEof)
    }
}

/// A `u32` length as a `usize`; never fails on the 32- and 64-bit targets
/// that Verus admits.
pub fn to_len(len: u32) -> (r: Result<usize, Error>)
    ensures
        r == Ok::<usize, Error>(len as usize),
{
    Ok(len as usize)
}

/// The file header: the magic, the big-endian page count (capped at
/// [`MAX_PAGES`]) and the page-size table, which is skipped. Gives the page
/// count and the position of the first page.
pub open spec fn decode_file_header(s: Seq<u8>) -> Result<(u32, int), Error> {
    if s.len() < 4 {
        Err(Error::UnexpectedEof)
    } else if s.subrange(0, 4) != magic() {
        Err(Error::InvalidSignature(signature_of(s)))
    } else if s.len() < 8 {
        Err(Error::UnexpectedEof)
    } else if be_u32(s, 4) > MAX_PAGES {
        Err(Error::TooManyPages(be_u32(s, 4)))
    } else {
        match spec_table_len(be_u32(s, 4)) {
            Err(e) => Err(e),
            Ok(table) => if 8 + table > s.len() {
                Err(Error::UnexpectedEof)
            } else {
                Ok((be_u32(s, 4), 8 + table))
            },
        }
    }
}

/// A page header at `pos`: the page tag, the little-endian cookie count
/// (capped at [`MAX_COOKIES_PER_PAGE`] and checked against the bytes left),
/// the cookie-offset table and the zero end marker. Gives the cookie count and
/// the position of the first cookie.
pub open spec fn decode_page_header(s: Seq<u8>, pos: int) -> Result<(u32, int), Error> {
    if pos + 4 > s.len() {
        Err(Error::UnexpectedEof)
    } else if s.subrange(pos, pos + 4) != page_tag() {
        Err(Error::InvalidPageTag)
    } else if pos + 8 > s.len() {
        Err(Error::UnexpectedEof)
    } else if le_u32(s, pos + 4) > MAX_COOKIES_PER_PAGE {
        Err(Error::TooManyCookies(le_u32(s, pos + 4)))
    } else {
        match spec_table_len(le_u32(s, pos + 4)) {
            Err(e) => Err(e),
            Ok(table) => if pos + 8 + table > s.len() {
                Err(Error::UnexpectedEof)
            } else if pos + 8 + table + 4 > s.len() {
                Err(Error::UnexpectedEof)
            } else if s.subrange(pos + 8 + table, pos + 8 + table + 4) != zero_tag() {
                Err(Error::InvalidPageEnd)
            } else {
                Ok((le_u32(s, pos + 4), pos + 8 + table + 4))
            },
        }
    }
}

/// The cookie-offset table of the page at `pos`: `count` little-endian words
/// after the tag and the count.
pub open spec fn offset_table(s: Seq<u8>, pos: int, count: u32) -> Seq<u32> {
    Seq::new(count as nat, |i: int| le_u32(s, pos + 8 + 4 * i))
}

/// The five component lengths of a cookie record, checked in order (comment,
/// domain, name, path, value), then their sum against [`MAX_COOKIE_SIZE`].
pub open spec fn decode_component_lens(
    size: u32,
    domain: u32,
    name: u32,
    path: u32,
    value: u32,
    comment: u32,
) -> Result<(u32, u32, u32, u32, u32), Error> {
    match spec_component_len(Component::Comment, comment, domain) {
        Err(e) => Err(e),
        Ok(cl) => match spec_component_len(Component::Domain, domain, name) {
            Err(e) => Err(e),
            Ok(dl) => match spec_component_len(Component::Name, name, path) {
                Err(e) => Err(e),
                Ok(nl) => match spec_component_len(Component::Path, path, value) {
                    Err(e) => Err(e),
                    Ok(pl) => match spec_component_len(Component::Value, value, size) {
                        Err(e) => Err(e),
                        Ok(vl) => if cl + dl + nl + pl + vl > MAX_COOKIE_SIZE {
                            Err(Error::CookieTotalTooLarge((cl + dl + nl + pl + vl) as u32))
                        } else {
                            Ok((cl, dl, nl, pl, vl))
                        },
                    },
                },
            },
        },
    }
}

/// A cookie record at `pos`: a 56-byte header of little-endian words (size,
/// unknown, flags, unknown, the domain, name, path, value and comment offsets,
/// a zero marker) and two `f64` timestamps, then the comment (only when its
/// offset is not zero), domain, name, path and value bytes, whose lengths are
/// the differences of consecutive offsets. Gives the cookie and the position
/// after its last byte.
#[verifier::opaque]
pub open spec fn decode_cookie(s: Seq<u8>, pos: int) -> Result<(CookieView, int), Error> {
    if pos + 40 > s.len() {
        Err(Error::UnexpectedEof)
    } else if s.subrange(pos + 36, pos + 40) != zero_tag() {
        Err(Error::InvalidCookieHeaderEnd)
    } else if pos + 56 > s.len() {
        Err(Error::UnexpectedEof)
    } else {
        let comment_offset = le_u32(s, pos + 32);
        match decode_component_lens(
            le_u32(s, pos),
            le_u32(s, pos + 16),
            le_u32(s, pos + 20),
            le_u32(s, pos + 24),
            le_u32(s, pos + 28),
            comment_offset,
        ) {
            Err(e) => Err(e),
            Ok((cl, dl, nl, pl, vl)) => {
                let comment_start = pos + 56;
                let domain_start = if comment_offset == 0 {
                    comment_start
                } else {
                    comment_start + cl
                };
                let name_start = domain_start + dl;
                let path_start = name_start + nl;
                let value_start = path_start + pl;
                let end = value_start + vl;
                if end > s.len() {
                    Err(Error::UnexpectedEof)
                } else {
                    Ok(
                        (
                            CookieView {
                                domain: utf8_lossy(
                                    without_trailing_nul(s.subrange(domain_start, name_start)),
                                ),
                                name: utf8_lossy(
                                    without_trailing_nul(s.subrange(name_start, path_start)),
                                ),
                                path: utf8_lossy(
                                    without_trailing_nul(s.subrange(path_start, value_start)),
                                ),
                                value: utf8_lossy(before_first_nul(s.subrange(value_start, end))),
                                comment: if comment_offset == 0 {
                                    None
                                } else {
                                    Some(utf8_lossy(s.subrange(comment_start, domain_start)))
                                },
                                flags: le_u32(s, pos + 8),
                                expires: le_u64(s, pos + 40),
                                creation: le_u64(s, pos + 48),
                            },
                            end,
                        ),
                    )
                }
            },
        }
    }
}

/// `n` consecutive cookie records starting at `pos`.
pub open spec fn decode_cookie_run(s: Seq<u8>, pos: int, n: nat) -> Result<
    (Seq<CookieView>, int),
    Error,
>
    decreases n,
{
    if n == 0 {
        Ok((Seq::empty(), pos))
    } else {
        match decode_cookie(s, pos) {
            Err(e) => Err(e),
            Ok((c, p)) => match decode_cookie_run(s, p, (n - 1) as nat) {
                Err(e) => Err(e),
                Ok((cs, q)) => Ok((seq![c] + cs, q)),
            },
        }
    }
}

/// A page at `pos`: its header, then as many cookie records as it declares.
#[verifier::opaque]
pub open spec fn decode_page(s: Seq<u8>, pos: int) -> Result<(PageView, int), Error> {
    match decode_page_header(s, pos) {
        Err(e) => Err(e),
        Ok((count, first)) => match decode_cookie_run(s, first, count as nat) {
            Err(e) => Err(e),
            Ok((cookies, end)) => Ok(
                (PageView { cookies, offsets: offset_table(s, pos, count) }, end),
            ),
        },
    }
}

/// `n` consecutive pages starting at `pos`.
pub open spec fn decode_pages(s: Seq<u8>, pos: int, n: nat) -> Result<(Seq<PageView>, int), Error>
    decreases n,
{
    if n == 0 {
        Ok((Seq::empty(), pos))
    } else {
        match decode_page(s, pos) {
            Err(e) => Err(e),
            Ok((page, p)) => match decode_pages(s, p, (n - 1) as nat) {
                Err(e) => Err(e),
                Ok((pages, q)) => Ok((seq![page] + pages, q)),
            },
        }
    }
}

/// A whole file: the header, the declared pages, then the 8-byte checksum,
/// which is kept but not verified. Bytes after the checksum are not read.
pub open spec fn decode_file(s: Seq<u8>) -> Result<JarView, Error> {
    match decode_file_header(s) {
        Err(e) => Err(e),
        Ok((count, first)) => match decode_pages(s, first, count as nat) {
            Err(e) => Err(e),
            Ok((pages, end)) => if end + 8 > s.len() {
                Err(Error::UnexpectedEof)
            } else {
                Ok(JarView { pages, checksum: s.subrange(end, end + 8) })
            },
        },
    }
}

/// Where the decoder resumes after a successful step, or the error that the
/// step met, once `acc` is put in front of the values the step produced.
pub open spec fn after_prefix<T>(acc: Seq<T>, r: Result<(Seq<T>, int), Error>) -> Result<
    (Seq<T>, int),
    Error,
> {
    match r {
        Err(e) => Err(e),
        Ok((vs, q)) => Ok((acc + vs, q)),
    }
}

/// Putting `a` and then `b` in front of a step's values is putting `a + b`.
pub proof fn lemma_after_prefix_assoc<T>(a: Seq<T>, b: Seq<T>, r: Result<(Seq<T>, int), Error>)
    ensures
        after_prefix(a, after_prefix(b, r)) == after_prefix(a + b, r),
{
    match r {
        Ok((vs, q)) => {
            assert(a + (b + vs) =~= (a + b) + vs);
        },
        Err(_) => {},
    }
}

/// One more cookie record of a run: its outcome decides the run's.
pub proof fn lemma_cookie_run_step(s: Seq<u8>, pos: int, n: nat)
    requires
        n > 0,
    ensures
        decode_cookie_run(s, pos, n) == match decode_cookie(s, pos) {
            Err(e) => Err(e),
            Ok((c, p)) => after_prefix(seq![c], decode_cookie_run(s, p, (n - 1) as nat)),
        },
{
}

/// One more page of a run: its outcome decides the run's.
pub proof fn lemma_pages_step(s: Seq<u8>, pos: int, n: nat)
    requires
        n > 0,
    ensures
        decode_pages(s, pos, n) == match decode_page(s, pos) {
            Err(e) => Err(e),
            Ok((page, p)) => after_prefix(seq![page], decode_pages(s, p, (n - 1) as nat)),
        },
{
}

} // verus!
