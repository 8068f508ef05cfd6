//! Files built from one cookie's fields decode to exactly that cookie, each
//! field under its own string policy.

use vstd::prelude::*;

use crate::cursor::{le_u32, le_u64};
use crate::error::Error;
use crate::format::{
    decode_cookie, decode_cookie_run, decode_file, decode_file_header, decode_page,
    decode_page_header, decode_pages,
};
use crate::model::{CookieView, JarView, PageView};
use crate::text::{before_first_nul, utf8_lossy, without_trailing_nul};

verus! {

/// The four little-endian bytes of `v`.
pub open spec fn le_bytes(v: u32) -> Seq<u8> {
    seq![
        (v % 0x100) as u8,
        (v / 0x100 % 0x100) as u8,
        (v / 0x1_0000 % 0x100) as u8,
        (v / 0x100_0000) as u8,
    ]
}

/// The eight little-endian bytes of `v`.
pub open spec fn le_bytes64(v: u64) -> Seq<u8> {
    le_bytes((v % 0x1_0000_0000) as u32) + le_bytes((v / 0x1_0000_0000) as u32)
}

/// The comment's bytes, none when there is no comment.
pub open spec fn comment_bytes(comment: Option<Seq<u8>>) -> Seq<u8> {
    match comment {
        Some(c) => c,
        None => Seq::empty(),
    }
}

/// The 56-byte header of a cookie record: ten little-endian words (size,
/// unknown, flags, unknown, the domain, name, path, value and comment offsets,
/// a zero end marker) and the two timestamps.
pub open spec fn cookie_header_bytes(
    size: u32,
    flags: u32,
    domain_offset: u32,
    name_offset: u32,
    path_offset: u32,
    value_offset: u32,
    comment_offset: u32,
    expires: u64,
    creation: u64,
) -> Seq<u8> {
    le_bytes(size) + le_bytes(0) + le_bytes(flags) + le_bytes(0) + le_bytes(domain_offset)
        + le_bytes(name_offset) + le_bytes(path_offset) + le_bytes(value_offset) + le_bytes(
        comment_offset,
    ) + le_bytes(0) + le_bytes64(expires) + le_bytes64(creation)
}

/// A cookie record laid out as writers lay it out: the 56-byte header with
/// offsets relative to the record, then comment, domain, name, path and value.
pub open spec fn cookie_record(
    comment: Option<Seq<u8>>,
    domain: Seq<u8>,
    name: Seq<u8>,
    path: Seq<u8>,
    value: Seq<u8>,
    flags: u32,
    expires: u64,
    creation: u64,
) -> Seq<u8> {
    let domain_offset = 56 + comment_bytes(comment).len();
    let name_offset = domain_offset + domain.len();
    let path_offset = name_offset + name.len();
    let value_offset = path_offset + path.len();
    let size = value_offset + value.len();
    let comment_offset: u32 = if comment is Some {
        56
    } else {
        0
    };
    cookie_header_bytes(
        size as u32,
        flags,
        domain_offset as u32,
        name_offset as u32,
        path_offset as u32,
        value_offset as u32,
        comment_offset,
        expires,
        creation,
    ) + comment_bytes(comment) + domain + name + path + value
}

/// The 28 bytes before the record in a one-page, one-cookie file: the magic,
/// a page count of one, the page size (12), the page tag, a cookie count of
/// one, the cookie's offset (16) and the page-header end marker.
pub open spec fn single_cookie_prefix() -> Seq<u8> {
    seq![
        0x63u8, 0x6fu8, 0x6fu8, 0x6bu8,
        0x00u8, 0x00u8, 0x00u8, 0x01u8,
        0x00u8, 0x00u8, 0x00u8, 0x0cu8,
        0x00u8, 0x00u8, 0x01u8, 0x00u8,
        0x01u8, 0x00u8, 0x00u8, 0x00u8,
        0x10u8, 0x00u8, 0x00u8, 0x00u8,
        0x00u8, 0x00u8, 0x00u8, 0x00u8,
    ]
}

/// A whole file holding one page with one cookie, and a zero checksum.
pub open spec fn single_cookie_file(
    comment: Option<Seq<u8>>,
    domain: Seq<u8>,
    name: Seq<u8>,
    path: Seq<u8>,
    value: Seq<u8>,
    flags: u32,
    expires: u64,
    creation: u64,
) -> Seq<u8> {
    single_cookie_prefix() + cookie_record(
        comment,
        domain,
        name,
        path,
        value,
        flags,
        expires,
        creation,
    ) + Seq::new(8, |i: int| 0u8)
}

proof fn lemma_le_bytes(v: u32)
    ensures
        le_u32(le_bytes(v), 0) == v,
{
    let b = le_bytes(v);
    assert(v == v % 0x100 + (v / 0x100 % 0x100) * 0x100 + (v / 0x1_0000 % 0x100) * 0x1_0000 + (v
        / 0x100_0000) * 0x100_0000) by (bit_vector);
}

proof fn lemma_word_at(s: Seq<u8>, p: int, v: u32)
    requires
        0 <= p,
        p + 4 <= s.len(),
        s.subrange(p, p + 4) == le_bytes(v),
    ensures
        le_u32(s, p) == v,
{
    lemma_le_bytes(v);
    let w = s.subrange(p, p + 4);
    assert(s[p] == w[0] && s[p + 1] == w[1] && s[p + 2] == w[2] && s[p + 3] == w[3]);
}

proof fn lemma_dword_at(s: Seq<u8>, p: int, v: u64)
    requires
        0 <= p,
        p + 8 <= s.len(),
        s.subrange(p, p + 8) == le_bytes64(v),
    ensures
        le_u64(s, p) == v,
{
    let lo = (v % 0x1_0000_0000) as u32;
    let hi = (v / 0x1_0000_0000) as u32;
    assert(s.subrange(p, p + 4) =~= le_bytes(lo)) by {
        assert(s.subrange(p, p + 8).subrange(0, 4) =~= s.subrange(p, p + 4));
    }
    assert(s.subrange(p + 4, p + 8) =~= le_bytes(hi)) by {
        assert(s.subrange(p, p + 8).subrange(4, 8) =~= s.subrange(p + 4, p + 8));
    }
    lemma_word_at(s, p, lo);
    lemma_word_at(s, p + 4, hi);
    assert(v == v % 0x1_0000_0000 + (v / 0x1_0000_0000) * 0x1_0000_0000) by (bit_vector);
}

proof fn lemma_subrange_within(s: Seq<u8>, base: int, part: Seq<u8>, a: int, b: int)
    requires
        0 <= base,
        base + part.len() <= s.len(),
        s.subrange(base, base + part.len()) == part,
        0 <= a <= b <= part.len(),
    ensures
        s.subrange(base + a, base + b) == part.subrange(a, b),
{
    assert(s.subrange(base + a, base + b) =~= s.subrange(base, base + part.len()).subrange(a, b));
}

proof fn lemma_header_layout(
    size: u32,
    flags: u32,
    domain_offset: u32,
    name_offset: u32,
    path_offset: u32,
    value_offset: u32,
    comment_offset: u32,
    expires: u64,
    creation: u64,
)
    ensures
        ({
            let h = cookie_header_bytes(
                size,
                flags,
                domain_offset,
                name_offset,
                path_offset,
                value_offset,
                comment_offset,
                expires,
                creation,
            );
            &&& h.len() == 56
            &&& h.subrange(0, 4) == le_bytes(size)
            &&& h.subrange(8, 12) == le_bytes(flags)
            &&& h.subrange(16, 20) == le_bytes(domain_offset)
            &&& h.subrange(20, 24) == le_bytes(name_offset)
            &&& h.subrange(24, 28) == le_bytes(path_offset)
            &&& h.subrange(28, 32) == le_bytes(value_offset)
            &&& h.subrange(32, 36) == le_bytes(comment_offset)
            &&& h.subrange(36, 40) == seq![0u8, 0u8, 0u8, 0u8]
            &&& h.subrange(40, 48) == le_bytes64(expires)
            &&& h.subrange(48, 56) == le_bytes64(creation)
        }),
{
    let h = cookie_header_bytes(
        size,
        flags,
        domain_offset,
        name_offset,
        path_offset,
        value_offset,
        comment_offset,
        expires,
        creation,
    );
    assert(h.subrange(0, 4) =~= le_bytes(size));
    assert(h.subrange(8, 12) =~= le_bytes(flags));
    assert(h.subrange(16, 20) =~= le_bytes(domain_offset));
    assert(h.subrange(20, 24) =~= le_bytes(name_offset));
    assert(h.subrange(24, 28) =~= le_bytes(path_offset));
    assert(h.subrange(28, 32) =~= le_bytes(value_offset));
    assert(h.subrange(32, 36) =~= le_bytes(comment_offset));
    assert(h.subrange(36, 40) =~= seq![0u8, 0u8, 0u8, 0u8]);
    assert(h.subrange(40, 48) =~= le_bytes64(expires));
    assert(h.subrange(48, 56) =~= le_bytes64(creation));
}

proof fn lemma_body_layout(
    h: Seq<u8>,
    c: Seq<u8>,
    domain: Seq<u8>,
    name: Seq<u8>,
    path: Seq<u8>,
    value: Seq<u8>,
)
    requires
        h.len() == 56,
    ensures
        ({
            let r = h + c + domain + name + path + value;
            let d = 56int + c.len();
            let n = d + domain.len();
            let p = n + name.len();
            let v = p + path.len();
            &&& r.len() == v + value.len()
            &&& r.subrange(0, 56) == h
            &&& r.subrange(56, d) == c
            &&& r.subrange(d, n) == domain
            &&& r.subrange(n, p) == name
            &&& r.subrange(p, v) == path
            &&& r.subrange(v, v + value.len()) == value
        }),
{
    let r = h + c + domain + name + path + value;
    let d = 56int + c.len();
    let n = d + domain.len();
    let p = n + name.len();
    let v = p + path.len();
    assert(r.subrange(0, 56) =~= h);
    assert(r.subrange(56, d) =~= c);
    assert(r.subrange(d, n) =~= domain);
    assert(r.subrange(n, p) =~= name);
    assert(r.subrange(p, v) =~= path);
    assert(r.subrange(v, v + value.len()) =~= value);
}

/// What a record built from these fields decodes to.
pub open spec fn single_cookie_view(
    comment: Option<Seq<u8>>,
    domain: Seq<u8>,
    name: Seq<u8>,
    path: Seq<u8>,
    value: Seq<u8>,
    flags: u32,
    expires: u64,
    creation: u64,
) -> CookieView {
    CookieView {
        domain: utf8_lossy(without_trailing_nul(domain)),
        name: utf8_lossy(without_trailing_nul(name)),
        path: utf8_lossy(without_trailing_nul(path)),
        value: utf8_lossy(before_first_nul(value)),
        comment: match comment {
            Some(c) => Some(utf8_lossy(c)),
            None => None,
        },
        flags,
        expires,
        creation,
    }
}

#[verifier::rlimit(100)]
proof fn lemma_record_decodes(
    s: Seq<u8>,
    comment: Option<Seq<u8>>,
    domain: Seq<u8>,
    name: Seq<u8>,
    path: Seq<u8>,
    value: Seq<u8>,
    flags: u32,
    expires: u64,
    creation: u64,
)
    requires
        comment_bytes(comment).len() + domain.len() + name.len() + path.len() + value.len() + (
        if comment is None {
            56int
        } else {
            0int
        }) <= 4096,
        s.len() >= 28 + cookie_record(
            comment,
            domain,
            name,
            path,
            value,
            flags,
            expires,
            creation,
        ).len(),
        s.subrange(28, 28int + cookie_record(
            comment,
            domain,
            name,
            path,
            value,
            flags,
            expires,
            creation,
        ).len()) == cookie_record(comment, domain, name, path, value, flags, expires, creation),
    ensures
        decode_cookie(s, 28) == Ok::<(CookieView, int), Error>(
            (
                single_cookie_view(comment, domain, name, path, value, flags, expires, creation),
                28int + cookie_record(
                    comment,
                    domain,
                    name,
                    path,
                    value,
                    flags,
                    expires,
                    creation,
                ).len(),
            ),
        ),
{
    reveal(decode_cookie);
    let rec = cookie_record(comment, domain, name, path, value, flags, expires, creation);
    let c = comment_bytes(comment);
    let cl: int = c.len() as int;
    let domain_offset: int = 56 + cl;
    let name_offset: int = domain_offset + domain.len();
    let path_offset: int = name_offset + name.len();
    let value_offset: int = path_offset + path.len();
    let size: int = value_offset + value.len();
    let comment_offset: u32 = if comment is Some {
        56
    } else {
        0
    };
    let h = cookie_header_bytes(
        size as u32,
        flags,
        domain_offset as u32,
        name_offset as u32,
        path_offset as u32,
        value_offset as u32,
        comment_offset,
        expires,
        creation,
    );
    lemma_header_layout(
        size as u32,
        flags,
        domain_offset as u32,
        name_offset as u32,
        path_offset as u32,
        value_offset as u32,
        comment_offset,
        expires,
        creation,
    );
    lemma_body_layout(h, c, domain, name, path, value);
    assert(rec == h + c + domain + name + path + value);
    lemma_subrange_within(s, 28, rec, 0, 56);
    let hs = s.subrange(28, 84);
    assert(hs == h);
    lemma_subrange_within(s, 28, h, 0, 4);
    lemma_subrange_within(s, 28, h, 8, 12);
    lemma_subrange_within(s, 28, h, 16, 20);
    lemma_subrange_within(s, 28, h, 20, 24);
    lemma_subrange_within(s, 28, h, 24, 28);
    lemma_subrange_within(s, 28, h, 28, 32);
    lemma_subrange_within(s, 28, h, 32, 36);
    lemma_subrange_within(s, 28, h, 36, 40);
    lemma_subrange_within(s, 28, h, 40, 48);
    lemma_subrange_within(s, 28, h, 48, 56);
    lemma_word_at(s, 28, size as u32);
    lemma_word_at(s, 36, flags);
    lemma_word_at(s, 44, domain_offset as u32);
    lemma_word_at(s, 48, name_offset as u32);
    lemma_word_at(s, 52, path_offset as u32);
    lemma_word_at(s, 56, value_offset as u32);
    lemma_word_at(s, 60, comment_offset);
    lemma_dword_at(s, 68, expires);
    lemma_dword_at(s, 76, creation);
    lemma_subrange_within(s, 28, rec, 56, domain_offset);
    lemma_subrange_within(s, 28, rec, domain_offset, name_offset);
    lemma_subrange_within(s, 28, rec, name_offset, path_offset);
    lemma_subrange_within(s, 28, rec, path_offset, value_offset);
    lemma_subrange_within(s, 28, rec, value_offset, size);
    assert(crate::format::zero_tag() =~= seq![0u8, 0u8, 0u8, 0u8]);
}

/// A file holding one page with one cookie, built from the cookie's fields,
/// decodes to that page and cookie: the domain, name and path lose one
/// trailing NUL, the value is cut at its first NUL, the comment is kept
/// verbatim, the flags and timestamps as written. It succeeds whenever the
/// five components fit in [`crate::format::MAX_COOKIE_SIZE`] bytes, the
/// absent comment counting as the 56 bytes before the domain.
pub proof fn lemma_single_cookie_file(
    comment: Option<Seq<u8>>,
    domain: Seq<u8>,
    name: Seq<u8>,
    path: Seq<u8>,
    value: Seq<u8>,
    flags: u32,
    expires: u64,
    creation: u64,
)
    requires
        comment_bytes(comment).len() + domain.len() + name.len() + path.len() + value.len() + (
        if comment is None {
            56int
        } else {
            0int
        }) <= 4096,
    ensures
        decode_file(
            single_cookie_file(comment, domain, name, path, value, flags, expires, creation),
        ) == Ok::<JarView, Error>(
            JarView {
                pages: seq![
                    PageView {
                        cookies: seq![
                            single_cookie_view(
                                comment,
                                domain,
                                name,
                                path,
                                value,
                                flags,
                                expires,
                                creation,
                            ),
                        ],
                        offsets: seq![0x10u32],
                    },
                ],
                checksum: Seq::new(8, |i: int| 0u8),
            },
        ),
{
    reveal(decode_page);
    let rec = cookie_record(comment, domain, name, path, value, flags, expires, creation);
    let pre = single_cookie_prefix();
    let zeros = Seq::new(8, |i: int| 0u8);
    let s = single_cookie_file(comment, domain, name, path, value, flags, expires, creation);
    let view = single_cookie_view(comment, domain, name, path, value, flags, expires, creation);
    let end: int = 28int + rec.len();
    assert(s.len() == end + 8);
    assert forall|i: int| 0 <= i < 28 implies #[trigger] s[i] == pre[i] by {}
    assert(s.subrange(28, end) =~= rec);
    lemma_record_decodes(s, comment, domain, name, path, value, flags, expires, creation);
    assert(s.subrange(0, 4) =~= crate::format::magic());
    assert(decode_file_header(s) == Ok::<(u32, int), Error>((1, 12)));
    assert(s.subrange(12, 16) =~= crate::format::page_tag());
    assert(s.subrange(24, 28) =~= crate::format::zero_tag());
    assert(decode_page_header(s, 12) == Ok::<(u32, int), Error>((1, 28)));
    assert(decode_cookie_run(s, end, 0) == Ok::<(Seq<CookieView>, int), Error>(
        (Seq::empty(), end),
    ));
    assert(seq![view] + Seq::<CookieView>::empty() =~= seq![view]);
    assert(decode_cookie_run(s, 28, 1) == Ok::<(Seq<CookieView>, int), Error>((seq![view], end)));
    assert(crate::format::offset_table(s, 12, 1) =~= seq![0x10u32]);
    let page = PageView { cookies: seq![view], offsets: seq![0x10u32] };
    assert(decode_page(s, 12) == Ok::<(PageView, int), Error>((page, end)));
    assert(decode_pages(s, end, 0) == Ok::<(Seq<PageView>, int), Error>((Seq::empty(), end)));
    assert(seq![page] + Seq::<PageView>::empty() =~= seq![page]);
    assert(decode_pages(s, 12, 1) == Ok::<(Seq<PageView>, int), Error>((seq![page], end)));
    assert(s.subrange(end, end + 8) =~= zeros);
}

} // verus!
