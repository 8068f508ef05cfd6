//! Which bytes a decode depends on: exactly those up to the end of the
//! checksum. Bytes after it are ignored, and every shorter prefix fails.

use vstd::prelude::*;

use crate::cursor::{be_u32, le_u32};
use crate::error::Error;
use crate::format::{
    decode_cookie, decode_cookie_run, decode_file, decode_file_header, decode_page,
    decode_page_header, decode_pages, offset_table,
};
use crate::model::{CookieView, JarView, PageView};

verus! {

/// `s1` and `s2` both hold at least `n` bytes and agree on the first `n`.
pub open spec fn agree(s1: Seq<u8>, s2: Seq<u8>, n: int) -> bool {
    &&& 0 <= n <= s1.len()
    &&& n <= s2.len()
    &&& forall|j: int| 0 <= j < n ==> #[trigger] s1[j] == s2[j]
}

/// The number of bytes that a successful decode of `s` reads: up to the end
/// of the checksum.
pub open spec fn decoded_len(s: Seq<u8>) -> int {
    match decode_file_header(s) {
        Err(_) => 0,
        Ok((count, first)) => match decode_pages(s, first, count as nat) {
            Err(_) => 0,
            Ok((_, end)) => end + 8,
        },
    }
}

proof fn lemma_agree_weaken(s1: Seq<u8>, s2: Seq<u8>, n: int, m: int)
    requires
        agree(s1, s2, n),
        0 <= m <= n,
    ensures
        agree(s1, s2, m),
{
}

proof fn lemma_agree_subrange(s1: Seq<u8>, s2: Seq<u8>, n: int, a: int, b: int)
    requires
        agree(s1, s2, n),
        0 <= a <= b <= n,
    ensures
        s1.subrange(a, b) == s2.subrange(a, b),
{
    assert(s1.subrange(a, b) =~= s2.subrange(a, b));
}

proof fn lemma_agree_words(s1: Seq<u8>, s2: Seq<u8>, n: int, p: int)
    requires
        agree(s1, s2, n),
        0 <= p,
        p + 4 <= n,
    ensures
        le_u32(s1, p) == le_u32(s2, p),
        be_u32(s1, p) == be_u32(s2, p),
{
    assert(s1[p] == s2[p] && s1[p + 1] == s2[p + 1] && s1[p + 2] == s2[p + 2] && s1[p + 3]
        == s2[p + 3]);
}

proof fn lemma_agree_take(s: Seq<u8>, n: int)
    requires
        0 <= n <= s.len(),
    ensures
        agree(s, s.take(n), n),
{
}

proof fn lemma_file_header_local(s1: Seq<u8>, s2: Seq<u8>)
    requires
        decode_file_header(s1) matches Ok((count, first)) && agree(s1, s2, first),
    ensures
        decode_file_header(s2) == decode_file_header(s1),
{
    lemma_agree_subrange(s1, s2, decode_file_header(s1)->Ok_0.1, 0, 4);
    lemma_agree_words(s1, s2, decode_file_header(s1)->Ok_0.1, 4);
}

proof fn lemma_file_header_truncated(s: Seq<u8>, n: int)
    requires
        decode_file_header(s) matches Ok((count, first)) && 0 <= n < first,
        n <= s.len(),
    ensures
        decode_file_header(s.take(n)) == Err::<(u32, int), Error>(Error::UnexpectedEof),
{
    let t = s.take(n);
    lemma_agree_take(s, n);
    if n >= 4 {
        lemma_agree_subrange(s, t, n, 0, 4);
    }
    if n >= 8 {
        lemma_agree_words(s, t, n, 4);
    }
}

proof fn lemma_page_header_local(s1: Seq<u8>, s2: Seq<u8>, pos: int)
    requires
        0 <= pos,
        decode_page_header(s1, pos) matches Ok((count, first)) && agree(s1, s2, first),
    ensures
        decode_page_header(s2, pos) == decode_page_header(s1, pos),
{
    let first = decode_page_header(s1, pos)->Ok_0.1;
    lemma_agree_subrange(s1, s2, first, pos, pos + 4);
    lemma_agree_words(s1, s2, first, pos + 4);
    lemma_agree_subrange(s1, s2, first, first - 4, first);
}

proof fn lemma_page_header_truncated(s: Seq<u8>, pos: int, n: int)
    requires
        0 <= pos,
        decode_page_header(s, pos) matches Ok((count, first)) && 0 <= n < first,
        n <= s.len(),
    ensures
        decode_page_header(s.take(n), pos) == Err::<(u32, int), Error>(Error::UnexpectedEof),
{
    let t = s.take(n);
    lemma_agree_take(s, n);
    if n >= pos + 4 {
        lemma_agree_subrange(s, t, n, pos, pos + 4);
    }
    if n >= pos + 8 {
        lemma_agree_words(s, t, n, pos + 4);
    }
}

proof fn lemma_cookie_local(s1: Seq<u8>, s2: Seq<u8>, pos: int)
    requires
        0 <= pos,
        decode_cookie(s1, pos) matches Ok((c, end)) && agree(s1, s2, end),
    ensures
        decode_cookie(s2, pos) == decode_cookie(s1, pos),
{
    reveal(decode_cookie);
    let end = decode_cookie(s1, pos)->Ok_0.1;
    lemma_agree_subrange(s1, s2, end, pos + 36, pos + 40);
    lemma_agree_words(s1, s2, end, pos);
    lemma_agree_words(s1, s2, end, pos + 8);
    lemma_agree_words(s1, s2, end, pos + 16);
    lemma_agree_words(s1, s2, end, pos + 20);
    lemma_agree_words(s1, s2, end, pos + 24);
    lemma_agree_words(s1, s2, end, pos + 28);
    lemma_agree_words(s1, s2, end, pos + 32);
    lemma_agree_words(s1, s2, end, pos + 40);
    lemma_agree_words(s1, s2, end, pos + 44);
    lemma_agree_words(s1, s2, end, pos + 48);
    lemma_agree_words(s1, s2, end, pos + 52);
    assert(s1.subrange(pos + 56, end) =~= s2.subrange(pos + 56, end));
    assert forall|a: int, b: int| pos + 56 <= a <= b <= end implies s1.subrange(a, b)
        == s2.subrange(a, b) by {
        lemma_agree_subrange(s1, s2, end, a, b);
    }
}

proof fn lemma_cookie_truncated(s: Seq<u8>, pos: int, n: int)
    requires
        0 <= pos,
        decode_cookie(s, pos) matches Ok((c, end)) && 0 <= n < end,
        n <= s.len(),
    ensures
        decode_cookie(s.take(n), pos) == Err::<(CookieView, int), Error>(Error::UnexpectedEof),
{
    reveal(decode_cookie);
    let t = s.take(n);
    lemma_agree_take(s, n);
    if n >= pos + 40 {
        lemma_agree_subrange(s, t, n, pos + 36, pos + 40);
    }
    if n >= pos + 56 {
        lemma_agree_words(s, t, n, pos);
        lemma_agree_words(s, t, n, pos + 16);
        lemma_agree_words(s, t, n, pos + 20);
        lemma_agree_words(s, t, n, pos + 24);
        lemma_agree_words(s, t, n, pos + 28);
        lemma_agree_words(s, t, n, pos + 32);
    }
}

proof fn lemma_cookie_advances(s: Seq<u8>, pos: int)
    ensures
        decode_cookie(s, pos) matches Ok((c, end)) ==> pos < end,
{
    reveal(decode_cookie);
}

proof fn lemma_cookie_run_local(s1: Seq<u8>, s2: Seq<u8>, pos: int, n: nat)
    requires
        0 <= pos,
        decode_cookie_run(s1, pos, n) matches Ok((cs, end)) && agree(s1, s2, end),
    ensures
        decode_cookie_run(s2, pos, n) == decode_cookie_run(s1, pos, n),
    decreases n,
{
    if n > 0 {
        let end = decode_cookie_run(s1, pos, n)->Ok_0.1;
        let (c, p) = decode_cookie(s1, pos)->Ok_0;
        lemma_cookie_advances(s1, pos);
        lemma_cookie_run_bounds(s1, p, (n - 1) as nat);
        lemma_agree_weaken(s1, s2, end, p);
        lemma_cookie_local(s1, s2, pos);
        lemma_cookie_run_local(s1, s2, p, (n - 1) as nat);
    }
}

proof fn lemma_cookie_run_bounds(s: Seq<u8>, pos: int, n: nat)
    ensures
        decode_cookie_run(s, pos, n) matches Ok((cs, end)) ==> pos <= end,
    decreases n,
{
    if n > 0 {
        lemma_cookie_advances(s, pos);
        if let Ok((c, p)) = decode_cookie(s, pos) {
            lemma_cookie_run_bounds(s, p, (n - 1) as nat);
        }
    }
}

proof fn lemma_cookie_run_truncated(s: Seq<u8>, pos: int, n: nat, m: int)
    requires
        0 <= pos,
        decode_cookie_run(s, pos, n) matches Ok((cs, end)) && pos <= m < end,
        m <= s.len(),
    ensures
        decode_cookie_run(s.take(m), pos, n) == Err::<(Seq<CookieView>, int), Error>(
            Error::UnexpectedEof,
        ),
    decreases n,
{
    let t = s.take(m);
    let (c, p) = decode_cookie(s, pos)->Ok_0;
    lemma_cookie_advances(s, pos);
    if m < p {
        lemma_cookie_truncated(s, pos, m);
    } else {
        lemma_agree_take(s, m);
        lemma_agree_weaken(s, t, m, p);
        lemma_cookie_local(s, t, pos);
        lemma_cookie_run_truncated(s, p, (n - 1) as nat, m);
        assert(s.take(m) == t);
    }
}

proof fn lemma_page_local(s1: Seq<u8>, s2: Seq<u8>, pos: int)
    requires
        0 <= pos,
        decode_page(s1, pos) matches Ok((page, end)) && agree(s1, s2, end),
    ensures
        decode_page(s2, pos) == decode_page(s1, pos),
{
    reveal(decode_page);
    let end = decode_page(s1, pos)->Ok_0.1;
    let (count, first) = decode_page_header(s1, pos)->Ok_0;
    lemma_cookie_run_bounds(s1, first, count as nat);
    lemma_agree_weaken(s1, s2, end, first);
    lemma_page_header_local(s1, s2, pos);
    lemma_cookie_run_local(s1, s2, first, count as nat);
    assert forall|i: int| 0 <= i < count implies #[trigger] le_u32(s1, pos + 8 + 4 * i) == le_u32(
        s2,
        pos + 8 + 4 * i,
    ) by {
        lemma_agree_words(s1, s2, first, pos + 8 + 4 * i);
    }
    assert(offset_table(s1, pos, count) =~= offset_table(s2, pos, count));
}

proof fn lemma_page_bounds(s: Seq<u8>, pos: int)
    ensures
        decode_page(s, pos) matches Ok((page, end)) ==> pos < end,
{
    reveal(decode_page);
    if let Ok((count, first)) = decode_page_header(s, pos) {
        lemma_cookie_run_bounds(s, first, count as nat);
    }
}

proof fn lemma_page_truncated(s: Seq<u8>, pos: int, n: int)
    requires
        0 <= pos,
        decode_page(s, pos) matches Ok((page, end)) && 0 <= n < end,
        n <= s.len(),
    ensures
        decode_page(s.take(n), pos) == Err::<(PageView, int), Error>(Error::UnexpectedEof),
{
    reveal(decode_page);
    let t = s.take(n);
    let (count, first) = decode_page_header(s, pos)->Ok_0;
    if n < first {
        lemma_page_header_truncated(s, pos, n);
    } else {
        lemma_agree_take(s, n);
        lemma_agree_weaken(s, t, n, first);
        lemma_page_header_local(s, t, pos);
        lemma_cookie_run_truncated(s, first, count as nat, n);
    }
}

proof fn lemma_pages_bounds(s: Seq<u8>, pos: int, n: nat)
    ensures
        decode_pages(s, pos, n) matches Ok((pages, end)) ==> pos <= end,
    decreases n,
{
    if n > 0 {
        lemma_page_bounds(s, pos);
        if let Ok((page, p)) = decode_page(s, pos) {
            lemma_pages_bounds(s, p, (n - 1) as nat);
        }
    }
}

proof fn lemma_pages_local(s1: Seq<u8>, s2: Seq<u8>, pos: int, n: nat)
    requires
        0 <= pos,
        decode_pages(s1, pos, n) matches Ok((pages, end)) && agree(s1, s2, end),
    ensures
        decode_pages(s2, pos, n) == decode_pages(s1, pos, n),
    decreases n,
{
    if n > 0 {
        let end = decode_pages(s1, pos, n)->Ok_0.1;
        let (page, p) = decode_page(s1, pos)->Ok_0;
        lemma_page_bounds(s1, pos);
        lemma_pages_bounds(s1, p, (n - 1) as nat);
        lemma_agree_weaken(s1, s2, end, p);
        lemma_page_local(s1, s2, pos);
        lemma_pages_local(s1, s2, p, (n - 1) as nat);
    }
}

proof fn lemma_pages_truncated(s: Seq<u8>, pos: int, n: nat, m: int)
    requires
        0 <= pos,
        decode_pages(s, pos, n) matches Ok((pages, end)) && pos <= m < end,
        m <= s.len(),
    ensures
        decode_pages(s.take(m), pos, n) == Err::<(Seq<PageView>, int), Error>(
            Error::UnexpectedEof,
        ),
    decreases n,
{
    let t = s.take(m);
    let (page, p) = decode_page(s, pos)->Ok_0;
    lemma_page_bounds(s, pos);
    if m < p {
        lemma_page_truncated(s, pos, m);
    } else {
        lemma_agree_take(s, m);
        lemma_agree_weaken(s, t, m, p);
        lemma_page_local(s, t, pos);
        lemma_pages_truncated(s, p, (n - 1) as nat, m);
    }
}

proof fn lemma_file_local(s1: Seq<u8>, s2: Seq<u8>)
    requires
        decode_file(s1) is Ok,
        agree(s1, s2, decoded_len(s1)),
    ensures
        decode_file(s2) == decode_file(s1),
{
    let (count, first) = decode_file_header(s1)->Ok_0;
    let end = decode_pages(s1, first, count as nat)->Ok_0.1;
    lemma_pages_bounds(s1, first, count as nat);
    lemma_agree_weaken(s1, s2, end + 8, first);
    lemma_file_header_local(s1, s2);
    lemma_agree_weaken(s1, s2, end + 8, end);
    lemma_pages_local(s1, s2, first, count as nat);
    lemma_agree_subrange(s1, s2, end + 8, end, end + 8);
}

/// Bytes after the checksum are ignored: appending anything to a file that
/// decodes gives the same result.
pub proof fn lemma_trailing_bytes_ignored(s: Seq<u8>, extra: Seq<u8>)
    requires
        decode_file(s) is Ok,
    ensures
        decode_file(s + extra) == decode_file(s),
{
    let (count, first) = decode_file_header(s)->Ok_0;
    lemma_pages_bounds(s, first, count as nat);
    assert(agree(s, s + extra, decoded_len(s))) by {
        assert forall|j: int| 0 <= j < decoded_len(s) implies #[trigger] s[j] == (s + extra)[j] by {}
    }
    lemma_file_local(s, s + extra);
}

/// A file decodes from exactly its first [`decoded_len`] bytes on: every
/// longer prefix gives the same result, every shorter one `UnexpectedEof`, so
/// a truncated file is always rejected.
pub proof fn lemma_prefixes(s: Seq<u8>, n: int)
    requires
        decode_file(s) is Ok,
        0 <= n <= s.len(),
    ensures
        n >= decoded_len(s) ==> decode_file(s.take(n)) == decode_file(s),
        n < decoded_len(s) ==> decode_file(s.take(n)) == Err::<JarView, Error>(Error::UnexpectedEof),
{
    let (count, first) = decode_file_header(s)->Ok_0;
    let end = decode_pages(s, first, count as nat)->Ok_0.1;
    let t = s.take(n);
    lemma_pages_bounds(s, first, count as nat);
    lemma_agree_take(s, n);
    if n >= decoded_len(s) {
        lemma_agree_weaken(s, t, n, decoded_len(s));
        lemma_file_local(s, t);
    } else if n < first {
        lemma_file_header_truncated(s, n);
    } else {
        lemma_agree_weaken(s, t, n, first);
        lemma_file_header_local(s, t);
        if n < end {
            lemma_pages_truncated(s, first, count as nat, n);
        } else {
            lemma_agree_weaken(s, t, n, end);
            lemma_pages_local(s, t, first, count as nat);
        }
    }
}

/// The checksum is stored, never verified: any eight bytes in its place are
/// accepted and kept, with the same pages.
pub proof fn lemma_checksum_not_verified(s: Seq<u8>, checksum: Seq<u8>)
    requires
        decode_file(s) is Ok,
        checksum.len() == 8,
    ensures
        decode_file(s.take(decoded_len(s) - 8) + checksum) == Ok::<JarView, Error>(
            JarView { pages: decode_file(s)->Ok_0.pages, checksum },
        ),
{
    let (count, first) = decode_file_header(s)->Ok_0;
    let end = decode_pages(s, first, count as nat)->Ok_0.1;
    let s2 = s.take(end) + checksum;
    lemma_pages_bounds(s, first, count as nat);
    assert(agree(s, s2, end)) by {
        assert forall|j: int| 0 <= j < end implies #[trigger] s[j] == s2[j] by {}
    }
    lemma_agree_weaken(s, s2, end, first);
    lemma_file_header_local(s, s2);
    lemma_pages_local(s, s2, first, count as nat);
    assert(s2.subrange(end, end + 8) =~= checksum);
}

/// The first [`decoded_len`] bytes of a file that decodes, followed by any
/// bytes at all, decode to the same result.
pub proof fn lemma_decoded_bytes_then_anything(s: Seq<u8>, extra: Seq<u8>)
    requires
        decode_file(s) is Ok,
    ensures
        decode_file(s.take(decoded_len(s)) + extra) == decode_file(s),
{
    let (count, first) = decode_file_header(s)->Ok_0;
    lemma_pages_bounds(s, first, count as nat);
    lemma_prefixes(s, decoded_len(s));
    lemma_trailing_bytes_ignored(s.take(decoded_len(s)), extra);
}

/// `s1` and `s2` both hold at least `hi` bytes and agree on `[lo, hi)`.
pub open spec fn agree_on(s1: Seq<u8>, s2: Seq<u8>, lo: int, hi: int) -> bool {
    &&& 0 <= lo <= hi <= s1.len()
    &&& hi <= s2.len()
    &&& forall|j: int| lo <= j < hi ==> #[trigger] s1[j] == s2[j]
}

proof fn lemma_agree_on_subrange(s1: Seq<u8>, s2: Seq<u8>, lo: int, hi: int, a: int, b: int)
    requires
        agree_on(s1, s2, lo, hi),
        lo <= a <= b <= hi,
    ensures
        s1.subrange(a, b) == s2.subrange(a, b),
{
    assert(s1.subrange(a, b) =~= s2.subrange(a, b));
}

proof fn lemma_agree_on_words(s1: Seq<u8>, s2: Seq<u8>, lo: int, hi: int, p: int)
    requires
        agree_on(s1, s2, lo, hi),
        lo <= p,
        p + 4 <= hi,
    ensures
        le_u32(s1, p) == le_u32(s2, p),
{
    assert(s1[p] == s2[p] && s1[p + 1] == s2[p + 1] && s1[p + 2] == s2[p + 2] && s1[p + 3]
        == s2[p + 3]);
}

proof fn lemma_cookie_local_on(s1: Seq<u8>, s2: Seq<u8>, pos: int)
    requires
        0 <= pos,
        decode_cookie(s1, pos) matches Ok((c, end)) && agree_on(s1, s2, pos, end),
    ensures
        decode_cookie(s2, pos) == decode_cookie(s1, pos),
{
    reveal(decode_cookie);
    let end = decode_cookie(s1, pos)->Ok_0.1;
    lemma_agree_on_subrange(s1, s2, pos, end, pos + 36, pos + 40);
    lemma_agree_on_words(s1, s2, pos, end, pos);
    lemma_agree_on_words(s1, s2, pos, end, pos + 8);
    lemma_agree_on_words(s1, s2, pos, end, pos + 16);
    lemma_agree_on_words(s1, s2, pos, end, pos + 20);
    lemma_agree_on_words(s1, s2, pos, end, pos + 24);
    lemma_agree_on_words(s1, s2, pos, end, pos + 28);
    lemma_agree_on_words(s1, s2, pos, end, pos + 32);
    lemma_agree_on_words(s1, s2, pos, end, pos + 40);
    lemma_agree_on_words(s1, s2, pos, end, pos + 44);
    lemma_agree_on_words(s1, s2, pos, end, pos + 48);
    lemma_agree_on_words(s1, s2, pos, end, pos + 52);
    assert forall|a: int, b: int| pos + 56 <= a <= b <= end implies s1.subrange(a, b)
        == s2.subrange(a, b) by {
        lemma_agree_on_subrange(s1, s2, pos, end, a, b);
    }
}

proof fn lemma_cookie_run_local_on(s1: Seq<u8>, s2: Seq<u8>, pos: int, n: nat)
    requires
        0 <= pos,
        decode_cookie_run(s1, pos, n) matches Ok((cs, end)) && agree_on(s1, s2, pos, end),
    ensures
        decode_cookie_run(s2, pos, n) == decode_cookie_run(s1, pos, n),
    decreases n,
{
    if n > 0 {
        let end = decode_cookie_run(s1, pos, n)->Ok_0.1;
        let (c, p) = decode_cookie(s1, pos)->Ok_0;
        lemma_cookie_advances(s1, pos);
        lemma_cookie_run_bounds(s1, p, (n - 1) as nat);
        lemma_cookie_local_on(s1, s2, pos);
        lemma_cookie_run_local_on(s1, s2, p, (n - 1) as nat);
    }
}

/// A page's cookie-offset table is kept, never used: bytes of the table may
/// change freely, and the page decodes to the same cookies, ending at the same
/// place, with the changed table as its offsets.
pub proof fn lemma_offset_table_not_used(s1: Seq<u8>, s2: Seq<u8>, pos: int)
    requires
        0 <= pos,
        decode_page(s1, pos) matches Ok((page, end)) && {
            &&& agree_on(s1, s2, pos, pos + 8)
            &&& agree_on(s1, s2, pos + 8 + 4 * page.offsets.len(), end)
        },
    ensures
        decode_page(s2, pos) == Ok::<(PageView, int), Error>(
            (
                PageView {
                    cookies: decode_page(s1, pos)->Ok_0.0.cookies,
                    offsets: offset_table(s2, pos, decode_page_header(s1, pos)->Ok_0.0),
                },
                decode_page(s1, pos)->Ok_0.1,
            ),
        ),
{
    reveal(decode_page);
    let end = decode_page(s1, pos)->Ok_0.1;
    let (count, first) = decode_page_header(s1, pos)->Ok_0;
    lemma_cookie_run_bounds(s1, first, count as nat);
    lemma_agree_on_subrange(s1, s2, pos, pos + 8, pos, pos + 4);
    lemma_agree_on_words(s1, s2, pos, pos + 8, pos + 4);
    lemma_agree_on_subrange(s1, s2, first - 4, end, first - 4, first);
    assert(decode_page_header(s2, pos) == decode_page_header(s1, pos));
    assert(agree_on(s1, s2, first, end));
    lemma_cookie_run_local_on(s1, s2, first, count as nat);
}

/// The positions of the cookie-offset tables of the `n` pages that decoding
/// `s` from `pos` reads.
pub open spec fn offset_table_bytes(s: Seq<u8>, pos: int, n: nat) -> Set<int>
    decreases n,
{
    if n == 0 {
        Set::empty()
    } else {
        match decode_page(s, pos) {
            Err(_) => Set::empty(),
            Ok((page, p)) => Set::new(
                |j: int| pos + 8 <= j < pos + 8 + 4 * page.offsets.len(),
            ) + offset_table_bytes(s, p, (n - 1) as nat),
        }
    }
}

/// The positions of the bytes that a decode of `s` stores without using:
/// the page-size table, every page's cookie-offset table, and the checksum.
pub open spec fn table_bytes(s: Seq<u8>) -> Set<int> {
    match decode_file_header(s) {
        Err(_) => Set::empty(),
        Ok((count, first)) => Set::new(|j: int| 8 <= j < first) + offset_table_bytes(
            s,
            first,
            count as nat,
        ) + Set::new(|j: int| decoded_len(s) - 8 <= j < decoded_len(s)),
    }
}

proof fn lemma_page_table_extent(s: Seq<u8>, pos: int)
    ensures
        decode_page(s, pos) matches Ok((page, end)) ==> {
            &&& decode_page_header(s, pos) matches Ok((count, first))
            &&& page.offsets.len() == count
            &&& first == pos + 8 + 4 * count + 4
            &&& first <= end
        },
{
    reveal(decode_page);
    if let Ok((count, first)) = decode_page_header(s, pos) {
        lemma_cookie_run_bounds(s, first, count as nat);
    }
}

proof fn lemma_offset_table_bytes_within(s: Seq<u8>, pos: int, n: nat)
    ensures
        decode_pages(s, pos, n) matches Ok((pages, end)) ==> forall|j: int|
            #[trigger] offset_table_bytes(s, pos, n).contains(j) ==> pos + 8 <= j < end,
    decreases n,
{
    if n > 0 {
        lemma_page_table_extent(s, pos);
        if let Ok((page, p)) = decode_page(s, pos) {
            lemma_offset_table_bytes_within(s, p, (n - 1) as nat);
            lemma_pages_bounds(s, p, (n - 1) as nat);
            if let Ok((pages, end)) = decode_pages(s, pos, n) {
                let page_set = Set::new(
                    |j: int| pos + 8 <= j < pos + 8 + 4 * page.offsets.len(),
                );
                let rest_set = offset_table_bytes(s, p, (n - 1) as nat);
                assert(offset_table_bytes(s, pos, n) == page_set + rest_set);
                assert forall|j: int| #[trigger]
                    offset_table_bytes(s, pos, n).contains(j) implies pos + 8 <= j < end by {
                    if !page_set.contains(j) {
                        assert(rest_set.contains(j));
                    }
                }
            }
        }
    }
}

/// Where each of the `n` pages that decoding `s` from `pos` reads begins.
pub open spec fn page_starts(s: Seq<u8>, pos: int, n: nat) -> Seq<int>
    decreases n,
{
    if n == 0 {
        Seq::empty()
    } else {
        match decode_page(s, pos) {
            Err(_) => Seq::empty(),
            Ok((page, p)) => seq![pos] + page_starts(s, p, (n - 1) as nat),
        }
    }
}

/// Where each page of the file `s` begins.
pub open spec fn page_positions(s: Seq<u8>) -> Seq<int> {
    match decode_file_header(s) {
        Err(_) => Seq::empty(),
        Ok((count, first)) => page_starts(s, first, count as nat),
    }
}

proof fn lemma_pages_tables_not_used(s1: Seq<u8>, s2: Seq<u8>, pos: int, n: nat)
    requires
        0 <= pos,
        decode_pages(s1, pos, n) matches Ok((pages, end)) && {
            &&& end <= s1.len()
            &&& end <= s2.len()
            &&& forall|j: int|
                pos <= j < end && !offset_table_bytes(s1, pos, n).contains(j) ==> #[trigger] s1[j]
                    == s2[j]
        },
    ensures
        decode_pages(s2, pos, n) matches Ok((pages2, end2)) && {
            let (pages1, end1) = decode_pages(s1, pos, n)->Ok_0;
            &&& end2 == end1
            &&& pages2.len() == pages1.len()
            &&& page_starts(s1, pos, n).len() == pages1.len()
            &&& forall|i: int|
                0 <= i < pages1.len() ==> {
                    &&& (#[trigger] pages2[i]).cookies == pages1[i].cookies
                    &&& pages2[i].offsets.len() == pages1[i].offsets.len()
                    &&& pages2[i].offsets == offset_table(
                        s2,
                        page_starts(s1, pos, n)[i],
                        pages1[i].offsets.len() as u32,
                    )
                }
        },
    decreases n,
{
    if n > 0 {
        let end = decode_pages(s1, pos, n)->Ok_0.1;
        let (page, p) = decode_page(s1, pos)->Ok_0;
        let rest_set = offset_table_bytes(s1, p, (n - 1) as nat);
        lemma_page_table_extent(s1, pos);
        lemma_pages_bounds(s1, p, (n - 1) as nat);
        lemma_offset_table_bytes_within(s1, p, (n - 1) as nat);
        let page_set = Set::new(|j: int| pos + 8 <= j < pos + 8 + 4 * page.offsets.len());
        assert(offset_table_bytes(s1, pos, n) == page_set + rest_set);
        assert forall|j: int| pos <= j < p && !page_set.contains(j) implies #[trigger] s1[j]
            == s2[j] by {
            assert(!rest_set.contains(j));
            assert(!offset_table_bytes(s1, pos, n).contains(j));
        }
        assert(agree_on(s1, s2, pos, pos + 8));
        assert(agree_on(s1, s2, pos + 8 + 4 * page.offsets.len(), p));
        lemma_offset_table_not_used(s1, s2, pos);
        assert forall|j: int| p <= j < end && !rest_set.contains(j) implies #[trigger] s1[j]
            == s2[j] by {
            assert(!page_set.contains(j));
            assert(!offset_table_bytes(s1, pos, n).contains(j));
        }
        lemma_pages_tables_not_used(s1, s2, p, (n - 1) as nat);
        let (rest1, e1) = decode_pages(s1, p, (n - 1) as nat)->Ok_0;
        let (rest2, e2) = decode_pages(s2, p, (n - 1) as nat)->Ok_0;
        let page2 = decode_page(s2, pos)->Ok_0.0;
        let pages1 = seq![page] + rest1;
        let pages2 = seq![page2] + rest2;
        let starts = page_starts(s1, pos, n);
        let rest_starts = page_starts(s1, p, (n - 1) as nat);
        assert(starts == seq![pos] + rest_starts);
        assert forall|i: int| 0 <= i < pages1.len() implies {
            &&& (#[trigger] pages2[i]).cookies == pages1[i].cookies
            &&& pages2[i].offsets.len() == pages1[i].offsets.len()
            &&& pages2[i].offsets == offset_table(s2, starts[i], pages1[i].offsets.len() as u32)
        } by {
            if i > 0 {
                assert(pages2[i] == rest2[i - 1]);
                assert(pages1[i] == rest1[i - 1]);
                assert(starts[i] == rest_starts[i - 1]);
            } else {
                assert(starts[0] == pos);
            }
        }
    }
}

/// The page-size table, the cookie-offset tables and the checksum are stored
/// verbatim, never validated or used: a file that differs from a decodable
/// one only at those bytes decodes to the same pages of the same cookies,
/// each page's offsets being the words of the new file's table at that page,
/// and the checksum its own.
pub proof fn lemma_tables_not_used(s1: Seq<u8>, s2: Seq<u8>)
    requires
        decode_file(s1) is Ok,
        s2.len() == s1.len(),
        forall|j: int|
            0 <= j < s1.len() && !table_bytes(s1).contains(j) ==> #[trigger] s1[j] == s2[j],
    ensures
        decode_file(s2) matches Ok(jar2) && {
            let jar1 = decode_file(s1)->Ok_0;
            &&& jar2.pages.len() == jar1.pages.len()
            &&& page_positions(s1).len() == jar1.pages.len()
            &&& forall|i: int|
                0 <= i < jar1.pages.len() ==> {
                    &&& (#[trigger] jar2.pages[i]).cookies == jar1.pages[i].cookies
                    &&& jar2.pages[i].offsets.len() == jar1.pages[i].offsets.len()
                    &&& jar2.pages[i].offsets == offset_table(
                        s2,
                        page_positions(s1)[i],
                        jar1.pages[i].offsets.len() as u32,
                    )
                }
            &&& jar2.checksum == s2.subrange(decoded_len(s1) - 8, decoded_len(s1))
        },
{
    let (count, first) = decode_file_header(s1)->Ok_0;
    let end = decode_pages(s1, first, count as nat)->Ok_0.1;
    let head = Set::new(|j: int| 8 <= j < first);
    let pages_set = offset_table_bytes(s1, first, count as nat);
    let tail = Set::new(|j: int| end <= j < end + 8);
    lemma_pages_bounds(s1, first, count as nat);
    lemma_offset_table_bytes_within(s1, first, count as nat);
    assert(table_bytes(s1) == head + pages_set + tail);
    assert forall|j: int| 0 <= j < 8 implies #[trigger] s1[j] == s2[j] by {
        assert(!table_bytes(s1).contains(j));
    }
    assert(agree_on(s1, s2, 0, 8));
    lemma_agree_on_subrange(s1, s2, 0, 8, 0, 4);
    assert(s1[4] == s2[4] && s1[5] == s2[5] && s1[6] == s2[6] && s1[7] == s2[7]);
    assert(decode_file_header(s2) == decode_file_header(s1));
    assert forall|j: int| first <= j < end && !pages_set.contains(j) implies #[trigger] s1[j]
        == s2[j] by {
        assert(!head.contains(j));
        assert(!tail.contains(j));
        assert(!table_bytes(s1).contains(j));
    }
    lemma_pages_tables_not_used(s1, s2, first, count as nat);
}

} // verus!
