//! Properties of the format that span the decoder's entry points.

use vstd::prelude::*;

use crate::error::Error;
use crate::format::{
    decode_cookie, decode_cookie_run, decode_file, decode_file_header, decode_page,
    decode_page_header, decode_pages, COOKIE_HEADER_LEN, MAX_COOKIES_PER_PAGE, MAX_COOKIE_SIZE,
    MAX_PAGES,
};
use crate::iter::stream_items;
use crate::model::{all_cookies, CookieView, PageView};

verus! {

/// Each cookie as a successful stream item.
pub open spec fn ok_items(cookies: Seq<CookieView>) -> Seq<Result<CookieView, Error>> {
    cookies.map_values(|c: CookieView| Ok::<CookieView, Error>(c))
}

/// `items` is some successful items followed by the error `e`, which is last.
pub open spec fn ends_with_error(items: Seq<Result<CookieView, Error>>, e: Error) -> bool {
    &&& items.len() > 0
    &&& items.last() == Err::<CookieView, Error>(e)
    &&& forall|i: int| 0 <= i < items.len() - 1 ==> #[trigger] items[i] is Ok
}

proof fn lemma_ok_items_concat(a: Seq<CookieView>, b: Seq<CookieView>)
    ensures
        ok_items(a + b) == ok_items(a) + ok_items(b),
{
    assert(ok_items(a + b) =~= ok_items(a) + ok_items(b));
}

proof fn lemma_ends_with_error_prepend(
    front: Seq<Result<CookieView, Error>>,
    items: Seq<Result<CookieView, Error>>,
    e: Error,
)
    requires
        ends_with_error(items, e),
        forall|i: int| 0 <= i < front.len() ==> #[trigger] front[i] is Ok,
    ensures
        ends_with_error(front + items, e),
{
    let all = front + items;
    assert(all.last() == items.last());
    assert forall|i: int| 0 <= i < all.len() - 1 implies #[trigger] all[i] is Ok by {
        if i < front.len() {
            assert(all[i] == front[i]);
        } else {
            assert(all[i] == items[i - front.len()]);
        }
    }
}

proof fn lemma_all_cookies_prepend(page: PageView, pages: Seq<PageView>)
    ensures
        all_cookies(seq![page] + pages) == page.cookies + all_cookies(pages),
{
    let heads = (seq![page] + pages).map_values(|p: PageView| p.cookies);
    assert(heads.first() == page.cookies);
    assert(heads.drop_first() =~= pages.map_values(|p: PageView| p.cookies));
}

/// Within a page, the stream yields the page's remaining cookies one by one,
/// then goes on after them; or it ends with the error that the run met.
proof fn lemma_stream_over_cookie_run(s: Seq<u8>, pos: int, pages_left: nat, left: nat)
    ensures
        match decode_cookie_run(s, pos, left) {
            Ok((cs, q)) => stream_items(s, pos, pages_left, left) == ok_items(cs) + stream_items(
                s,
                q,
                pages_left,
                0,
            ),
            Err(e) => ends_with_error(stream_items(s, pos, pages_left, left), e),
        },
    decreases left,
{
    if left == 0 {
        assert(ok_items(Seq::empty()) + stream_items(s, pos, pages_left, 0) =~= stream_items(
            s,
            pos,
            pages_left,
            0,
        ));
    } else {
        match decode_cookie(s, pos) {
            Ok((c, p)) => {
                lemma_stream_over_cookie_run(s, p, pages_left, (left - 1) as nat);
                let tail = stream_items(s, p, pages_left, (left - 1) as nat);
                assert(stream_items(s, pos, pages_left, left) == seq![Ok::<CookieView, Error>(c)]
                    + tail);
                match decode_cookie_run(s, p, (left - 1) as nat) {
                    Ok((cs, q)) => {
                        lemma_ok_items_concat(seq![c], cs);
                        assert(ok_items(seq![c]) =~= seq![Ok::<CookieView, Error>(c)]);
                        assert(seq![Ok::<CookieView, Error>(c)] + (ok_items(cs) + stream_items(
                            s,
                            q,
                            pages_left,
                            0,
                        )) =~= (seq![Ok::<CookieView, Error>(c)] + ok_items(cs)) + stream_items(
                            s,
                            q,
                            pages_left,
                            0,
                        ));
                    },
                    Err(e) => {
                        lemma_ends_with_error_prepend(seq![Ok::<CookieView, Error>(c)], tail, e);
                    },
                }
            },
            Err(e) => {
                assert(stream_items(s, pos, pages_left, left) =~= seq![Err::<CookieView, Error>(e)]);
            },
        }
    }
}

/// Over whole pages, the stream yields their cookies in order, then checks
/// the checksum; or it ends with the error that the pages met.
proof fn lemma_stream_over_pages(s: Seq<u8>, pos: int, n: nat)
    ensures
        match decode_pages(s, pos, n) {
            Ok((pages, q)) => stream_items(s, pos, n, 0) == ok_items(all_cookies(pages))
                + stream_items(s, q, 0, 0),
            Err(e) => ends_with_error(stream_items(s, pos, n, 0), e),
        },
    decreases n,
{
    reveal(decode_page);
    if n == 0 {
        assert(all_cookies(Seq::<PageView>::empty()) =~= Seq::<CookieView>::empty()) by {
            assert(Seq::<PageView>::empty().map_values(|p: PageView| p.cookies) =~= Seq::<
                Seq<CookieView>,
            >::empty());
        }
        assert(ok_items(Seq::empty()) + stream_items(s, pos, 0, 0) =~= stream_items(s, pos, 0, 0));
    } else {
        match decode_page_header(s, pos) {
            Err(e) => {
                assert(stream_items(s, pos, n, 0) =~= seq![Err::<CookieView, Error>(e)]);
            },
            Ok((count, first)) => {
                assert(stream_items(s, pos, n, 0) == stream_items(
                    s,
                    first,
                    (n - 1) as nat,
                    count as nat,
                ));
                lemma_stream_over_cookie_run(s, first, (n - 1) as nat, count as nat);
                match decode_cookie_run(s, first, count as nat) {
                    Err(e) => {},
                    Ok((cs, q1)) => {
                        lemma_stream_over_pages(s, q1, (n - 1) as nat);
                        match decode_pages(s, q1, (n - 1) as nat) {
                            Err(e) => {
                                lemma_ends_with_error_prepend(
                                    ok_items(cs),
                                    stream_items(s, q1, (n - 1) as nat, 0),
                                    e,
                                );
                            },
                            Ok((ps, q)) => {
                                let page = decode_page(s, pos)->Ok_0.0;
                                lemma_all_cookies_prepend(page, ps);
                                lemma_ok_items_concat(cs, all_cookies(ps));
                                assert(ok_items(cs) + (ok_items(all_cookies(ps)) + stream_items(
                                    s,
                                    q,
                                    0,
                                    0,
                                )) =~= (ok_items(cs) + ok_items(all_cookies(ps))) + stream_items(
                                    s,
                                    q,
                                    0,
                                    0,
                                ));
                            },
                        }
                    },
                }
            },
        }
    }
}

/// The lazy stream agrees with the eager decoder: on input that decodes
/// fully, [`crate::iter::cookies`] yields exactly the cookies of
/// [`crate::decode::from_bytes`], in file order; on malformed input either the
/// stream cannot start and reports the decoder's error, or it yields the
/// cookies parsed before the first structural violation and then that same
/// error, last.
pub proof fn lemma_stream_matches_decode(s: Seq<u8>)
    ensures
        decode_file(s) matches Ok(jar) ==> {
            &&& decode_file_header(s) matches Ok((count, first))
            &&& stream_items(s, first, count as nat, 0) == ok_items(all_cookies(jar.pages))
        },
        decode_file(s) matches Err(e) ==> {
            ||| decode_file_header(s) == Err::<(u32, int), Error>(e)
            ||| decode_file_header(s) matches Ok((count, first)) && ends_with_error(
                stream_items(s, first, count as nat, 0),
                e,
            )
        },
{
    match decode_file_header(s) {
        Err(e) => {},
        Ok((count, first)) => {
            lemma_stream_over_pages(s, first, count as nat);
            match decode_pages(s, first, count as nat) {
                Err(e) => {},
                Ok((pages, q)) => {
                    let front = ok_items(all_cookies(pages));
                    if q + 8 <= s.len() {
                        assert(front + Seq::empty() =~= front);
                    } else {
                        let items = front + seq![Err::<CookieView, Error>(Error::UnexpectedEof)];
                        assert(items.last() == Err::<CookieView, Error>(Error::UnexpectedEof));
                        assert forall|i: int| 0 <= i < items.len() - 1 implies #[trigger] items[i] is Ok by {
                            assert(items[i] == front[i]);
                        }
                    }
                },
            }
        },
    }
}

/// The stream stops at its first error: an error can only be the last item,
/// so after yielding it [`crate::iter::Cookies::next`] returns `None` for good.
pub proof fn lemma_stream_error_is_last(s: Seq<u8>, pos: int, pages_left: nat, left: nat)
    ensures
        forall|i: int|
            0 <= i < stream_items(s, pos, pages_left, left).len() && #[trigger] stream_items(
                s,
                pos,
                pages_left,
                left,
            )[i] is Err ==> i == stream_items(s, pos, pages_left, left).len() - 1,
    decreases pages_left, left,
{
    let items = stream_items(s, pos, pages_left, left);
    if left > 0 {
        match decode_cookie(s, pos) {
            Ok((c, p)) => {
                lemma_stream_error_is_last(s, p, pages_left, (left - 1) as nat);
                let tail = stream_items(s, p, pages_left, (left - 1) as nat);
                assert(items == seq![Ok::<CookieView, Error>(c)] + tail);
                assert forall|i: int| 0 <= i < items.len() && #[trigger] items[i] is Err implies i
                    == items.len() - 1 by {
                    if i > 0 {
                        assert(items[i] == tail[i - 1]);
                    }
                }
            },
            Err(e) => {},
        }
    } else if pages_left > 0 {
        match decode_page_header(s, pos) {
            Ok((count, p)) => {
                lemma_stream_error_is_last(s, p, (pages_left - 1) as nat, count as nat);
            },
            Err(e) => {},
        }
    }
}

proof fn lemma_cookie_run_len(s: Seq<u8>, pos: int, n: nat)
    ensures
        decode_cookie_run(s, pos, n) matches Ok((cs, q)) ==> cs.len() == n,
    decreases n,
{
    if n > 0 {
        if let Ok((c, p)) = decode_cookie(s, pos) {
            lemma_cookie_run_len(s, p, (n - 1) as nat);
        }
    }
}

proof fn lemma_pages_caps(s: Seq<u8>, pos: int, n: nat)
    ensures
        decode_pages(s, pos, n) matches Ok((pages, q)) ==> {
            &&& pages.len() == n
            &&& forall|i: int|
                0 <= i < pages.len() ==> {
                    &&& (#[trigger] pages[i]).cookies.len() <= MAX_COOKIES_PER_PAGE
                    &&& pages[i].offsets.len() == pages[i].cookies.len()
                }
        },
    decreases n,
{
    reveal(decode_page);
    if n > 0 {
        if let Ok((page, p)) = decode_page(s, pos) {
            if let Ok((count, first)) = decode_page_header(s, pos) {
                lemma_cookie_run_len(s, first, count as nat);
            }
            lemma_pages_caps(s, p, (n - 1) as nat);
            if let Ok((rest, q)) = decode_pages(s, p, (n - 1) as nat) {
                let pages = seq![page] + rest;
                assert forall|i: int| 0 <= i < pages.len() implies {
                    &&& (#[trigger] pages[i]).cookies.len() <= MAX_COOKIES_PER_PAGE
                    &&& pages[i].offsets.len() == pages[i].cookies.len()
                } by {
                    if i > 0 {
                        assert(pages[i] == rest[i - 1]);
                    }
                }
            }
        }
    }
}

/// Counts are capped: a decoded file has at most [`MAX_PAGES`] pages, each
/// with at most [`MAX_COOKIES_PER_PAGE`] cookies and one offset per cookie.
pub proof fn lemma_decoded_counts_are_capped(s: Seq<u8>)
    ensures
        decode_file(s) matches Ok(jar) ==> {
            &&& jar.pages.len() <= MAX_PAGES
            &&& forall|i: int|
                0 <= i < jar.pages.len() ==> {
                    &&& (#[trigger] jar.pages[i]).cookies.len() <= MAX_COOKIES_PER_PAGE
                    &&& jar.pages[i].offsets.len() == jar.pages[i].cookies.len()
                }
        },
{
    if let Ok((count, first)) = decode_file_header(s) {
        lemma_pages_caps(s, first, count as nat);
    }
}

/// A cookie record takes its 56-byte header plus at most [`MAX_COOKIE_SIZE`]
/// bytes of strings: oversized records are rejected.
pub proof fn lemma_cookie_record_is_bounded(s: Seq<u8>, pos: int)
    ensures
        decode_cookie(s, pos) matches Ok((c, end)) ==> pos + COOKIE_HEADER_LEN <= end <= pos
            + COOKIE_HEADER_LEN + MAX_COOKIE_SIZE,
{
    reveal(decode_cookie);
}

proof fn lemma_page_header_extent(s: Seq<u8>, pos: int)
    ensures
        decode_page_header(s, pos) matches Ok((count, p)) ==> p == pos + 12 + 4 * count && p
            <= s.len(),
{
}

proof fn lemma_stream_len(s: Seq<u8>, pos: int, pages_left: nat, left: nat)
    requires
        0 <= pos <= s.len(),
    ensures
        stream_items(s, pos, pages_left, left).len() <= (s.len() - pos + 4 * left) / 60 + 1,
    decreases pages_left, left,
{
    if left > 0 {
        reveal(decode_cookie);
        if let Ok((c, p)) = decode_cookie(s, pos) {
            lemma_stream_len(s, p, pages_left, (left - 1) as nat);
            let x = s.len() - pos + 4 * left;
            let y = s.len() - p + 4 * (left - 1);
            assert(y <= x - 60);
            assert(x >= 60);
            assert(y / 60 + 1 <= x / 60) by (nonlinear_arith)
                requires
                    y <= x - 60,
                    x >= 60,
                    y >= 0,
            ;
        }
    } else if pages_left > 0 {
        lemma_page_header_extent(s, pos);
        if let Ok((count, p)) = decode_page_header(s, pos) {
            lemma_stream_len(s, p, (pages_left - 1) as nat, count as nat);
            let x = s.len() - pos;
            let y = s.len() - p + 4 * count;
            assert(y <= x);
            assert(y / 60 <= x / 60) by (nonlinear_arith)
                requires
                    0 <= y <= x,
            ;
        }
    }
}

/// Each cookie the stream yields takes at least 60 bytes of input (its
/// 56-byte record header and its 4-byte offset entry), and at most one error
/// follows: the stream of a file yields at most `len / 60 + 1` items.
pub proof fn lemma_stream_is_bounded(s: Seq<u8>)
    ensures
        decode_file_header(s) matches Ok((count, first)) ==> stream_items(
            s,
            first,
            count as nat,
            0,
        ).len() <= s.len() / 60 + 1,
{
    if let Ok((count, first)) = decode_file_header(s) {
        lemma_stream_len(s, first, count as nat, 0);
        let x = s.len() - first;
        assert(x / 60 <= s.len() / 60) by (nonlinear_arith)
            requires
                0 <= x <= s.len(),
        ;
    }
}

} // verus!
