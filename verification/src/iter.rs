//! Lazy cookie stream over a `.binarycookies` buffer.

use vstd::prelude::*;

use crate::decode::Decoder;
use crate::error::Error;
use crate::format::{decode_cookie, decode_file_header, decode_page_header};
use crate::model::{Cookie, CookieView};

verus! {

/// What the stream yields for one cookie: the cookie, or the error that ends
/// the stream.
pub open spec fn item_view(item: Result<Cookie, Error>) -> Result<CookieView, Error> {
    match item {
        Ok(c) => Ok(c@),
        Err(e) => Err(e),
    }
}

/// Everything the lazy stream still yields from position `pos`, with
/// `left_in_page` cookies left in the current page and `pages_left` pages
/// after it: each cookie in turn; a page header when the page is done; and,
/// after the last page, nothing when the 8-byte checksum is present. The first
/// error met is the last item.
pub open spec fn stream_items(s: Seq<u8>, pos: int, pages_left: nat, left_in_page: nat) -> Seq<
    Result<CookieView, Error>,
>
    decreases pages_left, left_in_page,
{
    if left_in_page > 0 {
        match decode_cookie(s, pos) {
            Ok((c, p)) => seq![Ok(c)] + stream_items(s, p, pages_left, (left_in_page - 1) as nat),
            Err(e) => seq![Err(e)],
        }
    } else if pages_left > 0 {
        match decode_page_header(s, pos) {
            Ok((count, p)) => stream_items(s, p, (pages_left - 1) as nat, count as nat),
            Err(e) => seq![Err(e)],
        }
    } else if pos + 8 <= s.len() {
        Seq::empty()
    } else {
        seq![Err(Error::UnexpectedEof)]
    }
}

/// Lazy stream returned by [`cookies`].
///
/// Yields `Result<Cookie, Error>` through [`Cookies::next`] and stops for good
/// after the first error or the end of the last page. A clone resumes from the
/// current position.
#[derive(Debug)]
pub struct Cookies<'a> {
    decoder: Decoder<'a>,
    pages_left: u32,
    left_in_page: u32,
    finished: bool,
}

impl<'a> Clone for Cookies<'a> {
    fn clone(&self) -> (copy: Self)
        ensures
            copy == *self,
    {
        Cookies {
            decoder: self.decoder.clone(),
            pages_left: self.pages_left,
            left_in_page: self.left_in_page,
            finished: self.finished,
        }
    }
}

/// Returns a lazy stream over every cookie in `input`, flattening the page
/// layer.
///
/// The file header (magic, page count, page-size table) is checked eagerly;
/// pages and cookies are then parsed on demand.
pub fn cookies(input: &[u8]) -> (r: Result<Cookies<'_>, Error>)
    ensures
        match r {
            Ok(it) => {
                &&& it.wf()
                &&& !it.is_finished()
                &&& it.data() == input@
                &&& decode_file_header(input@) matches Ok((count, first))
                &&& it.rest() == stream_items(input@, first, count as nat, 0)
            },
            Err(e) => decode_file_header(input@) == Err::<(u32, int), Error>(e),
        },
{
    let ghost s = input@;
    let mut decoder = Decoder::new(input);
    match decoder.signature() {
        Ok(()) => {},
        Err(e) => {
            proof {
                if let Error::InvalidSignature(found) = e {
                    crate::format::lemma_signature_of(s, found);
                }
            }
            return Err(e);
        },
    }
    let pages_left = decoder.page_count()?;
    decoder.skip_page_size_table(pages_left)?;
    Ok(Cookies { decoder, pages_left, left_in_page: 0, finished: false })
}

impl<'a> Cookies<'a> {
    /// The input being streamed.
    pub closed spec fn data(&self) -> Seq<u8> {
        self.decoder.data()
    }

    /// Whether the stream has stopped for good.
    pub closed spec fn is_finished(&self) -> bool {
        self.finished
    }

    /// The internal decoder is well formed.
    pub closed spec fn wf(&self) -> bool {
        self.decoder.wf()
    }

    /// Everything the stream still yields, in order.
    pub closed spec fn rest(&self) -> Seq<Result<CookieView, Error>> {
        if self.finished {
            Seq::empty()
        } else {
            stream_items(
                self.decoder.data(),
                self.decoder.pos(),
                self.pages_left as nat,
                self.left_in_page as nat,
            )
        }
    }

    fn read_page_header(&mut self) -> (r: Result<u32, Error>)
        requires
            old(self).wf(),
        ensures
            final(self).wf(),
            final(self).decoder.data() == old(self).decoder.data(),
            final(self).pages_left == old(self).pages_left,
            final(self).left_in_page == old(self).left_in_page,
            final(self).finished == old(self).finished,
            match r {
                Ok(count) => decode_page_header(old(self).data(), old(self).decoder.pos()) == Ok::<
                    (u32, int),
                    Error,
                >((count, final(self).decoder.pos())),
                Err(e) => decode_page_header(old(self).data(), old(self).decoder.pos()) == Err::<
                    (u32, int),
                    Error,
                >(e),
            },
    {
        self.decoder.page_tag()?;
        let count = self.decoder.cookie_count()?;
        self.decoder.skip_cookie_offset_table(count)?;
        self.decoder.page_end()?;
        Ok(count)
    }

    /// The next cookie, or the error that stops the stream, or `None` once
    /// the stream is done.
    pub fn next(&mut self) -> (r: Option<Result<Cookie, Error>>)
        requires
            old(self).wf(),
        ensures
            final(self).wf(),
            final(self).data() == old(self).data(),
            final(self).is_finished() <==> (r is None || r matches Some(Err(_))),
            match r {
                None => old(self).rest().len() == 0 && final(self).rest().len() == 0,
                Some(item) => {
                    &&& old(self).rest().len() > 0
                    &&& item_view(item) == old(self).rest()[0]
                    &&& final(self).rest() == old(self).rest().drop_first()
                },
            },
    {
        if self.finished {
            return None;
        }
        loop
            invariant
                self.wf(),
                !self.finished,
                self.data() == old(self).data(),
                self.rest() == old(self).rest(),
            decreases self.pages_left, self.left_in_page,
        {
            if self.left_in_page > 0 {
                self.left_in_page = self.left_in_page - 1;
                let result = self.decoder.cookie();
                if result.is_err() {
                    self.finished = true;
                }
                return Some(result);
            }
            if self.pages_left > 0 {
                self.pages_left = self.pages_left - 1;
                match self.read_page_header() {
                    Ok(count) => self.left_in_page = count,
                    Err(error) => {
                        self.finished = true;
                        return Some(Err(error));
                    },
                }
                continue;
            }
            self.finished = true;
            // Like the eager decoder, read the checksum after the last page, so
            // both paths fail alike on a truncated trailer.
            return match self.decoder.checksum() {
                Ok(_) => None,
                Err(error) => Some(Err(error)),
            };
        }
    }

    /// Bounds on the number of items left: exact only once the stream is
    /// done, since a parse error both adds an item and ends the stream.
    pub fn size_hint(&self) -> (r: (usize, Option<usize>))
        ensures
            r.0 == 0,
            r.1 == Some(0usize) <==> self.is_finished(),
            r.1 is Some ==> r.1 == Some(0usize),
            self.is_finished() ==> self.rest().len() == 0,
    {
        if self.finished {
            (0, Some(0))
        } else {
            (0, None)
        }
    }
}

/// The stream stops at its first error: of what a stream still yields, an
/// error can only be the last item. So once [`Cookies::next`] has returned an
/// error, it returns `None` for good.
pub proof fn lemma_error_is_last_item(it: Cookies<'_>)
    ensures
        forall|i: int|
            0 <= i < it.rest().len() && #[trigger] it.rest()[i] is Err ==> i == it.rest().len()
                - 1,
{
    if !it.finished {
        crate::laws::lemma_stream_error_is_last(
            it.decoder.data(),
            it.decoder.pos(),
            it.pages_left as nat,
            it.left_in_page as nat,
        );
    }
}

} // verus!
