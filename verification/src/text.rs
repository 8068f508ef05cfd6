//! Byte-to-string policies for the cookie string fields.

use vstd::prelude::*;

verus! {

/// The characters that `String::from_utf8_lossy` produces for `bytes`: valid
/// UTF-8 decoded as is, each invalid sequence replaced by U+FFFD.
pub uninterp spec fn utf8_lossy(bytes: Seq<u8>) -> Seq<char>;

/// Calls `String::from_utf8_lossy` and takes ownership of the result.
///
/// Trusted: the characters are those that `from_utf8_lossy` yields for the
/// bytes (named by `utf8_lossy`), and valid UTF-8 is decoded unchanged, as the
/// std documentation states.
#[verifier::external_body]
fn string_from_utf8_lossy(bytes: &[u8]) -> (s: String)
    ensures
        s@ == utf8_lossy(bytes@),
        vstd::utf8::valid_utf8(bytes@) ==> s@ == vstd::utf8::decode_utf8(bytes@),
{
    String::from_utf8_lossy(bytes).into_owned()
}

/// Decodes `bytes` as UTF-8, replacing invalid sequences with U+FFFD.
pub fn lossy(bytes: &[u8]) -> (s: String)
    ensures
        s@ == utf8_lossy(bytes@),
        vstd::utf8::valid_utf8(bytes@) ==> s@ == vstd::utf8::decode_utf8(bytes@),
{
    string_from_utf8_lossy(bytes)
}

/// `bytes` without its last byte when that byte is NUL; otherwise `bytes`.
pub open spec fn without_trailing_nul(bytes: Seq<u8>) -> Seq<u8> {
    if bytes.len() > 0 && bytes.last() == 0 {
        bytes.drop_last()
    } else {
        bytes
    }
}

/// The bytes before the first NUL, or all of `bytes` when there is none.
pub open spec fn before_first_nul(bytes: Seq<u8>) -> Seq<u8>
    decreases bytes.len(),
{
    if bytes.len() == 0 {
        bytes
    } else if bytes[0] == 0 {
        Seq::empty()
    } else {
        seq![bytes[0]] + before_first_nul(bytes.drop_first())
    }
}

/// Drops a single trailing NUL if present (an empty field has none), then
/// decodes lossily: the policy for the domain, name and path fields.
pub fn trim_terminator(bytes: &[u8]) -> (s: String)
    ensures
        s@ == utf8_lossy(without_trailing_nul(bytes@)),
        bytes@.len() > 0 && bytes@.last() == 0 ==> s@ == utf8_lossy(bytes@.drop_last()),
        !(bytes@.len() > 0 && bytes@.last() == 0) ==> s@ == utf8_lossy(bytes@),
{
    let len = bytes.len();
    proof {
        lemma_without_trailing_nul(bytes@);
    }
    if len > 0 && bytes[len - 1] == 0 {
        let body = &bytes[0..len - 1];
        assert(body@ =~= bytes@.drop_last());
        lossy(body)
    } else {
        lossy(bytes)
    }
}

/// Keeps everything before the first NUL (all bytes when there is none), then
/// decodes lossily: the policy for the value field.
pub fn truncate_at_nul(bytes: &[u8]) -> (s: String)
    ensures
        s@ == utf8_lossy(before_first_nul(bytes@)),
        (forall|j: int| 0 <= j < bytes@.len() ==> bytes@[j] != 0) ==> s@ == utf8_lossy(bytes@),
        forall|k: int|
            0 <= k < bytes@.len() && bytes@[k] == 0 && (forall|j: int|
                0 <= j < k ==> bytes@[j] != 0) ==> s@ == utf8_lossy(#[trigger] bytes@.take(k)),
{
    proof {
        lemma_before_first_nul(bytes@);
    }
    let len = bytes.len();
    let mut i: usize = 0;
    assert(bytes@.skip(0) =~= bytes@);
    assert(bytes@.take(0) =~= Seq::<u8>::empty());
    while i < len && bytes[i] != 0
        invariant
            len == bytes@.len(),
            i <= len,
            before_first_nul(bytes@) == bytes@.take(i as int) + before_first_nul(
                bytes@.skip(i as int),
            ),
        decreases len - i,
    {
        let ghost rest = bytes@.skip(i as int);
        assert(rest[0] == bytes@[i as int]);
        assert(rest.drop_first() =~= bytes@.skip(i + 1));
        assert(bytes@.take(i + 1) =~= bytes@.take(i as int) + seq![bytes@[i as int]]);
        i = i + 1;
    }
    assert(bytes@.skip(i as int).len() == 0 || bytes@.skip(i as int)[0] == 0);
    assert(before_first_nul(bytes@.skip(i as int)) =~= Seq::<u8>::empty());
    let head = &bytes[0..i];
    assert(head@ =~= bytes@.take(i as int));
    assert(before_first_nul(bytes@) =~= bytes@.take(i as int));
    lossy(head)
}

/// Dropping the terminator removes at most the last byte, and only a NUL:
/// the result is a prefix of `bytes` that is all of it, or all but its last
/// byte when that byte is NUL.
pub proof fn lemma_without_trailing_nul(bytes: Seq<u8>)
    ensures
        without_trailing_nul(bytes).len() <= bytes.len(),
        without_trailing_nul(bytes) == bytes.take(without_trailing_nul(bytes).len() as int),
        bytes.len() > 0 && bytes.last() == 0 ==> without_trailing_nul(bytes).len() == bytes.len()
            - 1,
        !(bytes.len() > 0 && bytes.last() == 0) ==> without_trailing_nul(bytes) == bytes,
{
    assert(bytes.take(bytes.len() as int) =~= bytes);
    if bytes.len() > 0 {
        assert(bytes.drop_last() =~= bytes.take(bytes.len() - 1));
    }
}

/// Cutting at the first NUL keeps every byte before it: all of `bytes` when
/// it holds no NUL, otherwise exactly the bytes before the first NUL.
pub proof fn lemma_before_first_nul(bytes: Seq<u8>)
    ensures
        (forall|j: int| 0 <= j < bytes.len() ==> bytes[j] != 0) ==> before_first_nul(bytes)
            == bytes,
        forall|k: int|
            0 <= k < bytes.len() && bytes[k] == 0 && (forall|j: int| 0 <= j < k ==> bytes[j] != 0)
                ==> before_first_nul(bytes) == #[trigger] bytes.take(k),
    decreases bytes.len(),
{
    if bytes.len() > 0 {
        let rest = bytes.drop_first();
        lemma_before_first_nul(rest);
        if bytes[0] != 0 {
            if forall|j: int| 0 <= j < bytes.len() ==> bytes[j] != 0 {
                assert forall|j: int| 0 <= j < rest.len() implies rest[j] != 0 by {
                    assert(rest[j] == bytes[j + 1]);
                }
                assert(seq![bytes[0]] + rest =~= bytes);
            }
            assert forall|k: int|
                0 <= k < bytes.len() && bytes[k] == 0 && (forall|j: int|
                    0 <= j < k ==> bytes[j] != 0) implies before_first_nul(bytes)
                == #[trigger] bytes.take(k) by {
                assert(k > 0);
                assert(rest[k - 1] == 0);
                assert forall|j: int| 0 <= j < k - 1 implies rest[j] != 0 by {
                    assert(rest[j] == bytes[j + 1]);
                }
                assert(before_first_nul(rest) == rest.take(k - 1));
                assert(seq![bytes[0]] + rest.take(k - 1) =~= bytes.take(k));
            }
        } else {
            assert forall|k: int|
                0 <= k < bytes.len() && bytes[k] == 0 && (forall|j: int|
                    0 <= j < k ==> bytes[j] != 0) implies before_first_nul(bytes)
                == #[trigger] bytes.take(k) by {
                if k > 0 {
                    assert(bytes[0] != 0);
                }
                assert(bytes.take(0) =~= Seq::<u8>::empty());
            }
        }
    } else {
        assert(bytes =~= Seq::<u8>::empty());
    }
}

} // verus!
