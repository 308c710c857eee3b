//! Facts about UTF-8 that let byte-level edits stay inside `String`.

use vstd::prelude::*;
use vstd::utf8::*;

verus! {

/// Replacing one ASCII byte of a UTF-8 sequence by another ASCII byte leaves
/// the sequence valid UTF-8.
pub proof fn lemma_ascii_update_keeps_utf8(bytes: Seq<u8>, i: int, b: u8)
    requires
        valid_utf8(bytes),
        0 <= i < bytes.len(),
        bytes[i] < 0x80,
        b < 0x80,
    ensures
        valid_utf8(bytes.update(i, b)),
    decreases bytes.len(),
{
    let updated = bytes.update(i, b);
    let width = length_of_first_scalar(bytes);
    assert(valid_first_scalar(bytes));
    if i == 0 {
        assert(b & 0x7f == b) by (bit_vector)
            requires
                b < 0x80,
        ;
        assert(valid_first_scalar(updated));
        assert(pop_first_scalar(updated) =~= pop_first_scalar(bytes));
    } else {
        assert(i >= width);
        assert(valid_first_scalar(updated));
        assert(pop_first_scalar(updated) =~= pop_first_scalar(bytes).update(i - width, b));
        lemma_ascii_update_keeps_utf8(pop_first_scalar(bytes), i - width, b);
    }
}

/// Bytes below 128 are valid UTF-8, however many.
pub proof fn lemma_ascii_is_utf8(bytes: Seq<u8>)
    requires
        forall|i: int| 0 <= i < bytes.len() ==> bytes[i] < 0x80,
    ensures
        valid_utf8(bytes),
    decreases bytes.len(),
{
    if bytes.len() > 0 {
        let b = bytes[0];
        assert(b & 0x7f == b) by (bit_vector)
            requires
                b < 0x80,
        ;
        assert(valid_first_scalar(bytes));
        lemma_ascii_is_utf8(pop_first_scalar(bytes));
    }
}

/// A valid UTF-8 sequence that is not empty is the encoding of its first
/// character followed by a valid UTF-8 sequence.
pub proof fn lemma_first_scalar_apart(bytes: Seq<u8>)
    requires
        valid_utf8(bytes),
        bytes.len() > 0,
    ensures
        1 <= length_of_first_scalar(bytes) <= 4,
        length_of_first_scalar(bytes) <= bytes.len(),
        valid_utf8(bytes.take(length_of_first_scalar(bytes))),
        valid_utf8(bytes.skip(length_of_first_scalar(bytes))),
{
    let width = length_of_first_scalar(bytes);
    let first = bytes.take(width);
    assert(valid_first_scalar(bytes));
    assert(valid_first_scalar(first));
    assert(pop_first_scalar(first) =~= Seq::<u8>::empty());
    assert(valid_utf8(Seq::<u8>::empty()));
    assert(valid_utf8(pop_first_scalar(first)));
    assert(first.len() == width);
    assert(valid_utf8(first));
    assert(pop_first_scalar(bytes) =~= bytes.skip(width));
}

/// `String::from_utf8`, with the error dropped. The conversion succeeds on
/// exactly the byte sequences that are valid UTF-8, and the string then
/// consists of the given bytes.
#[verifier::external_body]
pub(crate) fn string_from_utf8(bytes: Vec<u8>) -> (text: Option<String>)
    ensures
        text is Some <==> valid_utf8(bytes@),
        text is Some ==> encode_utf8(text->0@) == bytes@,
{
    String::from_utf8(bytes).ok()
}

} // verus!
