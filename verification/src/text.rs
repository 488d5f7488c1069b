//! Text from bytes that need not be valid UTF-8.

use vstd::prelude::*;
use vstd::utf8::{decode_utf8, valid_utf8};

verus! {

/// The text that stands for bytes that are not valid UTF-8: each part that
/// cannot be decoded is replaced by the replacement character.
pub uninterp spec fn repaired_text(bytes: Seq<u8>) -> Seq<char>;

/// The text that bytes hold: what they decode to where they are valid
/// UTF-8, the repaired text else.
pub open spec fn text_of(bytes: Seq<u8>) -> Seq<char> {
    if valid_utf8(bytes) {
        decode_utf8(bytes)
    } else {
        repaired_text(bytes)
    }
}

/// `String::from_utf8_lossy`: the text that the bytes hold. Valid UTF-8
/// comes back as it is; for other bytes the result is the repaired text.
#[verifier::external_body]
pub(crate) fn lossy_text(bytes: &[u8]) -> (text: String)
    ensures
        text@ == (if valid_utf8(bytes@) {
            decode_utf8(bytes@)
        } else {
            repaired_text(bytes@)
        }),
{
    String::from_utf8_lossy(bytes).into_owned()
}

/// The text of the bytes of a text is that text.
pub proof fn lemma_text_of_encoded(text: Seq<char>)
    ensures
        text_of(vstd::utf8::encode_utf8(text)) == text,
{
    vstd::utf8::encode_utf8_valid_utf8(text);
    vstd::utf8::encode_utf8_decode_utf8(text);
}

} // verus!
