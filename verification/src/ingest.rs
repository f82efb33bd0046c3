//! The ingestor: turns a document's raw bytes into text, tolerating byte
//! sequences that are not valid encoded text.
//!
//! Decoding never fails and never panics: an invalid sequence becomes a
//! placeholder character, so the words around it are still seen. The
//! decoded text is kept as bytes; every separator and every byte the word
//! filter keeps is ASCII, so later stages read it byte by byte.

use vstd::prelude::*;

verus! {

/// What lenient decoding makes of a document's bytes: the decoded text,
/// again as bytes, with each invalid sequence replaced by the placeholder
/// character. The result depends on the input bytes alone.
pub uninterp spec fn lossy_decode(bytes: Seq<u8>) -> Seq<u8>;

/// Decodes a document's bytes to text, replacing each invalid sequence
/// with the placeholder character instead of failing.
///
/// Relies on String::from_utf8_lossy: valid text passes through unchanged
/// — in particular, bytes that are all ASCII come back as they are — and
/// each invalid sequence becomes the replacement character.
#[verifier::external_body]
pub(crate) fn decode_text(bytes: &Vec<u8>) -> (r: Vec<u8>)
    ensures
        r@ == lossy_decode(bytes@),
        (forall|i: int| 0 <= i < bytes@.len() ==> bytes@[i] < 128) ==> r@ == bytes@,
{
    String::from_utf8_lossy(bytes).into_owned().into_bytes()
}

} // verus!
