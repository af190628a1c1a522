//! Decoding sampled bytes as UTF-8 text, through the standard library.
use vstd::prelude::*;
use vstd::utf8::*;

use crate::fields::occurrences;

verus! {

/// The text that `String::from_utf8_lossy` makes of `bytes`: each invalid
/// sequence becomes U+FFFD.
pub uninterp spec fn utf8_lossy(bytes: Seq<u8>) -> Seq<char>;

/// Calls `std::str::from_utf8` and reports whether it succeeded.
///
/// Trusted: `from_utf8` succeeds exactly on well-formed UTF-8, which is what
/// vstd's `valid_utf8` describes.
#[verifier::external_body]
pub(crate) fn is_valid_utf8(bytes: &[u8]) -> (valid: bool)
    ensures
        valid == valid_utf8(bytes@),
{
    std::str::from_utf8(bytes).is_ok()
}

/// Calls `String::from_utf8_lossy` and takes ownership of the text.
///
/// Trusted: the text is `utf8_lossy` of the bytes; on well-formed UTF-8 it
/// is the decoding of the bytes themselves.  Otherwise each invalid sequence
/// becomes U+FFFD and the rest is decoded as it stands, so that each ASCII
/// byte is kept, one for one: its UTF-8 encoding holds each byte below 128
/// as often as the bytes do.  Which bytes make up one invalid sequence is
/// left unsaid.
#[verifier::external_body]
pub(crate) fn decode_lossy(bytes: &[u8]) -> (text: String)
    ensures
        text@ == utf8_lossy(bytes@),
        valid_utf8(bytes@) ==> text@ == decode_utf8(bytes@),
        forall|c: u8| c < 128 ==> #[trigger] occurrences(encode_utf8(text@), c) == occurrences(bytes@, c),
{
    String::from_utf8_lossy(bytes).into_owned()
}

} // verus!
