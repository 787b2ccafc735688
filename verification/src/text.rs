//! Trusted binding for lossy text decoding.
//!
//! Message bodies are declared UTF-8 but arrive as raw bytes; the parser
//! hands them out as text, replacing invalid sequences rather than
//! rejecting them. The decoding itself is done by the standard library;
//! its result is named here so that contracts can speak of it exactly.

use vstd::prelude::*;

verus! {

/// The character sequence that lossy UTF-8 decoding yields for `bytes`:
/// a function of the bytes alone.
pub uninterp spec fn lossy_utf8_of(bytes: Seq<u8>) -> Seq<char>;

/// Relies on `String::from_utf8_lossy`: decodes the bytes as UTF-8,
/// substituting U+FFFD for each invalid sequence; valid UTF-8 decodes
/// unchanged, as its documentation states.
#[verifier::external_body]
pub(crate) fn lossy_decode(bytes: &[u8]) -> (r: String)
    ensures
        r@ == lossy_utf8_of(bytes@),
        vstd::utf8::valid_utf8(bytes@) ==> r@ == vstd::utf8::decode_utf8(bytes@),
{
    String::from_utf8_lossy(bytes).into_owned()
}

} // verus!
