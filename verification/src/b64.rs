//! Base64 text form of sealed record bytes, one stored line each.

use vstd::prelude::*;

use base64::engine::general_purpose;
use base64::Engine;

verus! {

/// What base64's standard decoder gives on a byte string of text:
/// `None` when the text is not valid base64.
pub uninterp spec fn b64_decoded(text: Seq<u8>) -> Option<Seq<u8>>;

/// Relies on base64's `STANDARD` engine: decoding an encoded string gives
/// back the input, and the output alphabet holds no line break.
#[verifier::external_body]
pub fn b64_encode(data: &Vec<u8>) -> (r: Vec<u8>)
    ensures
        b64_decoded(r@) == Some(data@),
        forall|i: int| 0 <= i < r@.len() ==> r@[i] != 10 && r@[i] != 13,
{
    general_purpose::STANDARD.encode(data).into_bytes()
}

/// Relies on base64's `STANDARD` engine: decoding is a function of the
/// text alone.
#[verifier::external_body]
pub fn b64_decode(text: &Vec<u8>) -> (r: Result<Vec<u8>, ()>)
    ensures
        r is Ok <==> b64_decoded(text@) is Some,
        r is Ok ==> Some(r.unwrap()@) == b64_decoded(text@),
{
    match general_purpose::STANDARD.decode(text) {
        Ok(data) => Ok(data),
        Err(_) => Err(()),
    }
}

} // verus!
