//! Client-side engine for challenge/response one-time-password validation:
//! canonical request signing, response authentication, and the ModHex codec.
use vstd::prelude::*;

/// The validation protocol engine.
pub mod client;
/// Modhex encoding/decoding.
pub mod modhex;
/// Options and parameters for the verify request.
pub mod params;
/// Response from the verify request.
pub mod response;
/// Byte-sequence helpers: ordering, sorting, decimal conversions.
pub mod util;

verus! {

/// Failures of the validation protocol.
#[derive(Debug, PartialEq, Eq, Structural, Clone, Copy)]
pub enum Error {
    /// The provisioned secret was not valid base64.
    DecodeFailure,
    /// The endpoint was not a well-formed URL.
    UrlError,
    /// Signature, nonce echo, or OTP echo did not match.
    InvalidSignature,
    /// Unrecognized status or malformed numeric field.
    InvalidResponseFormat,
}

} // verus!
