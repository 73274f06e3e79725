//! Typed response of the verify request: the status vocabulary and the
//! optional numeric fields.
use vstd::prelude::*;
use vstd::string::StringSliceAdditionalSpecFns;

use crate::util::{
    bytes_eq_str, kv_view, parse_u32, parse_u64, parse_u8, spec_parse_u32, spec_parse_u64,
    spec_parse_u8,
};
use crate::Error;

verus! {

/// The ten authority-defined outcomes. Only `Okay` is a successful
/// authentication.
#[derive(Debug, PartialEq, Eq, Structural, Clone, Copy)]
pub enum ValidationStatus {
    Okay,
    BadOtp,
    ReplayedOtp,
    BadSignature,
    MissingParameter,
    NoSuchClient,
    OperationNotAllowed,
    BackendError,
    NotEnoughAnswers,
    ReplayedRequest,
}

/// The status denoted by a wire string: `Some` exactly for the ten
/// recognized strings.
pub open spec fn spec_status_of(s: Seq<u8>) -> Option<ValidationStatus> {
    if s == "OK".spec_bytes() {
        Some(ValidationStatus::Okay)
    } else if s == "BAD_OTP".spec_bytes() {
        Some(ValidationStatus::BadOtp)
    } else if s == "REPLAYED_OTP".spec_bytes() {
        Some(ValidationStatus::ReplayedOtp)
    } else if s == "BAD_SIGNATURE".spec_bytes() {
        Some(ValidationStatus::BadSignature)
    } else if s == "MISSING_PARAMETER".spec_bytes() {
        Some(ValidationStatus::MissingParameter)
    } else if s == "NO_SUCH_CLIENT".spec_bytes() {
        Some(ValidationStatus::NoSuchClient)
    } else if s == "OPERATION_NOT_ALLOWED".spec_bytes() {
        Some(ValidationStatus::OperationNotAllowed)
    } else if s == "BACKEND_ERROR".spec_bytes() {
        Some(ValidationStatus::BackendError)
    } else if s == "NOT_ENOUGH_ANSWERS".spec_bytes() {
        Some(ValidationStatus::NotEnoughAnswers)
    } else if s == "REPLAYED_REQUEST".spec_bytes() {
        Some(ValidationStatus::ReplayedRequest)
    } else {
        None
    }
}

impl ValidationStatus {
    /// `true` exactly for the `Okay` outcome.
    pub fn is_ok(&self) -> (r: bool)
        ensures
            r == (self is Okay),
    {
        match self {
            ValidationStatus::Okay => true,
            _ => false,
        }
    }

    /// Parse a wire status string: `Some` exactly for the ten recognized
    /// strings, never a default.
    pub fn try_from(value: &[u8]) -> (r: Option<ValidationStatus>)
        ensures
            r == spec_status_of(value@),
    {
        if bytes_eq_str(value, "OK") {
            Some(ValidationStatus::Okay)
        } else if bytes_eq_str(value, "BAD_OTP") {
            Some(ValidationStatus::BadOtp)
        } else if bytes_eq_str(value, "REPLAYED_OTP") {
            Some(ValidationStatus::ReplayedOtp)
        } else if bytes_eq_str(value, "BAD_SIGNATURE") {
            Some(ValidationStatus::BadSignature)
        } else if bytes_eq_str(value, "MISSING_PARAMETER") {
            Some(ValidationStatus::MissingParameter)
        } else if bytes_eq_str(value, "NO_SUCH_CLIENT") {
            Some(ValidationStatus::NoSuchClient)
        } else if bytes_eq_str(value, "OPERATION_NOT_ALLOWED") {
            Some(ValidationStatus::OperationNotAllowed)
        } else if bytes_eq_str(value, "BACKEND_ERROR") {
            Some(ValidationStatus::BackendError)
        } else if bytes_eq_str(value, "NOT_ENOUGH_ANSWERS") {
            Some(ValidationStatus::NotEnoughAnswers)
        } else if bytes_eq_str(value, "REPLAYED_REQUEST") {
            Some(ValidationStatus::ReplayedRequest)
        } else {
            None
        }
    }
}

/// Optional numeric fields of a validation response; a field absent from
/// the body stays `None`, never defaulted.
#[derive(Debug, Clone, Copy)]
pub struct ValidationResponse {
    /// internal timestamp of the OTP
    pub timestamp: Option<u64>,
    /// session counter of the OTP
    pub session_counter: Option<u32>,
    /// session use counter of the OTP
    pub session_use: Option<u32>,
    /// sync level of the OTP
    pub sl: Option<u8>,
}

/// The response with every field absent.
pub open spec fn spec_response_init() -> ValidationResponse {
    ValidationResponse { timestamp: None, session_counter: None, session_use: None, sl: None }
}

/// Walk a key/value set updating the recognized numeric fields, the last
/// occurrence winning; `None` as soon as a recognized field fails to parse.
pub open spec fn spec_response_fold(kv: Seq<(Seq<u8>, Seq<u8>)>, acc: ValidationResponse) -> Option<
    ValidationResponse,
>
    decreases kv.len(),
{
    if kv.len() == 0 {
        Some(acc)
    } else {
        let k = kv[0].0;
        let v = kv[0].1;
        if k == "timestamp".spec_bytes() {
            match spec_parse_u64(v) {
                Some(n) => spec_response_fold(
                    kv.skip(1),
                    ValidationResponse { timestamp: Some(n), ..acc },
                ),
                None => None,
            }
        } else if k == "sessioncounter".spec_bytes() {
            match spec_parse_u32(v) {
                Some(n) => spec_response_fold(
                    kv.skip(1),
                    ValidationResponse { session_counter: Some(n), ..acc },
                ),
                None => None,
            }
        } else if k == "sessionuse".spec_bytes() {
            match spec_parse_u32(v) {
                Some(n) => spec_response_fold(
                    kv.skip(1),
                    ValidationResponse { session_use: Some(n), ..acc },
                ),
                None => None,
            }
        } else if k == "sl".spec_bytes() {
            match spec_parse_u8(v) {
                Some(n) => spec_response_fold(kv.skip(1), ValidationResponse { sl: Some(n), ..acc }),
                None => None,
            }
        } else {
            spec_response_fold(kv.skip(1), acc)
        }
    }
}

/// The parsed numeric fields of a key/value set, if every recognized field
/// present parses as its integer type.
pub open spec fn spec_response_of(kv: Seq<(Seq<u8>, Seq<u8>)>) -> Option<ValidationResponse> {
    spec_response_fold(kv, spec_response_init())
}

impl ValidationResponse {
    /// Parse the optional numeric fields from a key/value set: fails exactly
    /// when a recognized field is present with an unparseable value; no
    /// partial response is ever returned.
    pub fn parse_from_kv(kv: &Vec<(Vec<u8>, Vec<u8>)>) -> (r: Result<ValidationResponse, Error>)
        ensures
            match r {
                Ok(resp) => spec_response_of(kv_view(kv@)) == Some(resp),
                Err(e) => spec_response_of(kv_view(kv@)) is None && e
                    == Error::InvalidResponseFormat,
            },
    {
        let mut acc = ValidationResponse {
            timestamp: None,
            session_counter: None,
            session_use: None,
            sl: None,
        };
        let mut i: usize = 0;
        proof {
            assert(kv_view(kv@).skip(0) =~= kv_view(kv@));
        }
        while i < kv.len()
            invariant
                i <= kv@.len(),
                spec_response_of(kv_view(kv@)) == spec_response_fold(
                    kv_view(kv@).skip(i as int),
                    acc,
                ),
            decreases kv@.len() - i,
        {
            let k = kv[i].0.as_slice();
            let v = kv[i].1.as_slice();
            proof {
                assert(kv_view(kv@).skip(i as int)[0] == kv_view(kv@)[i as int]);
                assert(kv_view(kv@).skip(i as int).skip(1) =~= kv_view(kv@).skip(i as int + 1));
            }
            if bytes_eq_str(k, "timestamp") {
                match parse_u64(v) {
                    Some(n) => {
                        acc = ValidationResponse { timestamp: Some(n), ..acc };
                    },
                    None => {
                        return Err(Error::InvalidResponseFormat);
                    },
                }
            } else if bytes_eq_str(k, "sessioncounter") {
                match parse_u32(v) {
                    Some(n) => {
                        acc = ValidationResponse { session_counter: Some(n), ..acc };
                    },
                    None => {
                        return Err(Error::InvalidResponseFormat);
                    },
                }
            } else if bytes_eq_str(k, "sessionuse") {
                match parse_u32(v) {
                    Some(n) => {
                        acc = ValidationResponse { session_use: Some(n), ..acc };
                    },
                    None => {
                        return Err(Error::InvalidResponseFormat);
                    },
                }
            } else if bytes_eq_str(k, "sl") {
                match parse_u8(v) {
                    Some(n) => {
                        acc = ValidationResponse { sl: Some(n), ..acc };
                    },
                    None => {
                        return Err(Error::InvalidResponseFormat);
                    },
                }
            }
            i = i + 1;
        }
        proof {
            assert(kv_view(kv@).skip(kv@.len() as int) =~= Seq::<(Seq<u8>, Seq<u8>)>::empty());
        }
        Ok(acc)
    }
}

} // verus!
