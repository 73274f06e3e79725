use yubico_otp::client::{build_signed_request, verify_response};
use yubico_otp::params::{ApiCredentials, ValidationOption};
use yubico_otp::response::{ValidationResponse, ValidationStatus};
use yubico_otp::Error;

const OTP: &str = "cccccckdvvulethkhtvkrtbeukiettvfceekurncllcj";
const NONCE: &str = "0123456789abcdef0123456789abcdef";

fn test_creds() -> ApiCredentials {
    ApiCredentials::from_base64_secret("0".to_string(), "mG5be6ZJU1qBGz24yPh/ESM3UdU=")
        .expect("failed to create credentials")
}

/// A response body signed with the test credentials: the given lines, plus
/// a correct `h` line.
fn signed_body(creds: &ApiCredentials, fields: &[(&str, &str)]) -> String {
    let kv: Vec<(Vec<u8>, Vec<u8>)> = fields
        .iter()
        .map(|(k, v)| (k.as_bytes().to_vec(), v.as_bytes().to_vec()))
        .collect();
    let h = creds.calc_kv_hmac(&kv);
    let mut body = String::new();
    for (k, v) in fields {
        body.push_str(&format!("{}={}\r\n", k, v));
    }
    body.push_str(&format!("h={}\r\n", h));
    body
}

#[test]
fn test_verify_accepts_valid_response() {
    let creds = test_creds();
    let body = signed_body(
        &creds,
        &[
            ("status", "OK"),
            ("nonce", NONCE),
            ("otp", OTP),
            ("timestamp", "1234567890"),
            ("sessioncounter", "42"),
            ("sessionuse", "7"),
            ("sl", "25"),
        ],
    );
    let (status, resp) = verify_response(&creds, NONCE.as_bytes(), OTP.as_bytes(), body.as_bytes())
        .expect("verification should succeed");
    assert!(status.is_ok());
    assert_eq!(resp.timestamp, Some(1234567890));
    assert_eq!(resp.session_counter, Some(42));
    assert_eq!(resp.session_use, Some(7));
    assert_eq!(resp.sl, Some(25));
}

#[test]
fn test_verify_absent_fields_stay_none() {
    let creds = test_creds();
    let body = signed_body(&creds, &[("status", "BAD_OTP"), ("nonce", NONCE), ("otp", OTP)]);
    let (status, resp) = verify_response(&creds, NONCE.as_bytes(), OTP.as_bytes(), body.as_bytes())
        .expect("verification should succeed");
    assert!(!status.is_ok());
    assert!(matches!(status, ValidationStatus::BadOtp));
    assert_eq!(resp.timestamp, None);
    assert_eq!(resp.session_counter, None);
    assert_eq!(resp.session_use, None);
    assert_eq!(resp.sl, None);
}

#[test]
fn test_verify_rejects_wrong_nonce() {
    let creds = test_creds();
    // correctly signed over its own body, but the nonce is not ours
    let body = signed_body(
        &creds,
        &[("status", "OK"), ("nonce", "someoneelsesnonce0000000000000aa"), ("otp", OTP)],
    );
    let r = verify_response(&creds, NONCE.as_bytes(), OTP.as_bytes(), body.as_bytes());
    assert!(matches!(r, Err(Error::InvalidSignature)));
}

#[test]
fn test_verify_rejects_wrong_otp_echo() {
    let creds = test_creds();
    let body = signed_body(
        &creds,
        &[("status", "OK"), ("nonce", NONCE), ("otp", "cccccckdvvulethkhtvkrtbeukiettvfceekurncllcc")],
    );
    let r = verify_response(&creds, NONCE.as_bytes(), OTP.as_bytes(), body.as_bytes());
    assert!(matches!(r, Err(Error::InvalidSignature)));
}

#[test]
fn test_verify_rejects_tampered_field() {
    let creds = test_creds();
    let body = signed_body(&creds, &[("status", "OK"), ("nonce", NONCE), ("otp", OTP)]);
    // alter a single character of the status field after signing
    let tampered = body.replace("status=OK", "status=NO");
    assert_ne!(body, tampered);
    let r = verify_response(&creds, NONCE.as_bytes(), OTP.as_bytes(), tampered.as_bytes());
    assert!(matches!(r, Err(Error::InvalidSignature)));
}

#[test]
fn test_verify_rejects_missing_signature() {
    let creds = test_creds();
    let body = format!("status=OK\r\nnonce={}\r\notp={}\r\n", NONCE, OTP);
    let r = verify_response(&creds, NONCE.as_bytes(), OTP.as_bytes(), body.as_bytes());
    assert!(matches!(r, Err(Error::InvalidSignature)));
}

#[test]
fn test_verify_rejects_unknown_status() {
    let creds = test_creds();
    let body = signed_body(&creds, &[("status", "SOMETHING_ELSE"), ("nonce", NONCE), ("otp", OTP)]);
    let r = verify_response(&creds, NONCE.as_bytes(), OTP.as_bytes(), body.as_bytes());
    assert!(matches!(r, Err(Error::InvalidResponseFormat)));
}

#[test]
fn test_verify_rejects_unparseable_numeric_field() {
    let creds = test_creds();
    let body = signed_body(
        &creds,
        &[("status", "OK"), ("nonce", NONCE), ("otp", OTP), ("sl", "2x5")],
    );
    let r = verify_response(&creds, NONCE.as_bytes(), OTP.as_bytes(), body.as_bytes());
    assert!(matches!(r, Err(Error::InvalidResponseFormat)));

    // out of range for its type is just as unparseable
    let body = signed_body(
        &creds,
        &[("status", "OK"), ("nonce", NONCE), ("otp", OTP), ("sl", "256")],
    );
    let r = verify_response(&creds, NONCE.as_bytes(), OTP.as_bytes(), body.as_bytes());
    assert!(matches!(r, Err(Error::InvalidResponseFormat)));
}

#[test]
fn test_status_vocabulary() {
    let cases: &[(&str, ValidationStatus)] = &[
        ("OK", ValidationStatus::Okay),
        ("BAD_OTP", ValidationStatus::BadOtp),
        ("REPLAYED_OTP", ValidationStatus::ReplayedOtp),
        ("BAD_SIGNATURE", ValidationStatus::BadSignature),
        ("MISSING_PARAMETER", ValidationStatus::MissingParameter),
        ("NO_SUCH_CLIENT", ValidationStatus::NoSuchClient),
        ("OPERATION_NOT_ALLOWED", ValidationStatus::OperationNotAllowed),
        ("BACKEND_ERROR", ValidationStatus::BackendError),
        ("NOT_ENOUGH_ANSWERS", ValidationStatus::NotEnoughAnswers),
        ("REPLAYED_REQUEST", ValidationStatus::ReplayedRequest),
    ];
    for (wire, expect) in cases {
        assert_eq!(ValidationStatus::try_from(wire.as_bytes()), Some(*expect));
    }
    assert_eq!(ValidationStatus::try_from(b"ok".as_slice()), None);
    assert_eq!(ValidationStatus::try_from(b"".as_slice()), None);
    assert!(ValidationStatus::Okay.is_ok());
    assert!(!ValidationStatus::BackendError.is_ok());
}

#[test]
fn test_parse_from_kv_accepts_leading_plus() {
    // unsigned parsing takes an optional leading plus sign
    let kv: Vec<(Vec<u8>, Vec<u8>)> = vec![
        (b"sl".to_vec(), b"+25".to_vec()),
        (b"timestamp".to_vec(), b"+0".to_vec()),
    ];
    let resp = ValidationResponse::parse_from_kv(&kv).unwrap();
    assert_eq!(resp.sl, Some(25));
    assert_eq!(resp.timestamp, Some(0));

    // a plus sign alone has no digits
    let kv: Vec<(Vec<u8>, Vec<u8>)> = vec![(b"sl".to_vec(), b"+".to_vec())];
    assert!(matches!(
        ValidationResponse::parse_from_kv(&kv),
        Err(Error::InvalidResponseFormat)
    ));

    // and only one is taken
    let kv: Vec<(Vec<u8>, Vec<u8>)> = vec![(b"sl".to_vec(), b"++5".to_vec())];
    assert!(matches!(
        ValidationResponse::parse_from_kv(&kv),
        Err(Error::InvalidResponseFormat)
    ));
}

#[test]
fn test_parse_from_kv_last_occurrence_wins() {
    let kv: Vec<(Vec<u8>, Vec<u8>)> = vec![
        (b"sl".to_vec(), b"10".to_vec()),
        (b"sl".to_vec(), b"20".to_vec()),
    ];
    let resp = ValidationResponse::parse_from_kv(&kv).unwrap();
    assert_eq!(resp.sl, Some(20));
}

#[test]
fn test_build_signed_request() {
    let creds = test_creds();
    let opt = ValidationOption::default();
    let (url, nonce) = build_signed_request(&creds, OTP, &opt).expect("should build");
    assert_eq!(nonce.len(), 32);
    assert!(nonce.bytes().all(|b| b.is_ascii_alphanumeric()));
    let q: Vec<(String, String)> =
        url.query_pairs().map(|(k, v)| (k.into_owned(), v.into_owned())).collect();
    assert_eq!(q[0], ("id".to_string(), "0".to_string()));
    assert_eq!(q[1], ("otp".to_string(), OTP.to_string()));
    assert_eq!(q[2], ("nonce".to_string(), nonce.clone()));
    assert_eq!(q[3].0, "h");
    // the signature matches what the canonical signer computes
    let kv: Vec<(Vec<u8>, Vec<u8>)> = q
        .iter()
        .map(|(k, v)| (k.as_bytes().to_vec(), v.as_bytes().to_vec()))
        .collect();
    assert_eq!(q[3].1, creds.calc_kv_hmac(&kv));
}

#[test]
fn test_build_signed_request_bad_endpoint() {
    let creds = test_creds();
    let opt = ValidationOption::default().set_endpoint("not a url".to_string());
    let r = build_signed_request(&creds, OTP, &opt);
    assert!(matches!(r, Err(Error::UrlError)));
}

#[test]
fn test_two_requests_use_fresh_nonces() {
    let creds = test_creds();
    let opt = ValidationOption::default();
    let (_, n1) = build_signed_request(&creds, OTP, &opt).unwrap();
    let (_, n2) = build_signed_request(&creds, OTP, &opt).unwrap();
    assert_ne!(n1, n2);
}
