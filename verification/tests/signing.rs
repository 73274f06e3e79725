use yubico_otp::params::{ApiCredentials, SyncLevel, ValidationOption};
use yubico_otp::Error;

fn test_creds() -> ApiCredentials {
    ApiCredentials::from_base64_secret("0".to_string(), "mG5be6ZJU1qBGz24yPh/ESM3UdU=")
        .expect("failed to create credentials")
}

fn pairs(of: &[(&str, &str)]) -> Vec<(Vec<u8>, Vec<u8>)> {
    of.iter().map(|(k, v)| (k.as_bytes().to_vec(), v.as_bytes().to_vec())).collect()
}

#[test]
fn test_sign_url() {
    struct TestVector {
        url: &'static str,
        h: &'static str,
    }

    let tests = [
        TestVector {
            url: "https://api.yubico.com/wsapi/2.0/verify?id=1&otp=vvungrrdhvtklknvrtvuvbbkeidikkvgglrvdgrfcdft&nonce=jrFwbaYFhn0HoxZIsd9LQ6w2ceU",
            h: "+ja8S3IjbX593/LAgTBixwPNGX4=",
        },
        TestVector {
            url: "https://api.yubico.com/wsapi/2.0/verify?status=OK&\
                t=2019-06-06T05:14:15Z0369&\
                nonce=0123456789abcdef&\
                otp=cccccckdvvulethkhtvkrtbeukiettvfceekurncllcj&\
                sl=25",
            h: "iCV9uFJDtuyELQsxFPnR80Yj2XU=",
        }
    ];
    let creds = test_creds();
    tests.iter().for_each(|t| {
        let mut url = url::Url::parse(t.url).unwrap();
        creds.sign_url(&mut url);
        let signature = url.query_pairs().find(|(k, _)| k == "h").unwrap().1;
        assert_eq!(signature, t.h);
    });
}

#[test]
fn test_calc_kv_hmac_known_answer() {
    let creds = test_creds();
    let kv = pairs(&[
        ("id", "1"),
        ("otp", "vvungrrdhvtklknvrtvuvbbkeidikkvgglrvdgrfcdft"),
        ("nonce", "jrFwbaYFhn0HoxZIsd9LQ6w2ceU"),
    ]);
    assert_eq!(creds.calc_kv_hmac(&kv), "+ja8S3IjbX593/LAgTBixwPNGX4=");
}

#[test]
fn test_signature_order_independent() {
    let creds = test_creds();
    let a = pairs(&[("id", "1"), ("otp", "ccc"), ("nonce", "abc"), ("sl", "25")]);
    let b = pairs(&[("sl", "25"), ("nonce", "abc"), ("id", "1"), ("otp", "ccc")]);
    assert_eq!(creds.calc_kv_hmac(&a), creds.calc_kv_hmac(&b));
}

#[test]
fn test_signature_excludes_h() {
    let creds = test_creds();
    let without = pairs(&[("id", "1"), ("otp", "ccc"), ("nonce", "abc")]);
    let mut with = without.clone();
    with.push((b"h".to_vec(), b"arbitrary+garbage=".to_vec()));
    assert_eq!(creds.calc_kv_hmac(&without), creds.calc_kv_hmac(&with));
}

#[test]
fn test_from_base64_secret_rejects_bad_base64() {
    let r = ApiCredentials::from_base64_secret("0".to_string(), "!!!not base64!!!");
    assert!(matches!(r, Err(Error::DecodeFailure)));
}

#[test]
fn test_from_base64_secret_decodes() {
    let creds = test_creds();
    assert_eq!(creds.client_id, "0");
    assert_eq!(creds.client_secret.len(), 20);
}

#[test]
fn test_option_query_pairs() {
    let opt = ValidationOption::default();
    assert!(opt.to_query_pairs().is_empty());
    assert_eq!(opt.endpoint, "https://api.yubico.com/wsapi/2.0/verify");

    let opt = ValidationOption::default()
        .enable_timestamp()
        .set_sync_level(SyncLevel::Percentage(25))
        .set_timeout(30);
    let got = opt.to_query_pairs();
    let want: Vec<(String, String)> = vec![
        ("timestamp".to_string(), "1".to_string()),
        ("sl".to_string(), "25".to_string()),
        ("timeout".to_string(), "30".to_string()),
    ];
    assert_eq!(got, want);
}

#[test]
fn test_sync_level_wire_values() {
    assert_eq!(SyncLevel::Fast.wire_value(), "fast");
    assert_eq!(SyncLevel::Secure.wire_value(), "secure");
    assert_eq!(SyncLevel::Percentage(0).wire_value(), "0");
    assert_eq!(SyncLevel::Percentage(100).wire_value(), "100");
    assert_eq!(SyncLevel::Percentage(255).wire_value(), "255");
}
