use yubico_otp::modhex::{modhex_decode, modhex_encode, ModHexDecoder, ModHexEncoder};

fn decode_all(input: &str) -> Vec<u8> {
    let mut dec = ModHexDecoder::new(input.chars().collect());
    let mut out = Vec::new();
    while let Some(b) = dec.next() {
        out.push(b);
    }
    out
}

fn encode_all(input: &[u8]) -> String {
    let mut enc = ModHexEncoder::new(input.to_vec());
    let mut out = String::new();
    while let Some(c) = enc.next() {
        out.push(c);
    }
    out
}

#[test]
fn test_modhex_decode() {
    let input = "clrrliejedfg";
    let output = decode_all(input);
    assert_eq!(output, vec![0x0a, 0xcc, 0xa7, 0x38, 0x32, 0x45])
}

#[test]
fn test_mdodhex_serdes() {
    for len in 0..=255 {
        let mut input = vec![0; len];
        let mut rng = rand::thread_rng();
        rand::RngCore::fill_bytes(&mut rng, &mut input);

        let encoded = encode_all(&input);
        let decoded = decode_all(&encoded);
        assert_eq!(input, decoded);
    }
}

#[test]
fn test_modhex_encode_known() {
    assert_eq!(encode_all(&[0x0a, 0xcc, 0xa7, 0x38, 0x32, 0x45]), "clrrliejedfg");
}

#[test]
fn test_modhex_vec_helpers_round_trip() {
    let bytes: Vec<u8> = vec![0, 1, 15, 16, 127, 128, 254, 255];
    let chars = modhex_encode(&bytes);
    assert_eq!(chars.len(), 2 * bytes.len());
    let back = modhex_decode(&chars);
    assert_eq!(back, bytes);
}

#[test]
fn test_modhex_decode_empty() {
    assert_eq!(decode_all(""), Vec::<u8>::new());
}

#[test]
fn test_modhex_decode_stops_at_invalid() {
    // 'x' is not in the alphabet: decoding ends there.
    assert_eq!(decode_all("ccxx"), vec![0x00]);
    // an odd trailing character has no pair: decoding ends there.
    assert_eq!(decode_all("ccb"), vec![0x00]);
}
