use metanoid_procgen::seed::sharing::{decode, encode};

#[test]
fn roundtrip_zero() {
    assert_eq!(encode(0), "0");
    assert_eq!(decode("0"), Some(0));
}

#[test]
fn roundtrip_max() {
    let code = encode(u64::MAX);
    assert_eq!(decode(&code), Some(u64::MAX));
}

#[test]
fn roundtrip_various() {
    let values = [1u64, 42, 1000, 65535, 1_000_000, u64::MAX / 2];
    for v in values {
        let code = encode(v);
        assert_eq!(decode(&code), Some(v), "roundtrip failed for {v}");
    }
}

#[test]
fn invalid_decode() {
    assert_eq!(decode(""), None);
}

#[test]
fn compact_encoding() {
    assert_eq!(encode(1), "1");
    assert_eq!(encode(61), "z");
    assert_eq!(encode(62), "10");
}

#[test]
fn encode_exact_values() {
    assert_eq!(encode(10), "A");
    assert_eq!(encode(35), "Z");
    assert_eq!(encode(36), "a");
    assert_eq!(encode(3843), "zz");
    assert_eq!(encode(u64::MAX), "LygHa16AHYF");
}

#[test]
fn decode_rejects_symbols_outside_alphabet() {
    assert_eq!(decode("1-2"), None);
    assert_eq!(decode(" 1"), None);
    assert_eq!(decode("é"), None);
}

#[test]
fn decode_rejects_overflow() {
    // u64::MAX is "LygHa16AHYF"; the next numeral up does not fit.
    assert_eq!(decode("LygHa16AHYG"), None);
    assert_eq!(decode("zzzzzzzzzzzz"), None);
}

#[test]
fn decode_accepts_leading_zeros() {
    assert_eq!(decode("0010"), Some(62));
    assert_eq!(decode("Zz"), Some(35 * 62 + 61));
}
