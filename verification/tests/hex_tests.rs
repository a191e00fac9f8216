use xfmt::hex::{decode_hex, hex_string};

#[test]
fn hex_string_is_lower_case_two_digits_per_byte() {
    assert_eq!(hex_string(&[0x00, 0x0f, 0xa5, 0xff]), "000fa5ff");
    assert_eq!(hex_string(&[]), "");
}

#[test]
fn decode_hex_accepts_both_cases() {
    assert_eq!(decode_hex("000fA5ff"), Some(vec![0x00, 0x0f, 0xa5, 0xff]));
    assert_eq!(decode_hex(""), Some(vec![]));
}

#[test]
fn decode_hex_refuses_odd_length_and_bad_characters() {
    assert_eq!(decode_hex("abc"), None);
    assert_eq!(decode_hex("zz"), None);
    assert_eq!(decode_hex("0g"), None);
    assert_eq!(decode_hex("é0"), None);
}

#[test]
fn hex_roundtrip_on_every_byte_value() {
    let all: Vec<u8> = (0..=255u8).collect();
    let text = hex_string(&all);
    assert_eq!(text, hex::encode(&all));
    assert_eq!(decode_hex(&text), Some(all));
}
