use xfmt::error::XfmtError;
use xfmt::header::{
    check_magic, check_metadata_limits, encode_header, parse_header, payload_start, MAX_METADATA_SIZE,
};

#[test]
fn header_bytes_are_big_endian() {
    let b = encode_header(0x01020304, 0x0a0b0c0d).unwrap();
    assert_eq!(
        b,
        vec![b'X', b'F', b'M', b'T', 0, 0, 0, 1, 1, 2, 3, 4, 10, 11, 12, 13, 0, 0, 0, 0]
    );
}

#[test]
fn header_roundtrip() {
    let b = encode_header(1234, 987654).unwrap();
    let h = parse_header(&b).unwrap();
    assert_eq!(&h.magic, b"XFMT");
    assert_eq!(h.version_major, 0);
    assert_eq!(h.version_minor, 1);
    assert_eq!(h.manifest_len, 1234);
    assert_eq!(h.index_len, 987654);
    assert_eq!(h.flags, 0);
    assert_eq!(check_magic(&h), Ok(()));
    assert_eq!(payload_start(&h), 20 + 1234 + 987654);
}

#[test]
fn header_too_short_is_refused() {
    assert_eq!(parse_header(&[b'X'; 19]).unwrap_err(), XfmtError::TruncatedHeader);
}

#[test]
fn wrong_magic_is_refused() {
    let mut b = encode_header(1, 1).unwrap();
    b[0] = b'Y';
    let h = parse_header(&b).unwrap();
    assert_eq!(check_magic(&h), Err(XfmtError::InvalidMagic));
}

#[test]
fn metadata_limit_is_sixty_four_mebibytes() {
    let ok = parse_header(&encode_header(MAX_METADATA_SIZE, 10).unwrap()).unwrap();
    assert_eq!(check_metadata_limits(&ok), Ok(()));
    let big = parse_header(&encode_header(10, MAX_METADATA_SIZE + 1).unwrap()).unwrap();
    assert_eq!(check_metadata_limits(&big), Err(XfmtError::MetadataTooLarge));
}

#[test]
fn lengths_beyond_32_bits_are_refused() {
    assert_eq!(encode_header(1usize << 32, 0), Err(XfmtError::MetadataTooLarge));
    assert!(encode_header(u32::MAX as usize, 0).is_ok());
}
