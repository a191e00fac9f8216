use xfmt::error::XfmtError;
use xfmt::keys::{
    derive_key, generate_key_pair, key_pair_hex, new_encryption, parse_signing_key, sign_manifest,
    trim_white_space, unpack_key, verify_manifest_signature, PBKDF2_ROUNDS,
};
use xfmt::models::SecurityPolicy;

const RFC8032_SECRET: &str = "9d61b19deffd5a60ba844af492ec2cc44449c5697b326919703bac031cae7f60";
const RFC8032_PUBLIC: &str = "d75a980182b10ab7d54bfed3c964073a0ee172f3daa62325af021a68f707511a";
const RFC8032_SIG_EMPTY: &str = "e5564300c360ac729086e2cc806e828a84877f1eb8e5d974d873e065224901555fb8821590a33bacc61e39701cf9b46bd25bf5f0595bbe24655141438e7a100b";

fn secret() -> [u8; 32] {
    hex::decode(RFC8032_SECRET).unwrap().try_into().unwrap()
}

#[test]
fn derive_key_is_pbkdf2_hmac_sha256() {
    let mut expected = [0u8; 32];
    pbkdf2::pbkdf2_hmac::<sha2::Sha256>(b"pw", b"0123456789abcdef", PBKDF2_ROUNDS, &mut expected);
    assert_eq!(derive_key("pw", b"0123456789abcdef"), expected);
    assert_ne!(derive_key("pw", b"0123456789abcdeg"), expected);
}

#[test]
fn new_encryption_key_matches_its_salt() {
    let (salt, key) = new_encryption("hunter2");
    assert_eq!(derive_key("hunter2", &salt), key);
}

#[test]
fn unpack_key_follows_the_manifest() {
    let plain = SecurityPolicy { encrypted: false, signed: false, salt: None };
    assert_eq!(unpack_key(&plain, None), Ok(None));
    let enc = SecurityPolicy { encrypted: true, signed: false, salt: Some("00ff".to_string()) };
    assert_eq!(unpack_key(&enc, None), Err(XfmtError::PasswordRequired));
    assert_eq!(unpack_key(&enc, Some("pw")), Ok(Some(derive_key("pw", &[0x00, 0xff]))));
    let no_salt = SecurityPolicy { encrypted: true, signed: false, salt: None };
    assert_eq!(unpack_key(&no_salt, Some("pw")), Err(XfmtError::SaltMissing));
    let bad_salt = SecurityPolicy { encrypted: true, signed: false, salt: Some("0g".to_string()) };
    assert_eq!(unpack_key(&bad_salt, Some("pw")), Err(XfmtError::InvalidHex));
}

#[test]
fn trim_drops_unicode_white_space_at_both_ends() {
    assert_eq!(trim_white_space("  ab c\t\r\n"), "ab c");
    assert_eq!(trim_white_space("\u{3000}x\u{a0}"), "x");
    assert_eq!(trim_white_space(" \n "), "");
    assert_eq!(trim_white_space(""), "");
}

#[test]
fn signing_key_file_is_hex_with_white_space() {
    let text = format!("  {}\n", RFC8032_SECRET);
    assert_eq!(parse_signing_key(&text), Ok(secret()));
    assert_eq!(parse_signing_key("abcd\n"), Err(XfmtError::InvalidLength));
    assert_eq!(parse_signing_key("xyz"), Err(XfmtError::InvalidHex));
}

#[test]
fn key_pair_matches_rfc8032() {
    let (priv_hex, pub_hex) = key_pair_hex(&secret());
    assert_eq!(priv_hex, RFC8032_SECRET);
    assert_eq!(pub_hex, RFC8032_PUBLIC);
}

#[test]
fn signature_matches_rfc8032() {
    let (sig, pk) = sign_manifest(&secret(), b"");
    assert_eq!(sig, RFC8032_SIG_EMPTY);
    assert_eq!(pk, RFC8032_PUBLIC);
}

#[test]
fn signed_manifest_verifies() {
    let msg = br#"{"format":"XFMT"}"#;
    let (sig, pk) = sign_manifest(&secret(), msg);
    assert_eq!(verify_manifest_signature(true, Some(&sig), Some(&pk), msg), Ok(true));
}

#[test]
fn tampered_manifest_does_not_verify() {
    let (sig, pk) = sign_manifest(&secret(), b"original");
    assert_eq!(
        verify_manifest_signature(true, Some(&sig), Some(&pk), b"originaL"),
        Err(XfmtError::InvalidSignature)
    );
}

#[test]
fn stripped_signature_of_a_signed_manifest_is_refused() {
    let msg = br#"{"format":"XFMT"}"#;
    let (_sig, pk) = sign_manifest(&secret(), msg);
    assert_eq!(verify_manifest_signature(true, None, Some(&pk), msg), Err(XfmtError::SignatureMissing));
    assert_eq!(verify_manifest_signature(true, None, None, msg), Err(XfmtError::SignatureMissing));
    assert_eq!(verify_manifest_signature(false, None, Some(&pk), msg), Ok(false));
}

#[test]
fn signature_errors() {
    assert_eq!(verify_manifest_signature(false, None, None, b"m"), Ok(false));
    assert_eq!(verify_manifest_signature(true, None, None, b"m"), Err(XfmtError::SignatureMissing));
    assert_eq!(verify_manifest_signature(true, Some("00"), None, b"m"), Err(XfmtError::PublicKeyMissing));
    assert_eq!(verify_manifest_signature(true, Some("00"), Some("zz"), b"m"), Err(XfmtError::InvalidHex));
    assert_eq!(verify_manifest_signature(true, Some("00"), Some("00"), b"m"), Err(XfmtError::InvalidLength));
    assert_eq!(
        verify_manifest_signature(true, Some("00"), Some(RFC8032_PUBLIC), b"m"),
        Err(XfmtError::InvalidLength)
    );
    assert_eq!(
        verify_manifest_signature(true, Some("q"), Some(RFC8032_PUBLIC), b"m"),
        Err(XfmtError::InvalidHex)
    );
}

#[test]
fn generated_key_pair_is_consistent() {
    let (priv_hex, pub_hex) = generate_key_pair();
    assert_eq!(priv_hex.len(), 64);
    let s: [u8; 32] = hex::decode(&priv_hex).unwrap().try_into().unwrap();
    assert_eq!(key_pair_hex(&s).1, pub_hex);
}
