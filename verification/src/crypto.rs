use vstd::prelude::*;
use aes_gcm::aead::{Aead, KeyInit};
use ed25519_dalek::{Signer, Verifier};
use rand::RngCore;
use sha2::Digest;

verus! {

/// A running SHA-256 computation over a byte stream.
#[verifier::external_body]
pub struct StreamDigest {
    inner: sha2::Sha256,
}

/// The bytes a `StreamDigest` has been fed so far.
pub uninterp spec fn digest_input(h: StreamDigest) -> Seq<u8>;

/// The SHA-256 digest of a byte string.
pub uninterp spec fn sha256_of(data: Seq<u8>) -> Seq<u8>;

/// Calls `sha2::Sha256::new`: a hasher that has been fed nothing.
#[verifier::external_body]
pub(crate) fn digest_new() -> (h: StreamDigest)
    ensures
        digest_input(h) == Seq::<u8>::empty(),
{
    StreamDigest { inner: sha2::Sha256::new() }
}

/// Calls `Digest::update` on the inner `sha2::Sha256`: the bytes are appended to its input.
#[verifier::external_body]
pub(crate) fn digest_update(h: &mut StreamDigest, data: &[u8])
    ensures
        digest_input(*final(h)) == digest_input(*old(h)) + data@,
{
    h.inner.update(data)
}

/// Calls `Digest::finalize` on the inner `sha2::Sha256`: the digest of all it was fed.
#[verifier::external_body]
pub(crate) fn digest_finalize(h: StreamDigest) -> (d: [u8; 32])
    ensures
        d@ == sha256_of(digest_input(h)),
{
    h.inner.finalize().into()
}

/// Largest plaintext, in bytes, that AES-256-GCM encrypts (`aes_gcm::P_MAX`).
pub const PLAINTEXT_MAX: u64 = 68719476736;

/// The ciphertext, tag appended, that AES-256-GCM makes of `plaintext` under `key` and `nonce`
/// with no associated data.
pub uninterp spec fn aes256gcm_sealed(key: Seq<u8>, nonce: Seq<u8>, plaintext: Seq<u8>) -> Seq<u8>;

/// Calls `Aead::encrypt` of `aes_gcm::Aes256Gcm`. The source refuses exactly the plaintexts
/// longer than `PLAINTEXT_MAX`; otherwise it returns the ciphertext followed by a 16-byte tag.
#[verifier::external_body]
pub(crate) fn aes256gcm_encrypt(key: &[u8; 32], nonce: &[u8; 12], plaintext: &[u8]) -> (r: Option<Vec<u8>>)
    ensures
        r is Some <==> plaintext@.len() <= PLAINTEXT_MAX,
        r matches Some(c) ==> c@ == aes256gcm_sealed(key@, nonce@, plaintext@),
        r matches Some(c) ==> c@.len() == plaintext@.len() + 16,
{
    let cipher = aes_gcm::Aes256Gcm::new(key.into());
    cipher.encrypt(aes_gcm::Nonce::from_slice(nonce), plaintext).ok()
}

/// What `Aead::decrypt` of `aes_gcm::Aes256Gcm` gives for a ciphertext, tag appended,
/// under `key` and `nonce` with no associated data: the plaintext, or `None` where the tag
/// does not check or the input is too short or too long.
pub uninterp spec fn aes256gcm_opened(key: Seq<u8>, nonce: Seq<u8>, ciphertext: Seq<u8>) -> Option<Seq<u8>>;

/// Calls `Aead::decrypt` of `aes_gcm::Aes256Gcm`; decryption is deterministic, so the
/// outcome is `aes256gcm_opened` of the arguments. What it returns is a plaintext that
/// encrypts, under the same key and nonce, to exactly the given ciphertext; and since
/// counter mode is a bijection on the message, it is the only such plaintext. A
/// ciphertext that `encrypt` made (of a plaintext it accepts) always opens; on other
/// input it fails where the tag does not match, which is not stated further.
#[verifier::external_body]
pub(crate) fn aes256gcm_decrypt(key: &[u8; 32], nonce: &[u8; 12], ciphertext: &[u8]) -> (r: Option<Vec<u8>>)
    ensures
        r matches Some(p) ==> aes256gcm_opened(key@, nonce@, ciphertext@) == Some(p@),
        r is None ==> aes256gcm_opened(key@, nonce@, ciphertext@) is None,
        r matches Some(p) ==> ciphertext@ == aes256gcm_sealed(key@, nonce@, p@),
        r is None ==> forall|q: Seq<u8>|
            q.len() <= PLAINTEXT_MAX ==> ciphertext@ != #[trigger] aes256gcm_sealed(key@, nonce@, q),
        r matches Some(p) ==> forall|q: Seq<u8>|
            q.len() <= PLAINTEXT_MAX && ciphertext@ == #[trigger] aes256gcm_sealed(key@, nonce@, q)
                ==> p@ == q,
{
    let cipher = aes_gcm::Aes256Gcm::new(key.into());
    cipher.decrypt(aes_gcm::Nonce::from_slice(nonce), ciphertext).ok()
}

/// The 32-byte PBKDF2-HMAC-SHA256 output for a password, a salt and a round count.
pub uninterp spec fn pbkdf2_hmac_sha256(password: Seq<u8>, salt: Seq<u8>, rounds: u32) -> Seq<u8>;

/// Calls `pbkdf2::pbkdf2_hmac::<sha2::Sha256>` into a 32-byte buffer.
#[verifier::external_body]
pub(crate) fn pbkdf2_sha256_32(password: &[u8], salt: &[u8], rounds: u32) -> (k: [u8; 32])
    ensures
        k@ == pbkdf2_hmac_sha256(password@, salt@, rounds),
{
    let mut key = [0u8; 32];
    pbkdf2::pbkdf2_hmac::<sha2::Sha256>(password, salt, rounds, &mut key);
    key
}

/// Fills an array from the operating system's generator (`rand::rngs::OsRng::fill_bytes`).
/// Nothing is stated of the bytes.
#[verifier::external_body]
pub(crate) fn random_bytes<const N: usize>() -> [u8; N] {
    let mut bytes = [0u8; N];
    rand::rngs::OsRng.fill_bytes(&mut bytes);
    bytes
}

/// The Ed25519 public key of a 32-byte secret key.
pub uninterp spec fn ed25519_public_key(secret: Seq<u8>) -> Seq<u8>;

/// The Ed25519 signature (RFC 8032, deterministic) of a message under a 32-byte secret key.
pub uninterp spec fn ed25519_signature(secret: Seq<u8>, message: Seq<u8>) -> Seq<u8>;

/// Whether an Ed25519 signature of a message checks against a public key.
pub uninterp spec fn ed25519_accepts(public_key: Seq<u8>, message: Seq<u8>, signature: Seq<u8>) -> bool;

/// Calls `ed25519_dalek::SigningKey::from_bytes` and `verifying_key().to_bytes()`.
#[verifier::external_body]
pub(crate) fn ed25519_public_key_of(secret: &[u8; 32]) -> (pk: [u8; 32])
    ensures
        pk@ == ed25519_public_key(secret@),
{
    ed25519_dalek::SigningKey::from_bytes(secret).verifying_key().to_bytes()
}

/// Calls `ed25519_dalek::SigningKey::from_bytes` and `Signer::sign`.
#[verifier::external_body]
pub(crate) fn ed25519_sign(secret: &[u8; 32], message: &[u8]) -> (sig: [u8; 64])
    ensures
        sig@ == ed25519_signature(secret@, message@),
{
    ed25519_dalek::SigningKey::from_bytes(secret).sign(message).to_bytes()
}

/// Calls `ed25519_dalek::VerifyingKey::from_bytes` and `Verifier::verify`: false where the
/// key bytes are not a curve point or the signature does not check. A signature that the
/// secret key of this public key made over this message checks.
#[verifier::external_body]
pub(crate) fn ed25519_verify(public_key: &[u8; 32], message: &[u8], signature: &[u8; 64]) -> (ok: bool)
    ensures
        ok == ed25519_accepts(public_key@, message@, signature@),
        forall|sk: Seq<u8>|
            sk.len() == 32 && public_key@ == #[trigger] ed25519_public_key(sk) && signature@
                == ed25519_signature(sk, message@) ==> ok,
{
    match ed25519_dalek::VerifyingKey::from_bytes(public_key) {
        Ok(vk) => vk.verify(message, &ed25519_dalek::Signature::from_bytes(signature)).is_ok(),
        Err(_) => false,
    }
}

} // verus!
