use vstd::prelude::*;
use vstd::string::StringSliceAdditionalSpecFns;

use crate::crypto::{
    ed25519_accepts, ed25519_public_key, ed25519_public_key_of, ed25519_sign, ed25519_signature,
    ed25519_verify, pbkdf2_hmac_sha256, pbkdf2_sha256_32, random_bytes,
};
use crate::error::XfmtError;
use crate::hex::{decode_hex, hex_decode, hex_encode, hex_string};
use crate::models::SecurityPolicy;

verus! {

/// PBKDF2 rounds of the key derivation.
pub const PBKDF2_ROUNDS: u32 = 100000;

/// The AES-256 key for a password and a salt: PBKDF2-HMAC-SHA256 over the password's
/// UTF-8 bytes, `PBKDF2_ROUNDS` rounds.
pub fn derive_key(password: &str, salt: &[u8]) -> (k: [u8; 32])
    ensures
        k@ == pbkdf2_hmac_sha256(password.spec_bytes(), salt@, PBKDF2_ROUNDS),
{
    pbkdf2_sha256_32(password.as_bytes(), salt, PBKDF2_ROUNDS)
}

/// A fresh random salt and the key the password derives with it.
pub fn new_encryption(password: &str) -> (r: ([u8; 16], [u8; 32]))
    ensures
        r.1@ == pbkdf2_hmac_sha256(password.spec_bytes(), r.0@, PBKDF2_ROUNDS),
{
    let salt: [u8; 16] = random_bytes();
    let key = derive_key(password, &salt);
    (salt, key)
}

/// The key an archive's chunks are sealed under: none for an archive that is not
/// encrypted; otherwise the key the password derives with the manifest's salt. An
/// encrypted archive needs a password, then a salt, in hex.
pub fn unpack_key(security: &SecurityPolicy, password: Option<&str>) -> (r: Result<Option<[u8; 32]>, XfmtError>)
    ensures
        !security.encrypted ==> r == Ok::<Option<[u8; 32]>, XfmtError>(None),
        security.encrypted && password is None ==> r == Err::<Option<[u8; 32]>, XfmtError>(
            XfmtError::PasswordRequired,
        ),
        security.encrypted && password is Some && security.salt is None ==> r == Err::<
            Option<[u8; 32]>,
            XfmtError,
        >(XfmtError::SaltMissing),
        security.encrypted && password is Some ==> (security.salt matches Some(s) && hex_decode(s@) is None
            ==> r == Err::<Option<[u8; 32]>, XfmtError>(XfmtError::InvalidHex)),
        security.encrypted ==> (password matches Some(pw) ==> (security.salt matches Some(s)
            ==> (hex_decode(s@) matches Some(salt) ==> r matches Ok(Some(k)) && k@
            == pbkdf2_hmac_sha256(pw.spec_bytes(), salt, PBKDF2_ROUNDS)))),
{
    if !security.encrypted {
        return Ok(None);
    }
    let pw = match password {
        Some(p) => p,
        None => {
            return Err(XfmtError::PasswordRequired);
        },
    };
    let salt_text = match &security.salt {
        Some(s) => s,
        None => {
            return Err(XfmtError::SaltMissing);
        },
    };
    let salt = match decode_hex(salt_text.as_str()) {
        Some(b) => b,
        None => {
            return Err(XfmtError::InvalidHex);
        },
    };
    Ok(Some(derive_key(pw, salt.as_slice())))
}

/// The Unicode `White_Space` characters, which `char::is_whitespace` accepts.
pub open spec fn is_white_space(c: char) -> bool {
    ||| '\t' <= c <= '\r'
    ||| c == ' '
    ||| c == '\u{85}'
    ||| c == '\u{a0}'
    ||| c == '\u{1680}'
    ||| '\u{2000}' <= c <= '\u{200a}'
    ||| c == '\u{2028}'
    ||| c == '\u{2029}'
    ||| c == '\u{202f}'
    ||| c == '\u{205f}'
    ||| c == '\u{3000}'
}

pub(crate) fn white_space(c: char) -> (r: bool)
    ensures
        r == is_white_space(c),
{
    ('\t' <= c && c <= '\r') || c == ' ' || c == '\u{85}' || c == '\u{a0}' || c == '\u{1680}' || (
    '\u{2000}' <= c && c <= '\u{200a}') || c == '\u{2028}' || c == '\u{2029}' || c == '\u{202f}'
        || c == '\u{205f}' || c == '\u{3000}'
}

/// `s` without its leading and trailing white space: the characters from the first to
/// the last that are not white space.
pub open spec fn is_trim_of(s: Seq<char>, t: Seq<char>) -> bool {
    exists|a: int, b: int|
        0 <= a <= b <= s.len() && t == s.subrange(a, b) && (forall|j: int|
            0 <= j < a ==> is_white_space(#[trigger] s[j])) && (forall|j: int|
            b <= j < s.len() ==> is_white_space(#[trigger] s[j])) && (a < b ==> !is_white_space(s[a])
            && !is_white_space(s[b - 1]))
}

/// `s` without leading and trailing white space (`str::trim`).
pub fn trim_white_space(s: &str) -> (t: String)
    ensures
        is_trim_of(s@, t@),
{
    let n = s.unicode_len();
    let mut a: usize = 0;
    while a < n && white_space(s.get_char(a))
        invariant
            n == s@.len(),
            a <= n,
            forall|j: int| 0 <= j < a ==> is_white_space(#[trigger] s@[j]),
        decreases n - a,
    {
        a = a + 1;
    }
    let mut b: usize = n;
    while b > a && white_space(s.get_char(b - 1))
        invariant
            n == s@.len(),
            a <= b <= n,
            a < n ==> !is_white_space(s@[a as int]),
            forall|j: int| b <= j < n ==> is_white_space(#[trigger] s@[j]),
        decreases b - a,
    {
        b = b - 1;
    }
    let t = s.substring_char(a, b).to_owned();
    assert(is_trim_of(s@, t@)) by {
        assert(t@ == s@.subrange(a as int, b as int));
    }
    t
}

/// The 32-byte secret key written, in hex and with white space around it, in a key file.
pub fn parse_signing_key(text: &str) -> (r: Result<[u8; 32], XfmtError>)
    ensures
        r matches Ok(k) ==> exists|t: Seq<char>| is_trim_of(text@, t) && hex_decode(t) == Some(k@),
        r matches Err(e) ==> e == XfmtError::InvalidHex || e == XfmtError::InvalidLength,
        forall|t: Seq<char>| #[trigger] is_trim_of(text@, t) ==> match hex_decode(t) {
            None => r == Err::<[u8; 32], XfmtError>(XfmtError::InvalidHex),
            Some(b) => (b.len() == 32) == (r is Ok),
        },
{
    let t = trim_white_space(text);
    proof {
        lemma_trim_unique(text@, t@);
    }
    let bytes = match decode_hex(t.as_str()) {
        Some(b) => b,
        None => {
            return Err(XfmtError::InvalidHex);
        },
    };
    if bytes.len() != 32 {
        return Err(XfmtError::InvalidLength);
    }
    let mut k = [0u8; 32];
    let mut i: usize = 0;
    while i < 32
        invariant
            bytes@.len() == 32,
            i <= 32,
            forall|j: int| 0 <= j < i ==> k@[j] == bytes@[j],
        decreases 32 - i,
    {
        k.set(i, bytes[i]);
        i = i + 1;
    }
    assert(k@ =~= bytes@);
    Ok(k)
}

proof fn lemma_trim_unique(s: Seq<char>, t: Seq<char>)
    requires
        is_trim_of(s, t),
    ensures
        forall|u: Seq<char>| #[trigger] is_trim_of(s, u) ==> u == t,
{
    let (a, b) = choose|a: int, b: int|
        0 <= a <= b <= s.len() && t == s.subrange(a, b) && (forall|j: int|
            0 <= j < a ==> is_white_space(#[trigger] s[j])) && (forall|j: int|
            b <= j < s.len() ==> is_white_space(#[trigger] s[j])) && (a < b ==> !is_white_space(s[a])
            && !is_white_space(s[b - 1]));
    assert forall|u: Seq<char>| #[trigger] is_trim_of(s, u) implies u == t by {
        let (c, d) = choose|c: int, d: int|
            0 <= c <= d <= s.len() && u == s.subrange(c, d) && (forall|j: int|
                0 <= j < c ==> is_white_space(#[trigger] s[j])) && (forall|j: int|
                d <= j < s.len() ==> is_white_space(#[trigger] s[j])) && (c < d ==> !is_white_space(s[c])
                && !is_white_space(s[d - 1]));
        if a < b && c < d {
            assert(a == c) by {
                if a < c {
                    assert(is_white_space(s[a]));
                } else if c < a {
                    assert(is_white_space(s[c]));
                }
            }
            assert(b == d) by {
                if b < d {
                    assert(is_white_space(s[d - 1]));
                } else if d < b {
                    assert(is_white_space(s[b - 1]));
                }
            }
        } else if a < b {
            assert(is_white_space(s[a]));
        } else if c < d {
            assert(is_white_space(s[c]));
        }
        assert(u =~= t);
    }
}

/// The hex signature of a manifest's bytes under a secret key, and the hex public key.
pub fn sign_manifest(secret: &[u8; 32], manifest_json: &[u8]) -> (r: (String, String))
    ensures
        r.0@ == hex_encode(ed25519_signature(secret@, manifest_json@)),
        r.1@ == hex_encode(ed25519_public_key(secret@)),
        ed25519_signature(secret@, manifest_json@).len() == 64,
        ed25519_public_key(secret@).len() == 32,
{
    let sig = ed25519_sign(secret, manifest_json);
    let pk = ed25519_public_key_of(secret);
    (hex_string(&sig), hex_string(&pk))
}

fn to_array_32(v: &Vec<u8>) -> (a: [u8; 32])
    requires
        v@.len() == 32,
    ensures
        a@ == v@,
{
    let mut a = [0u8; 32];
    let mut i: usize = 0;
    while i < 32
        invariant
            v@.len() == 32,
            i <= 32,
            forall|j: int| 0 <= j < i ==> a@[j] == v@[j],
        decreases 32 - i,
    {
        a.set(i, v[i]);
        i = i + 1;
    }
    assert(a@ =~= v@);
    a
}

fn to_array_64(v: &Vec<u8>) -> (a: [u8; 64])
    requires
        v@.len() == 64,
    ensures
        a@ == v@,
{
    let mut a = [0u8; 64];
    let mut i: usize = 0;
    while i < 64
        invariant
            v@.len() == 64,
            i <= 64,
            forall|j: int| 0 <= j < i ==> a@[j] == v@[j],
        decreases 64 - i,
    {
        a.set(i, v[i]);
        i = i + 1;
    }
    assert(a@ =~= v@);
    a
}

/// What checking a manifest's signature gives: `Ok(false)` for a manifest that is not
/// marked signed and carries no signature, `SignatureMissing` for one marked signed that
/// carries none, `Ok(true)` for a signature that checks, else the error.
pub open spec fn signature_outcome(
    signed: bool,
    signature: Option<Seq<char>>,
    public_key: Option<Seq<char>>,
    message: Seq<u8>,
) -> Result<bool, XfmtError> {
    match signature {
        None => if signed {
            Err(XfmtError::SignatureMissing)
        } else {
            Ok(false)
        },
        Some(sig) => match public_key {
            None => Err(XfmtError::PublicKeyMissing),
            Some(pk) => match hex_decode(pk) {
                None => Err(XfmtError::InvalidHex),
                Some(pkb) => if pkb.len() != 32 {
                    Err(XfmtError::InvalidLength)
                } else {
                    match hex_decode(sig) {
                        None => Err(XfmtError::InvalidHex),
                        Some(sb) => if sb.len() != 64 {
                            Err(XfmtError::InvalidLength)
                        } else if ed25519_accepts(pkb, message, sb) {
                            Ok(true)
                        } else {
                            Err(XfmtError::InvalidSignature)
                        },
                    }
                },
            },
        },
    }
}

/// Checks the signature of a manifest, given in hex with its hex public key, against the
/// manifest's bytes with signature and key left out; `signed` is the manifest's own mark
/// that it was signed, so that a signature taken out of a signed manifest is refused. A
/// signature that `sign_manifest` made over those bytes checks.
pub fn verify_manifest_signature(
    signed: bool,
    signature: Option<&str>,
    public_key: Option<&str>,
    unsigned_manifest_json: &[u8],
) -> (r: Result<bool, XfmtError>)
    ensures
        r == signature_outcome(
            signed,
            match signature {
                Some(s) => Some(s@),
                None => None,
            },
            match public_key {
                Some(p) => Some(p@),
                None => None,
            },
            unsigned_manifest_json@,
        ),
        forall|sk: Seq<u8>|
            sk.len() == 32 && ed25519_signature(sk, unsigned_manifest_json@).len() == 64
                && ed25519_public_key(sk).len() == 32 && (signature matches Some(s) && s@
                == hex_encode(#[trigger] ed25519_signature(sk, unsigned_manifest_json@)))
                && (public_key matches Some(p) && p@ == hex_encode(ed25519_public_key(sk)))
                ==> r == Ok::<bool, XfmtError>(true),
{
    let sig_text = match signature {
        Some(s) => s,
        None => {
            if signed {
                return Err(XfmtError::SignatureMissing);
            }
            return Ok(false);
        },
    };
    let pk_text = match public_key {
        Some(p) => p,
        None => {
            return Err(XfmtError::PublicKeyMissing);
        },
    };
    let pkb = match decode_hex(pk_text) {
        Some(b) => b,
        None => {
            return Err(XfmtError::InvalidHex);
        },
    };
    if pkb.len() != 32 {
        return Err(XfmtError::InvalidLength);
    }
    let sb = match decode_hex(sig_text) {
        Some(b) => b,
        None => {
            return Err(XfmtError::InvalidHex);
        },
    };
    if sb.len() != 64 {
        return Err(XfmtError::InvalidLength);
    }
    let pk = to_array_32(&pkb);
    let sig = to_array_64(&sb);
    let ok = ed25519_verify(&pk, unsigned_manifest_json, &sig);
    proof {
        assert forall|sk: Seq<u8>|
            sk.len() == 32 && ed25519_signature(sk, unsigned_manifest_json@).len() == 64
                && ed25519_public_key(sk).len() == 32 && sig_text@ == hex_encode(
                #[trigger] ed25519_signature(sk, unsigned_manifest_json@),
            ) && pk_text@ == hex_encode(ed25519_public_key(sk)) implies ok by {
            crate::hex::lemma_hex_roundtrip(ed25519_signature(sk, unsigned_manifest_json@));
            crate::hex::lemma_hex_roundtrip(ed25519_public_key(sk));
        }
    }
    if ok {
        Ok(true)
    } else {
        Err(XfmtError::InvalidSignature)
    }
}

/// A hex key pair for a 32-byte secret key: the secret and its public key.
pub fn key_pair_hex(secret: &[u8; 32]) -> (r: (String, String))
    ensures
        r.0@ == hex_encode(secret@),
        r.1@ == hex_encode(ed25519_public_key(secret@)),
{
    let pk = ed25519_public_key_of(secret);
    (hex_string(secret), hex_string(&pk))
}

/// A new hex key pair from a random secret key (`SigningKey::generate` over `OsRng`).
pub fn generate_key_pair() -> (r: (String, String))
    ensures
        exists|secret: Seq<u8>|
            secret.len() == 32 && r.0@ == hex_encode(secret) && r.1@ == hex_encode(
                #[trigger] ed25519_public_key(secret),
            ),
{
    let secret: [u8; 32] = random_bytes();
    key_pair_hex(&secret)
}

} // verus!
