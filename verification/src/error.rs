use vstd::prelude::*;

verus! {

/// Why an archive could not be written or read.
#[derive(Debug, Clone, Copy, PartialEq, Eq, Structural)]
pub enum XfmtError {
    /// The first four bytes are not the format's magic.
    InvalidMagic,
    /// Fewer bytes than the fixed header holds.
    TruncatedHeader,
    /// Manifest or index longer than the reader accepts.
    MetadataTooLarge,
    /// The archive is encrypted and no password was given.
    PasswordRequired,
    /// The archive is encrypted and the manifest holds no salt.
    SaltMissing,
    /// An encrypted chunk whose index entry holds no nonce.
    NonceMissing,
    /// Text that was to be hexadecimal is not.
    InvalidHex,
    /// Decoded bytes of the wrong length for a key, nonce or signature.
    InvalidLength,
    /// A chunk id with a character other than a hex digit, `:`, `_` or `-`.
    InvalidChunkId,
    /// A chunk id shorter than two characters.
    ChunkIdTooShort,
    /// A chunk too long for AES-256-GCM.
    EncryptionFailed,
    /// A stored chunk whose authentication tag does not check.
    DecryptionFailed,
    /// zstd could not decompress a stored chunk.
    DecompressionFailed,
    /// An index entry whose chunk is longer than a reader decompresses.
    ChunkTooLarge,
    /// A stored chunk that decompresses to fewer bytes than its entry says.
    CorruptChunk,
    /// An offset or size that does not fit in 64 bits.
    OffsetOverflow,
    /// A manifest marked signed that carries no signature.
    SignatureMissing,
    /// A signed manifest without its public key.
    PublicKeyMissing,
    /// A signature that does not check against the manifest.
    InvalidSignature,
}

} // verus!
