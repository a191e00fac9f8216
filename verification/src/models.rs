use vstd::prelude::*;

verus! {

/// Archive-wide metadata, stored right after the header.
#[derive(Debug, Clone)]
pub struct Manifest {
    pub format: String,
    pub version: String,
    pub object_id: String,
    pub original_name: String,
    pub original_type: String,
    pub original_size: u64,
    pub transform_profile: String,
    pub chunking: ChunkingPolicy,
    pub integrity: IntegrityPolicy,
    pub security: SecurityPolicy,
    pub compatibility: CompatibilityFlags,
    pub parity: Option<ParityConfig>,
    pub repository_path: Option<String>,
    /// Hex-encoded Ed25519 signature.
    pub signature: Option<String>,
    /// Hex-encoded Ed25519 public key.
    pub public_key: Option<String>,
    /// Image or video technical details.
    pub media_info: Option<MediaInfo>,
    /// The files of a bundled folder, in the order their bytes follow each other.
    pub bundle_files: Option<Vec<BundleEntry>>,
}

/// One file of a bundled folder: where its bytes lie in the bundled stream.
#[derive(Debug, Clone)]
pub struct BundleEntry {
    pub rel_path: String,
    pub size: u64,
    pub offset: u64,
}

#[derive(Debug, Clone)]
pub struct MediaInfo {
    pub width: usize,
    pub height: usize,
    pub format: String,
}

#[derive(Debug, Clone)]
pub struct ParityConfig {
    pub data_shards: usize,
    pub parity_shards: usize,
    pub shard_size: usize,
}

#[derive(Debug, Clone)]
pub struct ChunkingPolicy {
    pub mode: String,
    pub min_size: u32,
    pub avg_size: u32,
    pub max_size: u32,
}

#[derive(Debug, Clone)]
pub struct IntegrityPolicy {
    pub hash: String,
    pub tree: String,
}

#[derive(Debug, Clone)]
pub struct SecurityPolicy {
    pub encrypted: bool,
    pub signed: bool,
    /// Hex-encoded salt of the key derivation.
    pub salt: Option<String>,
}

#[derive(Debug, Clone)]
pub struct CompatibilityFlags {
    pub fallback_payload: bool,
    pub legacy_preview: bool,
}

/// Where one chunk of the source lies, in the source and in the payload region.
#[derive(Debug, Clone)]
pub struct IndexEntry {
    pub chunk_id: String,
    pub source_offset: u64,
    pub source_length: u64,
    pub stored_offset: u64,
    pub stored_length: u64,
    pub codec: String,
    pub digest: String,
    /// Hex-encoded AES-GCM nonce of an encrypted chunk.
    pub nonce: Option<String>,
}

pub const VERSION_MAJOR: u16 = 0;

pub const VERSION_MINOR: u16 = 1;

} // verus!
