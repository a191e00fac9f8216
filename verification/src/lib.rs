//! XFMT: a reversible, chunked archive format. A source stream is cut into chunks, each
//! chunk stored once (compressed with zstd and, with a password, sealed with AES-256-GCM),
//! and an index maps every source byte to the stored chunk that holds it, so that any byte
//! range can be read back without unpacking the rest.

pub mod codec;
pub mod crypto;
pub mod error;
pub mod header;
pub mod keys;
pub mod manifest;
pub mod hex;
pub mod models;
pub mod pack;
pub mod repo;
pub mod serve;
pub mod unpack;
