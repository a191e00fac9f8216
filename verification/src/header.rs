use vstd::prelude::*;

use crate::error::XfmtError;
use crate::models::{VERSION_MAJOR, VERSION_MINOR};

verus! {

/// Length in bytes of the fixed header.
pub const HEADER_LEN: usize = 20;

/// Largest manifest or index, in bytes, that a full unpack reads (64 MiB).
pub const MAX_METADATA_SIZE: usize = 67108864;

/// The fixed header at the start of an archive.
#[derive(Debug, Clone, Copy)]
pub struct Header {
    pub magic: [u8; 4],
    pub version_major: u16,
    pub version_minor: u16,
    pub manifest_len: u32,
    pub index_len: u32,
    pub flags: u32,
}

/// The format's magic bytes, `XFMT`.
pub open spec fn magic_bytes() -> Seq<u8> {
    seq![88u8, 70u8, 77u8, 84u8]
}

/// Two bytes, most significant first.
pub open spec fn be16_bytes(v: u16) -> Seq<u8> {
    seq![(v / 256) as u8, (v % 256) as u8]
}

/// Four bytes, most significant first.
pub open spec fn be32_bytes(v: u32) -> Seq<u8> {
    seq![(v / 16777216) as u8, ((v / 65536) % 256) as u8, ((v / 256) % 256) as u8, (v % 256) as u8]
}

/// The value of two bytes at `i`, most significant first.
pub open spec fn be16_at(b: Seq<u8>, i: int) -> int {
    b[i] * 256 + b[i + 1]
}

/// The value of four bytes at `i`, most significant first.
pub open spec fn be32_at(b: Seq<u8>, i: int) -> int {
    b[i] * 16777216 + b[i + 1] * 65536 + b[i + 2] * 256 + b[i + 3]
}

/// The header bytes written before a manifest and an index of the given lengths:
/// magic, major and minor version, the two lengths and zero flags.
pub open spec fn header_bytes(manifest_len: u32, index_len: u32) -> Seq<u8> {
    magic_bytes() + be16_bytes(VERSION_MAJOR) + be16_bytes(VERSION_MINOR) + be32_bytes(manifest_len)
        + be32_bytes(index_len) + be32_bytes(0)
}

fn push_be16(out: &mut Vec<u8>, v: u16)
    ensures
        final(out)@ == old(out)@ + be16_bytes(v),
{
    out.push((v / 256) as u8);
    out.push((v % 256) as u8);
    assert(final(out)@ =~= old(out)@ + be16_bytes(v));
}

fn push_be32(out: &mut Vec<u8>, v: u32)
    ensures
        final(out)@ == old(out)@ + be32_bytes(v),
{
    out.push((v / 16777216) as u8);
    out.push(((v / 65536) % 256) as u8);
    out.push(((v / 256) % 256) as u8);
    out.push((v % 256) as u8);
    assert(final(out)@ =~= old(out)@ + be32_bytes(v));
}

/// The header for a manifest and an index of the given lengths in bytes; lengths that
/// do not fit in 32 bits are refused.
pub fn encode_header(manifest_len: usize, index_len: usize) -> (r: Result<Vec<u8>, XfmtError>)
    ensures
        (manifest_len <= u32::MAX && index_len <= u32::MAX) <==> r is Ok,
        r matches Ok(b) ==> b@ == header_bytes(manifest_len as u32, index_len as u32),
        r matches Err(e) ==> e == XfmtError::MetadataTooLarge,
{
    if manifest_len > u32::MAX as usize || index_len > u32::MAX as usize {
        return Err(XfmtError::MetadataTooLarge);
    }
    let mut out: Vec<u8> = Vec::new();
    out.push(88);
    out.push(70);
    out.push(77);
    out.push(84);
    assert(out@ =~= magic_bytes());
    push_be16(&mut out, VERSION_MAJOR);
    push_be16(&mut out, VERSION_MINOR);
    push_be32(&mut out, manifest_len as u32);
    push_be32(&mut out, index_len as u32);
    push_be32(&mut out, 0);
    Ok(out)
}

fn be16_from(b: &[u8], i: usize) -> (v: u16)
    requires
        i + 2 <= b@.len(),
    ensures
        v == be16_at(b@, i as int),
{
    (b[i] as u16) * 256 + (b[i + 1] as u16)
}

fn be32_from(b: &[u8], i: usize) -> (v: u32)
    requires
        i + 4 <= b@.len(),
    ensures
        v == be32_at(b@, i as int),
{
    (b[i] as u32) * 16777216 + (b[i + 1] as u32) * 65536 + (b[i + 2] as u32) * 256 + (b[i + 3] as u32)
}

/// Reads the fixed header from the first 20 bytes. The magic is not checked here.
pub fn parse_header(bytes: &[u8]) -> (r: Result<Header, XfmtError>)
    ensures
        bytes@.len() >= HEADER_LEN <==> r is Ok,
        r matches Err(e) ==> e == XfmtError::TruncatedHeader,
        r matches Ok(h) ==> {
            &&& h.magic@ == bytes@.take(4)
            &&& h.version_major == be16_at(bytes@, 4)
            &&& h.version_minor == be16_at(bytes@, 6)
            &&& h.manifest_len == be32_at(bytes@, 8)
            &&& h.index_len == be32_at(bytes@, 12)
            &&& h.flags == be32_at(bytes@, 16)
        },
{
    if bytes.len() < HEADER_LEN {
        return Err(XfmtError::TruncatedHeader);
    }
    let magic = [bytes[0], bytes[1], bytes[2], bytes[3]];
    assert(magic@ =~= bytes@.take(4));
    Ok(
        Header {
            magic,
            version_major: be16_from(bytes, 4),
            version_minor: be16_from(bytes, 6),
            manifest_len: be32_from(bytes, 8),
            index_len: be32_from(bytes, 12),
            flags: be32_from(bytes, 16),
        },
    )
}

/// Accepts a header whose magic is `XFMT`.
pub fn check_magic(h: &Header) -> (r: Result<(), XfmtError>)
    ensures
        r is Ok <==> h.magic@ == magic_bytes(),
        r matches Err(e) ==> e == XfmtError::InvalidMagic,
{
    if h.magic[0] == 88 && h.magic[1] == 70 && h.magic[2] == 77 && h.magic[3] == 84 {
        assert(h.magic@ =~= magic_bytes());
        Ok(())
    } else {
        Err(XfmtError::InvalidMagic)
    }
}

/// Accepts a header whose manifest and index are each at most `MAX_METADATA_SIZE` bytes.
pub fn check_metadata_limits(h: &Header) -> (r: Result<(), XfmtError>)
    ensures
        r is Ok <==> h.manifest_len <= MAX_METADATA_SIZE && h.index_len <= MAX_METADATA_SIZE,
        r matches Err(e) ==> e == XfmtError::MetadataTooLarge,
{
    if h.manifest_len as usize > MAX_METADATA_SIZE || h.index_len as usize > MAX_METADATA_SIZE {
        Err(XfmtError::MetadataTooLarge)
    } else {
        Ok(())
    }
}

/// Where the payload region begins: after the header, the manifest and the index.
pub fn payload_start(h: &Header) -> (p: u64)
    ensures
        p == HEADER_LEN + h.manifest_len + h.index_len,
{
    20 + h.manifest_len as u64 + h.index_len as u64
}

proof fn lemma_be32_roundtrip(v: u32)
    ensures
        be32_at(be32_bytes(v), 0) == v,
{
}

/// Reading back a written header gives the magic, the version, the two lengths and zero
/// flags that were written.
pub proof fn lemma_header_roundtrip(manifest_len: u32, index_len: u32)
    ensures
        ({
            let b = header_bytes(manifest_len, index_len);
            &&& b.len() == HEADER_LEN
            &&& b.take(4) == magic_bytes()
            &&& be16_at(b, 4) == VERSION_MAJOR
            &&& be16_at(b, 6) == VERSION_MINOR
            &&& be32_at(b, 8) == manifest_len
            &&& be32_at(b, 12) == index_len
            &&& be32_at(b, 16) == 0
        }),
{
    let b = header_bytes(manifest_len, index_len);
    lemma_be32_roundtrip(manifest_len);
    lemma_be32_roundtrip(index_len);
    assert(b.take(4) =~= magic_bytes());
    assert(b.subrange(8, 12) =~= be32_bytes(manifest_len));
    assert(b.subrange(12, 16) =~= be32_bytes(index_len));
}

} // verus!
