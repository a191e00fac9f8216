use vstd::prelude::*;
use std::collections::HashMap;

use crate::codec::{zstd_compress, zstd_frame};
use crate::crypto::{
    aes256gcm_encrypt, aes256gcm_sealed, digest_finalize, digest_input, digest_new, digest_update,
    random_bytes, sha256_of, StreamDigest, PLAINTEXT_MAX,
};
use crate::error::XfmtError;
use crate::hex::{hex_decode, hex_encode, hex_string, lemma_hex_roundtrip};
use crate::models::IndexEntry;

verus! {

broadcast use vstd::std_specs::hash::group_hash_axioms;

/// The label under which a chunk digest is recorded: `sha256:` and its lower-case hex.
pub open spec fn digest_label(d: Seq<u8>) -> Seq<char> {
    "sha256:"@ + hex_encode(d)
}

/// The bytes that stand in the payload region for a chunk: its zstd frame, sealed with
/// AES-256-GCM under the nonce where the archive has a key.
pub open spec fn stored_form(key: Option<Seq<u8>>, nonce: Seq<u8>, chunk: Seq<u8>, level: i32) -> Seq<u8> {
    match key {
        Some(k) => aes256gcm_sealed(k, nonce, zstd_frame(chunk, level)),
        None => zstd_frame(chunk, level),
    }
}

/// How many bytes a chunk takes in the payload: its zstd frame, and the 16-byte
/// authentication tag where the archive has a key.
pub open spec fn stored_size(key: Option<Seq<u8>>, chunk: Seq<u8>, level: i32) -> int {
    if key is Some {
        zstd_frame(chunk, level).len() + 16int
    } else {
        zstd_frame(chunk, level).len() as int
    }
}

/// An entry's nonce text in the form the reader takes: hex for exactly 12 bytes.
pub open spec fn nonce_ok(nonce: Option<String>) -> bool {
    nonce matches Some(s) && hex_decode(s@) matches Some(b) && b.len() == 12
}

/// A chunk whose stored form can be opened again: a frame that is sealed is short enough
/// for AES-256-GCM.
pub open spec fn openable(key: Option<Seq<u8>>, chunk: Seq<u8>, level: i32) -> bool {
    key is Some ==> zstd_frame(chunk, level).len() <= PLAINTEXT_MAX
}

/// The nonce text of an entry as characters.
pub open spec fn nonce_text(nonce: Option<String>) -> Option<Seq<char>> {
    match nonce {
        Some(s) => Some(s@),
        None => None,
    }
}

/// The nonce bytes that an entry's nonce text denotes (empty where there are none).
pub open spec fn nonce_bytes(nonce: Option<String>) -> Seq<u8> {
    match nonce {
        Some(s) => match hex_decode(s@) {
            Some(b) => b,
            None => Seq::empty(),
        },
        None => Seq::empty(),
    }
}

/// One past the last source byte of an entry.
pub open spec fn source_end(e: IndexEntry) -> int {
    e.source_offset + e.source_length
}

/// One past the last payload byte of an entry.
pub open spec fn stored_end(e: IndexEntry) -> int {
    e.stored_offset + e.stored_length
}

/// The source bytes an entry describes.
pub open spec fn chunk_of(source: Seq<u8>, e: IndexEntry) -> Seq<u8> {
    source.subrange(e.source_offset as int, source_end(e))
}

/// The payload bytes an entry points at.
pub open spec fn stored_of(payload: Seq<u8>, e: IndexEntry) -> Seq<u8> {
    payload.subrange(e.stored_offset as int, stored_end(e))
}

/// Entries that cover `source` in order, each starting where the previous one ends.
pub open spec fn tiles(entries: Seq<IndexEntry>, source: Seq<u8>) -> bool {
    &&& entries.len() == 0 ==> source.len() == 0
    &&& entries.len() > 0 ==> entries[0].source_offset == 0 && source_end(entries.last())
        == source.len()
    &&& forall|i: int|
        0 <= i < entries.len() - 1 ==> #[trigger] entries[i + 1].source_offset == source_end(
            entries[i],
        )
    &&& forall|i: int| 0 <= i < entries.len() ==> source_end(#[trigger] entries[i]) <= source.len()
}

/// The bucket of the dedup table in which a digest is filed: its first eight bytes.
spec fn digest_bucket(d: Seq<u8>) -> u64 {
    (d[0] as u64) << 56u64 | (d[1] as u64) << 48u64 | (d[2] as u64) << 40u64 | (d[3] as u64)
        << 32u64 | (d[4] as u64) << 24u64 | (d[5] as u64) << 16u64 | (d[6] as u64) << 8u64 | (
    d[7] as u64)
}

fn same_digest(a: &[u8; 32], b: &[u8; 32]) -> (r: bool)
    ensures
        r == (a@ == b@),
{
    let mut i: usize = 0;
    while i < 32
        invariant
            i <= 32,
            forall|j: int| 0 <= j < i ==> a@[j] == b@[j],
        decreases 32 - i,
    {
        if a[i] != b[i] {
            return false;
        }
        i = i + 1;
    }
    assert(a@ =~= b@);
    true
}

proof fn lemma_subrange_of_extended(s: Seq<u8>, t: Seq<u8>, a: int, b: int)
    requires
        0 <= a <= b <= s.len(),
    ensures
        (s + t).subrange(a, b) == s.subrange(a, b),
{
    assert((s + t).subrange(a, b) =~= s.subrange(a, b));
}

/// The SHA-256 digest of a chunk.
fn chunk_digest(chunk: &[u8]) -> (d: [u8; 32])
    ensures
        d@ == sha256_of(chunk@),
{
    let mut h = digest_new();
    digest_update(&mut h, chunk);
    let d = digest_finalize(h);
    proof {
        assert(digest_input(h) =~= chunk@);
    }
    d
}

fn bucket_key(d: &[u8; 32]) -> (k: u64)
    ensures
        k == digest_bucket(d@),
{
    (d[0] as u64) << 56u64 | (d[1] as u64) << 48u64 | (d[2] as u64) << 40u64 | (d[3] as u64)
        << 32u64 | (d[4] as u64) << 24u64 | (d[5] as u64) << 16u64 | (d[6] as u64) << 8u64 | (
    d[7] as u64)
}

/// The archive written for `input` where no output is named: `input` and `.xfmt`.
pub fn default_archive_path(input: &str) -> (r: String)
    ensures
        r@ == input@ + ".xfmt"@,
{
    let mut r = input.to_owned();
    r.append(".xfmt");
    r
}

/// Where stored chunks are spooled while `output` is written: `output` and `.payloads`.
pub fn payload_spool_path(output: &str) -> (r: String)
    ensures
        r@ == output@ + ".payloads"@,
{
    let mut r = output.to_owned();
    r.append(".payloads");
    r
}

/// Whether no entry before `i` records the digest of entry `i`: the first entry of its
/// chunk, the one whose stored form was written.
pub open spec fn first_of_digest(entries: Seq<IndexEntry>, i: int) -> bool {
    forall|j: int| 0 <= j < i ==> #[trigger] entries[j].digest@ != entries[i].digest@
}

/// The payload bytes that the first `k` entries point at, taking each chunk once (at the
/// first entry of its digest), joined in index order.
pub open spec fn fresh_regions(entries: Seq<IndexEntry>, payload: Seq<u8>, k: int) -> Seq<u8>
    decreases k,
{
    if k <= 0 {
        Seq::empty()
    } else if first_of_digest(entries, k - 1) {
        fresh_regions(entries, payload, k - 1) + stored_of(payload, entries[k - 1])
    } else {
        fresh_regions(entries, payload, k - 1)
    }
}

proof fn lemma_label_injective(a: Seq<u8>, b: Seq<u8>)
    requires
        digest_label(a) == digest_label(b),
    ensures
        a == b,
{
    let pre = "sha256:"@;
    assert(hex_encode(a) =~= digest_label(a).subrange(pre.len() as int, digest_label(a).len() as int));
    assert(hex_encode(b) =~= digest_label(b).subrange(pre.len() as int, digest_label(b).len() as int));
    lemma_hex_roundtrip(a);
    lemma_hex_roundtrip(b);
}

/// A chunk that was stored: its digest and where its stored form lies.
struct ChunkRecord {
    digest: [u8; 32],
    stored_offset: u64,
    stored_length: u64,
    nonce: Option<[u8; 12]>,
}

spec fn record_nonce(n: Option<[u8; 12]>) -> Seq<u8> {
    match n {
        Some(b) => b@,
        None => Seq::empty(),
    }
}

/// Turns a stream of chunks into index entries and the stored forms of the chunks not
/// seen before.
pub struct Packer {
    index: Vec<IndexEntry>,
    source_offset: u64,
    stored_offset: u64,
    records: Vec<ChunkRecord>,
    buckets: HashMap<u64, Vec<usize>>,
    hasher: StreamDigest,
    key: Option<[u8; 32]>,
    level: i32,
    source: Ghost<Seq<u8>>,
    payload: Ghost<Seq<u8>>,
    entry_record: Ghost<Seq<int>>,
    record_entry: Ghost<Seq<int>>,
}

impl Packer {
    /// Every byte fed so far.
    pub closed spec fn source(&self) -> Seq<u8> {
        self.source@
    }

    /// Every stored form handed out so far, in order.
    pub closed spec fn payload(&self) -> Seq<u8> {
        self.payload@
    }

    /// The index entries so far.
    pub closed spec fn entries(&self) -> Seq<IndexEntry> {
        self.index@
    }

    pub closed spec fn key(&self) -> Option<Seq<u8>> {
        match self.key {
            Some(k) => Some(k@),
            None => None,
        }
    }

    pub closed spec fn level(&self) -> i32 {
        self.level
    }

    spec fn chunk(&self, i: int) -> Seq<u8> {
        chunk_of(self.source@, self.index@[i])
    }

    spec fn entry_ok(&self, i: int) -> bool {
        let e = self.index@[i];
        let r = self.entry_record@[i];
        let rec = self.records@[r];
        &&& 0 <= r < self.records@.len()
        &&& rec.digest@ == sha256_of(self.chunk(i))
        &&& e.digest@ == digest_label(sha256_of(self.chunk(i)))
        &&& e.chunk_id@ == e.digest@
        &&& e.codec@ == "zstd"@
        &&& e.stored_offset == rec.stored_offset
        &&& e.stored_length == rec.stored_length
        &&& match (e.nonce, rec.nonce) {
            (Some(s), Some(b)) => s@ == hex_encode(b@),
            (None, None) => true,
            _ => false,
        }
    }

    spec fn record_ok(&self, r: int) -> bool {
        let j = self.record_entry@[r];
        let rec = self.records@[r];
        &&& 0 <= j < self.index@.len()
        &&& self.entry_record@[j] == r
        &&& rec.stored_offset + rec.stored_length <= self.payload@.len()
        &&& self.payload@.subrange(rec.stored_offset as int, rec.stored_offset + rec.stored_length)
            == stored_form(self.key(), record_nonce(rec.nonce), self.chunk(j), self.level)
        &&& openable(self.key(), self.chunk(j), self.level)
        &&& (rec.nonce is Some <==> self.key is Some)
    }

    spec fn buckets_ok(&self) -> bool {
        let m = self.buckets@;
        &&& forall|r: int|
            0 <= r < self.records@.len() ==> {
                let k = digest_bucket(#[trigger] self.records@[r].digest@);
                &&& m.contains_key(k)
                &&& m[k]@.contains(r as usize)
            }
        &&& forall|k: u64, t: int|
            #![trigger m[k]@[t]]
            m.contains_key(k) && 0 <= t < m[k]@.len() ==> {
                let r = m[k]@[t];
                &&& r < self.records@.len()
                &&& digest_bucket(self.records@[r as int].digest@) == k
            }
    }

    /// The packer's invariant.
    pub closed spec fn wf(&self) -> bool {
        &&& self.source_offset == self.source@.len()
        &&& self.stored_offset == self.payload@.len()
        &&& digest_input(self.hasher) == self.source@
        &&& tiles(self.index@, self.source@)
        &&& self.entry_record@.len() == self.index@.len()
        &&& self.record_entry@.len() == self.records@.len()
        &&& forall|i: int| 0 <= i < self.index@.len() ==> #[trigger] self.entry_ok(i)
        &&& forall|r: int| 0 <= r < self.records@.len() ==> #[trigger] self.record_ok(r)
        &&& forall|r1: int, r2: int|
            0 <= r1 < self.records@.len() && 0 <= r2 < self.records@.len() && r1 != r2
                ==> #[trigger] self.records@[r1].digest@ != #[trigger] self.records@[r2].digest@
        &&& self.buckets_ok()
        &&& self.records_laid_out()
    }

    /// The stored forms of the records lie end to end in the payload, in the order in which
    /// their chunks first appeared.
    spec fn records_laid_out(&self) -> bool {
        let recs = self.records@;
        &&& recs.len() == 0 ==> self.payload@.len() == 0
        &&& recs.len() > 0 ==> recs[0].stored_offset == 0 && recs.last().stored_offset
            + recs.last().stored_length == self.payload@.len()
        &&& forall|r: int|
            0 <= r < recs.len() - 1 ==> #[trigger] recs[r + 1].stored_offset == recs[r].stored_offset
                + recs[r].stored_length
        &&& forall|r1: int, r2: int|
            0 <= r1 < r2 < recs.len() ==> #[trigger] self.record_entry@[r1]
                < #[trigger] self.record_entry@[r2]
        &&& forall|i: int|
            0 <= i < self.index@.len() ==> self.record_entry@[#[trigger] self.entry_record@[i]] <= i
    }

    /// A packer that has been fed nothing. Chunks are compressed at `level` and, where
    /// `key` is given, sealed with AES-256-GCM under it.
    pub fn new(key: Option<[u8; 32]>, level: i32) -> (p: Packer)
        ensures
            p.wf(),
            p.source() == Seq::<u8>::empty(),
            p.payload() == Seq::<u8>::empty(),
            p.entries() == Seq::<IndexEntry>::empty(),
            p.key() == (match key {
                Some(k) => Some(k@),
                None => None::<Seq<u8>>,
            }),
            p.level() == level,
    {
        let p = Packer {
            index: Vec::new(),
            source_offset: 0,
            stored_offset: 0,
            records: Vec::new(),
            buckets: HashMap::new(),
            hasher: digest_new(),
            key,
            level,
            source: Ghost(Seq::empty()),
            payload: Ghost(Seq::empty()),
            entry_record: Ghost(Seq::empty()),
            record_entry: Ghost(Seq::empty()),
        };
        assert(p.index@ =~= Seq::<IndexEntry>::empty());
        p
    }

    /// Whether some chunk fed so far has the SHA-256 digest `d`.
    pub open spec fn seen(&self, d: Seq<u8>) -> bool {
        exists|i: int|
            0 <= i < self.entries().len() && #[trigger] sha256_of(
                chunk_of(self.source(), self.entries()[i]),
            ) == d
    }

    /// Why feeding `chunk` may be refused: offsets that would not fit in 64 bits, or a
    /// fresh chunk whose frame is too long to seal.
    pub open spec fn refused(old: Packer, chunk: Seq<u8>, e: XfmtError) -> bool {
        &&& e == XfmtError::OffsetOverflow || e == XfmtError::EncryptionFailed
        &&& e == XfmtError::OffsetOverflow ==> old.source().len() + chunk.len() > u64::MAX || (
        !old.seen(sha256_of(chunk)) && old.payload().len() + stored_size(old.key(), chunk, old.level())
            > u64::MAX)
        &&& e == XfmtError::EncryptionFailed ==> !old.seen(sha256_of(chunk)) && old.key() is Some
            && zstd_frame(chunk, old.level()).len() > PLAINTEXT_MAX
    }

    /// Whether feeding `chunk` succeeds: its source offsets fit in 64 bits, and a fresh
    /// chunk can be sealed and its stored form fits after the payload so far.
    pub open spec fn accepts(old: Packer, chunk: Seq<u8>) -> bool {
        &&& old.source().len() + chunk.len() <= u64::MAX
        &&& !old.seen(sha256_of(chunk)) ==> openable(old.key(), chunk, old.level())
            && old.payload().len() + stored_size(old.key(), chunk, old.level()) <= u64::MAX
    }

    /// How the packer `new` and the returned stored form `out` follow from feeding `chunk`
    /// to `old`, with `nonce` for a fresh encrypted chunk.
    pub open spec fn fed(old: Packer, new: Packer, chunk: Seq<u8>, nonce: Seq<u8>, out: Option<Vec<u8>>) -> bool {
        let n = old.entries().len();
        let e = new.entries()[n as int];
        let stored = stored_form(old.key(), nonce, chunk, old.level());
        &&& new.wf()
        &&& new.key() == old.key()
        &&& new.level() == old.level()
        &&& new.source() == old.source() + chunk
        &&& new.entries().len() == n + 1
        &&& new.entries().take(n as int) == old.entries()
        &&& e.source_offset == old.source().len()
        &&& e.source_length == chunk.len()
        &&& e.digest@ == digest_label(sha256_of(chunk))
        &&& e.chunk_id@ == e.digest@
        &&& e.codec@ == "zstd"@
        &&& old.seen(sha256_of(chunk)) ==> {
            &&& out is None
            &&& new.payload() == old.payload()
            &&& forall|i: int|
                0 <= i < n && #[trigger] sha256_of(chunk_of(old.source(), old.entries()[i]))
                    == sha256_of(chunk) ==> {
                    &&& e.stored_offset == old.entries()[i].stored_offset
                    &&& e.stored_length == old.entries()[i].stored_length
                    &&& nonce_text(e.nonce) == nonce_text(old.entries()[i].nonce)
                }
        }
        &&& !old.seen(sha256_of(chunk)) ==> {
            &&& out matches Some(p) && p@ == stored
            &&& new.payload() == old.payload() + stored
            &&& e.stored_offset == old.payload().len()
            &&& e.stored_length == stored.len()
            &&& stored.len() == stored_size(old.key(), chunk, old.level())
            &&& nonce_text(e.nonce) == (if old.key() is Some {
                Some(hex_encode(nonce))
            } else {
                None
            })
        }
    }

    /// Feeds one chunk. Where no chunk fed before has its SHA-256 digest, the chunk is
    /// compressed (and sealed under `nonce` where there is a key) and its stored form is
    /// returned, to be written after the stored forms returned before; otherwise the new
    /// entry points at the stored form of the earlier chunk and nothing is returned.
    /// It succeeds exactly where `accepts` holds; on an error the packer is left as it was.
    pub fn process_chunk_with_nonce(&mut self, chunk: &[u8], nonce: [u8; 12]) -> (r: Result<Option<Vec<u8>>, XfmtError>)
        requires
            old(self).wf(),
        ensures
            match r {
                Err(e) => *final(self) == *old(self) && Packer::refused(*old(self), chunk@, e),
                Ok(out) => Packer::fed(*old(self), *final(self), chunk@, nonce@, out),
            },
            r is Ok <==> Packer::accepts(*old(self), chunk@),
            old(self).source().len() + chunk@.len() > u64::MAX ==> r == Err::<Option<Vec<u8>>, XfmtError>(
                XfmtError::OffsetOverflow,
            ),
    {
        let d = chunk_digest(chunk);
        self.feed(chunk, d, nonce)
    }

    fn feed(&mut self, chunk: &[u8], d: [u8; 32], nonce: [u8; 12]) -> (r: Result<Option<Vec<u8>>, XfmtError>)
        requires
            old(self).wf(),
            d@ == sha256_of(chunk@),
        ensures
            match r {
                Err(e) => *final(self) == *old(self) && Packer::refused(*old(self), chunk@, e),
                Ok(out) => Packer::fed(*old(self), *final(self), chunk@, nonce@, out),
            },
            r is Ok <==> Packer::accepts(*old(self), chunk@),
            old(self).source().len() + chunk@.len() > u64::MAX ==> r == Err::<Option<Vec<u8>>, XfmtError>(
                XfmtError::OffsetOverflow,
            ),
    {
        let clen = chunk.len() as u64;
        if clen > u64::MAX - self.source_offset {
            return Err(XfmtError::OffsetOverflow);
        }
        let found = self.find_record(&d);
        proof {
            match found {
                Some(j) => {
                    let e0 = self.record_entry@[j as int];
                    assert(self.record_ok(j as int));
                    assert(self.entry_ok(e0));
                    assert(sha256_of(chunk_of(self.source(), self.entries()[e0])) == d@);
                    assert(self.seen(d@));
                },
                None => {
                    if self.seen(d@) {
                        let i = choose|i: int|
                            0 <= i < self.entries().len() && #[trigger] sha256_of(
                                chunk_of(self.source(), self.entries()[i]),
                            ) == d@;
                        assert(self.entry_ok(i));
                        assert(self.records@[self.entry_record@[i]].digest@ != d@);
                    }
                },
            }
        }
        let mut out: Option<Vec<u8>> = None;
        let mut rec_index: usize = 0;
        let mut rec_nonce: Option<[u8; 12]> = None;
        let mut stored_offset: u64 = self.stored_offset;
        let mut stored_length: u64 = 0;
        match found {
            Some(j) => {
                rec_index = j;
                rec_nonce = self.records[j].nonce;
                stored_offset = self.records[j].stored_offset;
                stored_length = self.records[j].stored_length;
            },
            None => {
                let frame = zstd_compress(chunk, self.level).unwrap();
                let stored = match self.key {
                    Some(k) => match aes256gcm_encrypt(&k, &nonce, frame.as_slice()) {
                        Some(c) => {
                            rec_nonce = Some(nonce);
                            c
                        },
                        None => {
                            return Err(XfmtError::EncryptionFailed);
                        },
                    },
                    None => frame,
                };
                assert(stored@.len() == stored_size(self.key(), chunk@, self.level));
                let len = stored.len() as u64;
                if len > u64::MAX - self.stored_offset {
                    return Err(XfmtError::OffsetOverflow);
                }
                stored_length = len;
                rec_index = self.records.len();
                out = Some(stored);
            },
        }
        let hex = hex_string(&d);
        let mut label = String::from_str("sha256:");
        label.append(hex.as_str());
        let chunk_id = label.clone();
        let nonce_str = match rec_nonce {
            Some(b) => Some(hex_string(&b)),
            None => None,
        };
        let entry = IndexEntry {
            chunk_id,
            source_offset: self.source_offset,
            source_length: clen,
            stored_offset,
            stored_length,
            codec: String::from_str("zstd"),
            digest: label,
            nonce: nonce_str,
        };
        let ghost old_source = self.source@;
        let ghost old_payload = self.payload@;
        let ghost n = self.index@.len();
        digest_update(&mut self.hasher, chunk);
        proof {
            self.source@ = old_source + chunk@;
        }
        self.source_offset = self.source_offset + clen;
        match &out {
            Some(stored) => {
                let k = bucket_key(&d);
                let mut list = match self.buckets.remove(&k) {
                    Some(l) => l,
                    None => Vec::new(),
                };
                list.push(rec_index);
                self.buckets.insert(k, list);
                self.records.push(ChunkRecord { digest: d, stored_offset, stored_length, nonce: rec_nonce });
                self.stored_offset = self.stored_offset + stored_length;
                proof {
                    self.payload@ = old_payload + stored@;
                    self.record_entry@ = self.record_entry@.push(n as int);
                }
            },
            None => {},
        }
        self.index.push(entry);
        proof {
            self.entry_record@ = self.entry_record@.push(rec_index as int);
            let s0 = old(self).source@;
            let s1 = self.source@;
            let p0 = old(self).payload@;
            let p1 = self.payload@;
            let n1 = n + 1;
            let fresh = found is None;
            assert(d@ == sha256_of(chunk@));
            assert(s1 == s0 + chunk@);
            assert(self.index@ == old(self).index@.push(entry));
            assert(self.index@[n as int] == entry);
            // the chunks of old entries are unchanged
            assert forall|i: int| 0 <= i < n implies #[trigger] self.chunk(i) == old(self).chunk(i) by {
                assert(old(self).index@[i] == self.index@[i]);
                lemma_subrange_of_extended(s0, chunk@, old(self).index@[i].source_offset as int, source_end(old(self).index@[i]));
            }
            assert(self.chunk(n as int) =~= chunk@);
            // records of old chunks are unchanged
            assert forall|r: int| 0 <= r < old(self).records@.len() implies #[trigger] self.records@[r] == old(self).records@[r] by {}
            // payload regions of old records are unchanged
            assert forall|a: int, b: int| 0 <= a <= b <= p0.len() implies #[trigger] p1.subrange(a, b) == p0.subrange(a, b) by {
                if fresh {
                    lemma_subrange_of_extended(p0, out.unwrap()@, a, b);
                }
            }
            // tiling
            assert(tiles(self.index@, s1)) by {
                if n > 0 {
                    assert(old(self).index@[n - 1] == self.index@[n - 1]);
                }
                assert forall|i: int| 0 <= i < self.index@.len() - 1 implies #[trigger] self.index@[i + 1].source_offset == source_end(self.index@[i]) by {
                    if i < n - 1 {
                        assert(old(self).index@[i + 1] == self.index@[i + 1]);
                        assert(old(self).index@[i] == self.index@[i]);
                    }
                }
                assert forall|i: int| 0 <= i < self.index@.len() implies source_end(#[trigger] self.index@[i]) <= s1.len() by {
                    if i < n {
                        assert(old(self).index@[i] == self.index@[i]);
                    }
                }
            }
            assert forall|i: int| 0 <= i < self.index@.len() implies #[trigger] self.entry_ok(i) by {
                if i < n {
                    assert(old(self).entry_ok(i));
                    assert(old(self).index@[i] == self.index@[i]);
                    assert(self.entry_record@[i] == old(self).entry_record@[i]);
                } else {
                    assert(i == n);
                    assert(self.entry_record@[i] == rec_index as int);
                    assert(entry.digest@ =~= digest_label(d@));
                }
            }
            assert forall|r: int| 0 <= r < self.records@.len() implies #[trigger] self.record_ok(r) by {
                if r < old(self).records@.len() {
                    assert(old(self).record_ok(r));
                    let j = old(self).record_entry@[r];
                    assert(self.record_entry@[r] == j);
                    assert(self.entry_record@[j] == old(self).entry_record@[j]);
                    assert(self.chunk(j) == old(self).chunk(j));
                } else {
                    assert(fresh);
                    assert(self.record_entry@[r] == n);
                    assert(p1.subrange(p0.len() as int, p0.len() + stored_length) =~= out.unwrap()@);
                }
            }
            assert forall|r1: int, r2: int|
                0 <= r1 < self.records@.len() && 0 <= r2 < self.records@.len() && r1 != r2
                    implies #[trigger] self.records@[r1].digest@ != #[trigger] self.records@[r2].digest@ by {
                if r1 < old(self).records@.len() && r2 < old(self).records@.len() {
                } else if r1 < old(self).records@.len() {
                    assert(old(self).records@[r1].digest@ != d@);
                } else {
                    assert(old(self).records@[r2].digest@ != d@);
                }
            }
            assert(self.buckets_ok()) by {
                if fresh {
                    let k = digest_bucket(d@);
                    let m0 = old(self).buckets@;
                    let m1 = self.buckets@;
                    assert forall|r: int| 0 <= r < self.records@.len() implies {
                        let kr = digest_bucket(#[trigger] self.records@[r].digest@);
                        &&& m1.contains_key(kr)
                        &&& m1[kr]@.contains(r as usize)
                    } by {
                        let kr = digest_bucket(self.records@[r].digest@);
                        if r < old(self).records@.len() {
                            assert(m0.contains_key(kr) && m0[kr]@.contains(r as usize));
                            if kr == k {
                                let t = choose|t: int| 0 <= t < m0[kr]@.len() && m0[kr]@[t] == r as usize;
                                assert(m1[kr]@[t] == r as usize);
                            }
                        } else {
                            assert(m1[k]@[m1[k]@.len() - 1] == r as usize);
                        }
                    }
                    assert forall|k2: u64, t: int|
                        #![trigger m1[k2]@[t]]
                        m1.contains_key(k2) && 0 <= t < m1[k2]@.len() implies {
                            let r = m1[k2]@[t];
                            &&& r < self.records@.len()
                            &&& digest_bucket(self.records@[r as int].digest@) == k2
                        } by {
                        if k2 != k {
                            assert(m0[k2]@[t] == m1[k2]@[t]);
                        } else if t < m1[k2]@.len() - 1 {
                            assert(m0.contains_key(k2));
                            assert(m0[k2]@[t] == m1[k2]@[t]);
                        }
                    }
                } else {
                    assert(self.buckets@ == old(self).buckets@);
                }
            }
            assert(self.records_laid_out()) by {
                let r0 = old(self).records@;
                let r1 = self.records@;
                assert(old(self).records_laid_out());
                if fresh {
                    assert(r1 == r0.push(r1[r0.len() as int]));
                    assert(r1[r0.len() as int].stored_offset == p0.len());
                    assert forall|r: int| 0 <= r < r1.len() - 1 implies #[trigger] r1[r + 1].stored_offset
                        == r1[r].stored_offset + r1[r].stored_length by {
                        if r < r0.len() - 1 {
                            assert(r0[r + 1] == r1[r + 1]);
                            assert(r0[r] == r1[r]);
                        } else {
                            assert(r == r0.len() - 1);
                            assert(r0[r] == r1[r]);
                        }
                    }
                    assert forall|q1: int, q2: int| 0 <= q1 < q2 < r1.len() implies #[trigger] self.record_entry@[q1]
                        < #[trigger] self.record_entry@[q2] by {
                        if q2 < r0.len() {
                            assert(old(self).record_entry@[q1] == self.record_entry@[q1]);
                            assert(old(self).record_entry@[q2] == self.record_entry@[q2]);
                        } else {
                            assert(old(self).record_ok(q1));
                            assert(old(self).record_entry@[q1] == self.record_entry@[q1]);
                        }
                    }
                } else {
                    assert(r1 == r0);
                    assert(self.record_entry@ == old(self).record_entry@);
                }
                assert forall|i: int| 0 <= i < self.index@.len() implies self.record_entry@[
                    #[trigger] self.entry_record@[i]] <= i by {
                    if i < n {
                        assert(self.entry_record@[i] == old(self).entry_record@[i]);
                        assert(old(self).entry_ok(i));
                        assert(old(self).record_entry@[old(self).entry_record@[i]] == self.record_entry@[
                            self.entry_record@[i]]);
                    } else if !fresh {
                        assert(old(self).record_ok(rec_index as int));
                    }
                }
            }
            assert(self.wf());
            assert(self.index@.take(n as int) =~= old(self).index@);
            if !fresh {
                assert forall|i: int|
                    0 <= i < n && #[trigger] sha256_of(chunk_of(old(self).source(), old(self).entries()[i])) == sha256_of(chunk@)
                    implies {
                        &&& entry.stored_offset == old(self).entries()[i].stored_offset
                        &&& entry.stored_length == old(self).entries()[i].stored_length
                        &&& nonce_text(entry.nonce) == nonce_text(old(self).entries()[i].nonce)
                    } by {
                    assert(old(self).entry_ok(i));
                    let ri = old(self).entry_record@[i];
                    assert(old(self).records@[ri].digest@ == d@);
                    assert(ri == rec_index as int);
                }
            }
        }
        Ok(out)
    }

    /// Feeds one chunk, drawing a fresh random nonce only where one is used: for a chunk
    /// not seen before in an encrypted archive (see `process_chunk_with_nonce`, which says
    /// what happens for each nonce; for any other chunk the nonce plays no part).
    pub fn process_chunk(&mut self, chunk: &[u8]) -> (r: Result<Option<Vec<u8>>, XfmtError>)
        requires
            old(self).wf(),
        ensures
            match r {
                Err(e) => *final(self) == *old(self) && Packer::refused(*old(self), chunk@, e),
                Ok(out) => exists|nonce: Seq<u8>|
                    nonce.len() == 12 && #[trigger] Packer::fed(*old(self), *final(self), chunk@, nonce, out),
            },
            r is Ok <==> Packer::accepts(*old(self), chunk@),
            old(self).source().len() + chunk@.len() > u64::MAX ==> r == Err::<Option<Vec<u8>>, XfmtError>(
                XfmtError::OffsetOverflow,
            ),
    {
        let d = chunk_digest(chunk);
        let needs_nonce = match self.key {
            Some(_) => self.find_record(&d).is_none(),
            None => false,
        };
        let nonce: [u8; 12] = if needs_nonce {
            random_bytes()
        } else {
            [0u8; 12]
        };
        self.feed(chunk, d, nonce)
    }

    /// The digests of the chunks fed so far tell the chunks apart: no two different chunks
    /// share a SHA-256 digest.
    pub open spec fn digests_distinct(&self) -> bool {
        forall|i: int, j: int|
            0 <= i < self.entries().len() && 0 <= j < self.entries().len() && #[trigger] sha256_of(
                chunk_of(self.source(), self.entries()[i]),
            ) == #[trigger] sha256_of(chunk_of(self.source(), self.entries()[j])) ==> chunk_of(
                self.source(),
                self.entries()[i],
            ) == chunk_of(self.source(), self.entries()[j])
    }

    /// The index entries cover the source bytes fed, in order and without gaps.
    pub proof fn lemma_entries_tile_source(&self)
        requires
            self.wf(),
        ensures
            tiles(self.entries(), self.source()),
    {
    }

    /// Where chunk digests tell the chunks apart, the payload bytes an entry points at are
    /// the stored form of that entry's own chunk, under the nonce the entry records, and
    /// that stored form can be opened; an encrypted entry records its nonce as hex of
    /// exactly 12 bytes.
    pub proof fn lemma_entry_points_at_its_chunk(&self, i: int)
        requires
            self.wf(),
            self.digests_distinct(),
            0 <= i < self.entries().len(),
        ensures
            stored_end(self.entries()[i]) <= self.payload().len(),
            stored_of(self.payload(), self.entries()[i]) == stored_form(
                self.key(),
                nonce_bytes(self.entries()[i].nonce),
                chunk_of(self.source(), self.entries()[i]),
                self.level(),
            ),
            openable(self.key(), chunk_of(self.source(), self.entries()[i]), self.level()),
            self.key() is Some <==> self.entries()[i].nonce is Some,
            self.key() is Some ==> nonce_ok(self.entries()[i].nonce),
    {
        assert(self.entry_ok(i));
        let r = self.entry_record@[i];
        assert(self.record_ok(r));
        let j = self.record_entry@[r];
        assert(self.entry_ok(j));
        assert(self.entry_record@[j] == r);
        assert(sha256_of(chunk_of(self.source(), self.entries()[i])) == sha256_of(
            chunk_of(self.source(), self.entries()[j]),
        ));
        assert(self.chunk(i) == self.chunk(j));
        let rec = self.records@[r];
        match (self.index@[i].nonce, rec.nonce) {
            (Some(s), Some(b)) => {
                lemma_hex_roundtrip(b@);
            },
            _ => {},
        }
    }

    /// Entries whose digests agree point at the same stored bytes, under the same nonce.
    pub proof fn lemma_equal_digests_share_storage(&self, i: int, j: int)
        requires
            self.wf(),
            0 <= i < self.entries().len(),
            0 <= j < self.entries().len(),
            self.entries()[i].digest@ == self.entries()[j].digest@,
        ensures
            self.entries()[i].stored_offset == self.entries()[j].stored_offset,
            self.entries()[i].stored_length == self.entries()[j].stored_length,
            nonce_text(self.entries()[i].nonce) == nonce_text(self.entries()[j].nonce),
    {
        assert(self.entry_ok(i));
        assert(self.entry_ok(j));
        lemma_label_injective(sha256_of(self.chunk(i)), sha256_of(self.chunk(j)));
        let ri = self.entry_record@[i];
        let rj = self.entry_record@[j];
        assert(self.records@[ri].digest@ == self.records@[rj].digest@);
    }

    /// The end of the stored forms of the first `c` records.
    spec fn records_end(&self, c: int) -> int {
        if c <= 0 {
            0
        } else {
            self.records@[c - 1].stored_offset + self.records@[c - 1].stored_length
        }
    }

    /// How many of the first `k` entries are the first of their digest.
    spec fn fresh_count(&self, k: int) -> int
        decreases k,
    {
        if k <= 0 {
            0
        } else if first_of_digest(self.index@, k - 1) {
            self.fresh_count(k - 1) + 1
        } else {
            self.fresh_count(k - 1)
        }
    }

    proof fn lemma_first_of_digest_is_record_entry(&self, i: int)
        requires
            self.wf(),
            0 <= i < self.index@.len(),
        ensures
            first_of_digest(self.index@, i) <==> self.record_entry@[self.entry_record@[i]] == i,
    {
        assert(self.records_laid_out());
        assert(self.entry_ok(i));
        let r = self.entry_record@[i];
        assert(self.record_ok(r));
        let j0 = self.record_entry@[r];
        if first_of_digest(self.index@, i) {
            if j0 < i {
                assert(self.entry_ok(j0));
                assert(self.entry_record@[j0] == r);
                assert(self.index@[j0].digest@ == self.index@[i].digest@);
            }
        } else {
            let j = choose|j: int| 0 <= j < i && #[trigger] self.index@[j].digest@ == self.index@[i].digest@;
            assert(self.entry_ok(j));
            lemma_label_injective(sha256_of(self.chunk(j)), sha256_of(self.chunk(i)));
            let rj = self.entry_record@[j];
            assert(self.records@[rj].digest@ == self.records@[r].digest@);
            assert(rj == r);
            assert(self.record_entry@[self.entry_record@[j]] <= j);
        }
    }

    proof fn lemma_fresh_prefix(&self, k: int)
        requires
            self.wf(),
            0 <= k <= self.index@.len(),
        ensures
            0 <= self.fresh_count(k) <= self.records@.len(),
            forall|r: int| 0 <= r < self.fresh_count(k) ==> #[trigger] self.record_entry@[r] < k,
            forall|r: int|
                self.fresh_count(k) <= r < self.records@.len() ==> #[trigger] self.record_entry@[r] >= k,
            fresh_regions(self.index@, self.payload@, k) == self.payload@.subrange(
                0,
                self.records_end(self.fresh_count(k)),
            ),
        decreases k,
    {
        assert(self.records_laid_out());
        if k == 0 {
            assert forall|r: int| 0 <= r < self.records@.len() implies #[trigger] self.record_entry@[r] >= 0 by {
                assert(self.record_ok(r));
            }
            assert(self.payload@.subrange(0, 0) =~= Seq::<u8>::empty());
        } else {
            self.lemma_fresh_prefix(k - 1);
            let i = k - 1;
            let c = self.fresh_count(i);
            self.lemma_first_of_digest_is_record_entry(i);
            assert(self.entry_ok(i));
            let r = self.entry_record@[i];
            assert(self.record_ok(r));
            if first_of_digest(self.index@, i) {
                assert(self.record_entry@[r] == i);
                if r > c {
                    assert(self.record_entry@[c] < self.record_entry@[r]);
                }
                assert(r == c);
                assert forall|q: int| c + 1 <= q < self.records@.len() implies #[trigger] self.record_entry@[q] >= k by {
                    assert(self.record_entry@[c] < self.record_entry@[q]);
                }
                let e = self.index@[i];
                let a = self.records_end(c);
                let b = self.records_end(c + 1);
                if c > 0 {
                    assert(self.records@[(c - 1) + 1].stored_offset == self.records@[c - 1].stored_offset
                        + self.records@[c - 1].stored_length);
                }
                assert(e.stored_offset == a);
                assert(stored_end(e) == b);
                assert(b <= self.payload@.len());
                assert(self.payload@.subrange(0, a) + self.payload@.subrange(a, b) =~= self.payload@.subrange(0, b));
            } else {
                assert forall|q: int| c <= q < self.records@.len() implies #[trigger] self.record_entry@[q] >= k by {
                    assert(self.record_ok(q));
                    if self.record_entry@[q] == i {
                        assert(self.entry_record@[i] == q);
                    }
                }
            }
        }
    }

    /// The payload is the stored forms of the chunks, each once, laid end to end in the
    /// order in which the chunks first appeared: joining the regions of the entries that
    /// are the first of their digest, in index order, gives exactly the payload.
    pub proof fn lemma_payload_is_fresh_regions(&self)
        requires
            self.wf(),
        ensures
            fresh_regions(self.entries(), self.payload(), self.entries().len() as int) == self.payload(),
    {
        let n = self.index@.len() as int;
        self.lemma_fresh_prefix(n);
        assert(self.records_laid_out());
        let c = self.fresh_count(n);
        if c < self.records@.len() {
            assert(self.record_ok(c));
        }
        assert(c == self.records@.len());
        assert(self.payload@.subrange(0, self.payload@.len() as int) =~= self.payload@);
    }

    /// Every entry shares the storage of the first entry of its digest: the chunk was
    /// stored once, where it first appeared, and each later entry of it points there.
    pub proof fn lemma_entry_shares_first_storage(&self, i: int)
        requires
            self.wf(),
            0 <= i < self.entries().len(),
        ensures
            exists|j: int|
                0 <= j <= i && #[trigger] first_of_digest(self.entries(), j)
                    && self.entries()[j].digest@ == self.entries()[i].digest@
                    && self.entries()[j].stored_offset == self.entries()[i].stored_offset
                    && self.entries()[j].stored_length == self.entries()[i].stored_length
                    && nonce_text(self.entries()[j].nonce) == nonce_text(self.entries()[i].nonce),
    {
        assert(self.records_laid_out());
        assert(self.entry_ok(i));
        let r = self.entry_record@[i];
        assert(self.record_ok(r));
        let j = self.record_entry@[r];
        assert(self.entry_ok(j));
        assert(self.entry_record@[j] == r);
        self.lemma_first_of_digest_is_record_entry(j);
        assert(self.index@[j].digest@ == self.index@[i].digest@);
        self.lemma_equal_digests_share_storage(i, j);
        assert(first_of_digest(self.entries(), j));
    }

    /// The entry of the chunk fed last.
    pub fn last_entry(&self) -> (r: Option<&IndexEntry>)
        ensures
            self.entries().len() == 0 ==> r is None,
            self.entries().len() > 0 ==> r == Some(&self.entries().last()),
    {
        let n = self.index.len();
        if n == 0 {
            None
        } else {
            Some(&self.index[n - 1])
        }
    }

    /// Hands over the index and the object id: `sha256:` and the hex of the SHA-256
    /// digest of every byte fed.
    pub fn finish(self) -> (r: (Vec<IndexEntry>, String))
        requires
            self.wf(),
        ensures
            r.0@ == self.entries(),
            r.1@ == digest_label(sha256_of(self.source())),
    {
        let d = digest_finalize(self.hasher);
        let mut id = String::from_str("sha256:");
        id.append(hex_string(&d).as_str());
        (self.index, id)
    }

    fn find_record(&self, d: &[u8; 32]) -> (r: Option<usize>)
        requires
            self.wf(),
        ensures
            match r {
                Some(j) => j < self.records@.len() && self.records@[j as int].digest@ == d@,
                None => forall|j: int|
                    0 <= j < self.records@.len() ==> #[trigger] self.records@[j].digest@ != d@,
            },
    {
        let k = bucket_key(d);
        match self.buckets.get(&k) {
            None => {
                proof {
                    assert forall|j: int| 0 <= j < self.records@.len() implies #[trigger] self.records@[j].digest@ != d@ by {
                        if self.records@[j].digest@ == d@ {
                            assert(self.buckets@.contains_key(digest_bucket(self.records@[j].digest@)));
                        }
                    }
                }
                None
            },
            Some(list) => {
                let n = list.len();
                for t in 0..n
                    invariant
                        n == list@.len(),
                        self.wf(),
                        self.buckets@.contains_key(k),
                        self.buckets@[k] == *list,
                        forall|u: int|
                            0 <= u < t ==> self.records@[list@[u] as int].digest@ != d@,
                {
                    let j = list[t];
                    assert(self.buckets@[k]@[t as int] == j);
                    if same_digest(&self.records[j].digest, d) {
                        return Some(j);
                    }
                }
                proof {
                    assert forall|j: int| 0 <= j < self.records@.len() implies #[trigger] self.records@[j].digest@ != d@ by {
                        if self.records@[j].digest@ == d@ {
                            assert(self.buckets@[k]@.contains(j as usize));
                            let u = choose|u: int| 0 <= u < list@.len() && list@[u] == j as usize;
                            assert(self.records.len() == self.records@.len());
                            assert(list@[u] as int == j);
                            assert(self.records@[list@[u] as int].digest@ != d@);
                        }
                    }
                }
                None
            },
        }
    }
}

} // verus!
