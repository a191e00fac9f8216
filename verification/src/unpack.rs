use vstd::prelude::*;

use crate::codec::{zstd_decoded, zstd_decompress_prefix};
use crate::crypto::{aes256gcm_decrypt, aes256gcm_opened, aes256gcm_sealed, PLAINTEXT_MAX};
use crate::error::XfmtError;
use crate::hex::{decode_hex, hex_decode};
use crate::models::IndexEntry;
use crate::pack::{
    chunk_of, nonce_bytes, nonce_ok, openable, source_end, stored_form, stored_of, tiles, Packer,
};

verus! {

/// One past the last byte of a range that starts at `start`: `length` bytes on, or the
/// end of everything where no length is given.
pub fn range_end(start: u64, length: Option<u64>) -> (r: u64)
    requires
        length matches Some(l) ==> start + l <= u64::MAX,
    ensures
        r == (match length {
            Some(l) => start + l,
            None => u64::MAX as int,
        }),
{
    match length {
        Some(l) => start + l,
        None => u64::MAX,
    }
}

/// Whether an entry's source bytes meet the byte range `[start, end)`.
pub open spec fn overlaps(e: IndexEntry, start: int, end: int) -> bool {
    e.source_offset < end && source_end(e) > start
}

/// Where the part of an entry's chunk in `[start, end)` begins, as an offset into the chunk.
pub open spec fn piece_start(e: IndexEntry, start: int) -> int {
    if start > e.source_offset {
        start - e.source_offset
    } else {
        0
    }
}

/// Where the part of an entry's chunk in `[start, end)` ends, as an offset into the chunk.
pub open spec fn piece_end(e: IndexEntry, end: int) -> int {
    if end < source_end(e) {
        end - e.source_offset
    } else {
        e.source_length as int
    }
}

/// Most bytes a stored chunk is decompressed to (100 MiB): entries that say their chunk
/// is longer are refused.
pub const MAX_DECOMPRESSED_CHUNK: u64 = 104857600;

/// What a successful opening of the stored bytes of entry `e` guarantees of the result
/// `v`: where `stored` is the stored form of some chunk `c` (as the packer writes it),
/// `v` is the first `e.source_length` bytes of `c` (all of `c` where it is shorter).
pub open spec fn opens_to(e: IndexEntry, stored: Seq<u8>, key: Option<Seq<u8>>, v: Seq<u8>) -> bool {
    forall|c: Seq<u8>, l: i32|
        stored == #[trigger] stored_form(key, nonce_bytes(e.nonce), c, l) && openable(key, c, l)
            ==> v == c.take(clamp(c.len() as int, e.source_length as int))
}

/// The stored bytes of entry `e` are the stored form of chunk `c` at level `l`, in a form
/// a reader opens: the frame can be unsealed, an encrypted entry records a well-formed
/// nonce, and the entry is no longer than `MAX_DECOMPRESSED_CHUNK`.
pub open spec fn restorable(e: IndexEntry, stored: Seq<u8>, key: Option<Seq<u8>>, c: Seq<u8>, l: i32) -> bool {
    &&& stored == stored_form(key, nonce_bytes(e.nonce), c, l)
    &&& openable(key, c, l)
    &&& key is Some ==> nonce_ok(e.nonce)
    &&& e.source_length <= MAX_DECOMPRESSED_CHUNK
}

/// The bytes of a result, where it holds bytes.
pub open spec fn bytes_result(r: Result<Vec<u8>, XfmtError>) -> Result<Seq<u8>, XfmtError> {
    match r {
        Ok(v) => Ok(v@),
        Err(e) => Err(e),
    }
}

/// What decoding a zstd frame to at most `limit` bytes gives, as a result.
pub open spec fn decode_outcome(frame: Seq<u8>, limit: u64) -> Result<Seq<u8>, XfmtError> {
    match zstd_decoded(frame, limit) {
        Some(v) => Ok(v),
        None => Err(XfmtError::DecompressionFailed),
    }
}

/// What opening the stored bytes of entry `e` gives, for any stored bytes: an entry over
/// `MAX_DECOMPRESSED_CHUNK` is refused; with a key, the entry's nonce must be hex of 12
/// bytes and the bytes must open under key and nonce; then the frame is decoded to at
/// most `source_length` bytes.
pub open spec fn restore_outcome(e: IndexEntry, stored: Seq<u8>, key: Option<Seq<u8>>) -> Result<Seq<u8>, XfmtError> {
    if e.source_length > MAX_DECOMPRESSED_CHUNK {
        Err(XfmtError::ChunkTooLarge)
    } else {
        match key {
            None => decode_outcome(stored, e.source_length),
            Some(k) => match e.nonce {
                None => Err(XfmtError::NonceMissing),
                Some(s) => match hex_decode(s@) {
                    None => Err(XfmtError::InvalidHex),
                    Some(n) => if n.len() != 12 {
                        Err(XfmtError::InvalidLength)
                    } else {
                        match aes256gcm_opened(k, n, stored) {
                            None => Err(XfmtError::DecryptionFailed),
                            Some(f) => decode_outcome(f, e.source_length),
                        }
                    },
                },
            },
        }
    }
}

/// Where the part of an entry's restored chunk `v` in `[start, end)` ends: the range's
/// end where it falls inside the entry, the end of `v` otherwise.
pub open spec fn clip_end(e: IndexEntry, v: Seq<u8>, end: int) -> int {
    if end < source_end(e) {
        end - e.source_offset
    } else {
        v.len() as int
    }
}

/// What cutting the part in `[start, end)` out of an entry's restored chunk `v` gives:
/// that part, or `CorruptChunk` where `v` is too short for it.
pub open spec fn clip_outcome(e: IndexEntry, v: Seq<u8>, start: int, end: int) -> Result<Seq<u8>, XfmtError> {
    let lo = piece_start(e, start);
    let hi = clip_end(e, v, end);
    if lo <= hi && hi <= v.len() {
        Ok(v.subrange(lo, hi))
    } else {
        Err(XfmtError::CorruptChunk)
    }
}

/// What restoring the part of entry `e` in `[start, end)` from any stored bytes gives.
pub open spec fn piece_outcome(
    e: IndexEntry,
    stored: Seq<u8>,
    key: Option<Seq<u8>>,
    start: int,
    end: int,
) -> Result<Seq<u8>, XfmtError> {
    match restore_outcome(e, stored, key) {
        Ok(v) => clip_outcome(e, v, start, end),
        Err(x) => Err(x),
    }
}

/// The key bytes, where there is a key.
pub open spec fn key_bytes(key: Option<[u8; 32]>) -> Option<Seq<u8>> {
    match key {
        Some(k) => Some(k@),
        None => None,
    }
}

/// The 12 nonce bytes an entry records, in hex.
pub fn entry_nonce(entry: &IndexEntry) -> (r: Result<[u8; 12], XfmtError>)
    ensures
        entry.nonce is None ==> r == Err::<[u8; 12], XfmtError>(XfmtError::NonceMissing),
        entry.nonce matches Some(s) && hex_decode(s@) is None ==> r == Err::<[u8; 12], XfmtError>(
            XfmtError::InvalidHex,
        ),
        entry.nonce matches Some(s) && hex_decode(s@) matches Some(b) && b.len() != 12 ==> r == Err::<
            [u8; 12],
            XfmtError,
        >(XfmtError::InvalidLength),
        r matches Err(e) ==> e == XfmtError::NonceMissing || e == XfmtError::InvalidHex || e
            == XfmtError::InvalidLength,
        entry.nonce matches Some(s) && hex_decode(s@) matches Some(b) && b.len() == 12 ==> r is Ok,
        r matches Ok(n) ==> n@ == nonce_bytes(entry.nonce) && n@.len() == 12,
{
    let text = match &entry.nonce {
        Some(s) => s,
        None => {
            return Err(XfmtError::NonceMissing);
        },
    };
    let bytes = match decode_hex(text.as_str()) {
        Some(b) => b,
        None => {
            return Err(XfmtError::InvalidHex);
        },
    };
    if bytes.len() != 12 {
        return Err(XfmtError::InvalidLength);
    }
    let n = [
        bytes[0],
        bytes[1],
        bytes[2],
        bytes[3],
        bytes[4],
        bytes[5],
        bytes[6],
        bytes[7],
        bytes[8],
        bytes[9],
        bytes[10],
        bytes[11],
    ];
    assert(n@ =~= bytes@);
    Ok(n)
}

/// Opens the stored bytes of a chunk: decrypts them under `key` and the entry's nonce
/// where there is a key, then decompresses at most `source_length` bytes. An entry longer
/// than `MAX_DECOMPRESSED_CHUNK` is refused before anything is opened. The stored form of
/// a chunk always opens, to that chunk; bytes that no plaintext seals to under the key and
/// the entry's nonce give `DecryptionFailed`.
pub fn restore_chunk(entry: &IndexEntry, stored: &[u8], key: &Option<[u8; 32]>) -> (r: Result<Vec<u8>, XfmtError>)
    ensures
        entry.source_length > MAX_DECOMPRESSED_CHUNK ==> r == Err::<Vec<u8>, XfmtError>(
            XfmtError::ChunkTooLarge,
        ),
        entry.source_length <= MAX_DECOMPRESSED_CHUNK && key is Some ==> {
            &&& entry.nonce is None ==> r == Err::<Vec<u8>, XfmtError>(XfmtError::NonceMissing)
            &&& (entry.nonce matches Some(s) && hex_decode(s@) is None ==> r == Err::<Vec<u8>, XfmtError>(
                XfmtError::InvalidHex,
            ))
            &&& (entry.nonce matches Some(s) && hex_decode(s@) matches Some(b) && b.len() != 12
                ==> r == Err::<Vec<u8>, XfmtError>(XfmtError::InvalidLength))
        },
        r matches Err(e) ==> e == XfmtError::ChunkTooLarge || e == XfmtError::NonceMissing || e
            == XfmtError::InvalidHex || e == XfmtError::InvalidLength || e == XfmtError::DecryptionFailed
            || e == XfmtError::DecompressionFailed,
        r == Err::<Vec<u8>, XfmtError>(XfmtError::DecryptionFailed) ==> (key matches Some(k) && forall|q: Seq<u8>|
            q.len() <= PLAINTEXT_MAX ==> stored@ != #[trigger] aes256gcm_sealed(k@, nonce_bytes(entry.nonce), q)),
        entry.source_length <= MAX_DECOMPRESSED_CHUNK && nonce_ok(entry.nonce) && (key matches Some(k)
            && forall|q: Seq<u8>| stored@ != #[trigger] aes256gcm_sealed(k@, nonce_bytes(entry.nonce), q))
            ==> r == Err::<Vec<u8>, XfmtError>(XfmtError::DecryptionFailed),
        bytes_result(r) == restore_outcome(*entry, stored@, key_bytes(*key)),
        (exists|c: Seq<u8>, l: i32| #[trigger] restorable(*entry, stored@, key_bytes(*key), c, l)) ==> r is Ok,
        r matches Ok(v) ==> v@.len() <= entry.source_length,
        r matches Ok(v) ==> opens_to(*entry, stored@, key_bytes(*key), v@),
{
    if entry.source_length > MAX_DECOMPRESSED_CHUNK {
        return Err(XfmtError::ChunkTooLarge);
    }
    let limit = entry.source_length;
    match key {
        Some(k) => {
            let nonce = entry_nonce(entry)?;
            let frame = match aes256gcm_decrypt(k, &nonce, stored) {
                Some(f) => f,
                None => {
                    return Err(XfmtError::DecryptionFailed);
                },
            };
            match zstd_decompress_prefix(frame.as_slice(), limit) {
                Some(v) => {
                    assert(opens_to(*entry, stored@, key_bytes(*key), v@));
                    Ok(v)
                },
                None => Err(XfmtError::DecompressionFailed),
            }
        },
        None => match zstd_decompress_prefix(stored, limit) {
            Some(v) => {
                assert(opens_to(*entry, stored@, key_bytes(*key), v@));
                Ok(v)
            },
            None => Err(XfmtError::DecompressionFailed),
        },
    }
}

/// The part of a restored chunk that falls in `[start, end)`. Where the entry asks for
/// more bytes than the chunk restored to, the range cannot be cut and `CorruptChunk` is
/// returned.
pub fn clip_piece(entry: &IndexEntry, decomp: &[u8], start: u64, end: u64) -> (r: Result<Vec<u8>, XfmtError>)
    requires
        overlaps(*entry, start as int, end as int),
    ensures
        bytes_result(r) == clip_outcome(*entry, decomp@, start as int, end as int),
{
    let so = entry.source_offset;
    let lo: u64 = if start > so {
        start - so
    } else {
        0
    };
    let within = end - so < entry.source_length;
    let hi: usize = if within {
        let h = end - so;
        if h > decomp.len() as u64 {
            return Err(XfmtError::CorruptChunk);
        }
        h as usize
    } else {
        decomp.len()
    };
    if lo > hi as u64 {
        return Err(XfmtError::CorruptChunk);
    }
    let lo = lo as usize;
    let mut w: Vec<u8> = Vec::new();
    let mut i = lo;
    while i < hi
        invariant
            lo <= i <= hi <= decomp@.len(),
            w@ == decomp@.subrange(lo as int, i as int),
        decreases hi - i,
    {
        w.push(decomp[i]);
        i = i + 1;
        assert(w@ =~= decomp@.subrange(lo as int, i as int));
    }
    Ok(w)
}

/// The part of chunk `c` of entry `e` that falls in `[start, end)`.
pub open spec fn piece_of(e: IndexEntry, c: Seq<u8>, start: int, end: int) -> Seq<u8> {
    c.subrange(piece_start(e, start), piece_end(e, end))
}

/// Restores the part of an entry's chunk that falls in `[start, end)` from its stored
/// bytes: `restore_chunk`, then `clip_piece`. From the stored form of a chunk of the
/// entry's length it gives exactly that part.
pub fn restore_piece(
    entry: &IndexEntry,
    stored: &[u8],
    key: &Option<[u8; 32]>,
    start: u64,
    end: u64,
) -> (r: Result<Vec<u8>, XfmtError>)
    requires
        overlaps(*entry, start as int, end as int),
    ensures
        entry.source_length > MAX_DECOMPRESSED_CHUNK ==> r == Err::<Vec<u8>, XfmtError>(
            XfmtError::ChunkTooLarge,
        ),
        entry.source_length <= MAX_DECOMPRESSED_CHUNK && key is Some ==> {
            &&& entry.nonce is None ==> r == Err::<Vec<u8>, XfmtError>(XfmtError::NonceMissing)
            &&& (entry.nonce matches Some(s) && hex_decode(s@) is None ==> r == Err::<Vec<u8>, XfmtError>(
                XfmtError::InvalidHex,
            ))
            &&& (entry.nonce matches Some(s) && hex_decode(s@) matches Some(b) && b.len() != 12
                ==> r == Err::<Vec<u8>, XfmtError>(XfmtError::InvalidLength))
        },
        r matches Err(e) ==> e == XfmtError::ChunkTooLarge || e == XfmtError::NonceMissing || e
            == XfmtError::InvalidHex || e == XfmtError::InvalidLength || e == XfmtError::DecryptionFailed
            || e == XfmtError::DecompressionFailed || e == XfmtError::CorruptChunk,
        entry.source_length <= MAX_DECOMPRESSED_CHUNK && nonce_ok(entry.nonce) && (key matches Some(k)
            && forall|q: Seq<u8>| stored@ != #[trigger] aes256gcm_sealed(k@, nonce_bytes(entry.nonce), q))
            ==> r == Err::<Vec<u8>, XfmtError>(XfmtError::DecryptionFailed),
        bytes_result(r) == piece_outcome(*entry, stored@, key_bytes(*key), start as int, end as int),
        start <= end && (exists|c: Seq<u8>, l: i32|
            #[trigger] restorable(*entry, stored@, key_bytes(*key), c, l) && c.len() == entry.source_length)
            ==> r is Ok,
        r matches Ok(w) ==> forall|c: Seq<u8>, l: i32|
            #[trigger] restorable(*entry, stored@, key_bytes(*key), c, l) && c.len() == entry.source_length
                ==> w@ == piece_of(*entry, c, start as int, end as int),
{
    let v = restore_chunk(entry, stored, key)?;
    proof {
        assert forall|c: Seq<u8>, l: i32|
            #[trigger] restorable(*entry, stored@, key_bytes(*key), c, l) && c.len() == entry.source_length
            implies v@ == c by {
            assert(v@ == c.take(c.len() as int));
            assert(v@ =~= c);
        }
    }
    let w = clip_piece(entry, v.as_slice(), start, end)?;
    Ok(w)
}

/// The positions, in order, of the entries whose source bytes meet `[start, end)`.
pub fn chunks_for_range(index: &[IndexEntry], start: u64, end: u64) -> (r: Vec<usize>)
    ensures
        forall|t: int|
            0 <= t < r@.len() ==> #[trigger] r@[t] < index@.len() && overlaps(
                index@[r@[t] as int],
                start as int,
                end as int,
            ),
        forall|t: int, u: int| 0 <= t < u < r@.len() ==> #[trigger] r@[t] < #[trigger] r@[u],
        forall|i: int|
            0 <= i < index@.len() && overlaps(#[trigger] index@[i], start as int, end as int)
                ==> r@.contains(i as usize),
{
    let mut r: Vec<usize> = Vec::new();
    let n = index.len();
    for i in 0..n
        invariant
            n == index@.len(),
            forall|t: int|
                0 <= t < r@.len() ==> #[trigger] r@[t] < i && overlaps(
                    index@[r@[t] as int],
                    start as int,
                    end as int,
                ),
            forall|t: int, u: int| 0 <= t < u < r@.len() ==> #[trigger] r@[t] < #[trigger] r@[u],
            forall|j: int|
                0 <= j < i && overlaps(#[trigger] index@[j], start as int, end as int)
                    ==> r@.contains(j as usize),
    {
        let e = &index[i];
        let meets = e.source_offset < end && (start < e.source_offset || e.source_length > start
            - e.source_offset);
        if meets {
            let ghost before = r@;
            r.push(i);
            proof {
                assert forall|j: int|
                    0 <= j < i + 1 && overlaps(#[trigger] index@[j], start as int, end as int)
                    implies r@.contains(j as usize) by {
                    if j < i {
                        let t = choose|t: int| 0 <= t < before.len() && before[t] == j as usize;
                        assert(r@[t] == j as usize);
                    } else {
                        assert(r@[before.len() as int] == j as usize);
                    }
                }
            }
        }
    }
    r
}

/// The pieces of the entries that meet `[start, end)`, joined in index order.
pub open spec fn joined(
    entries: Seq<IndexEntry>,
    pieces: Seq<Seq<u8>>,
    start: int,
    end: int,
    k: int,
) -> Seq<u8>
    decreases k,
{
    if k <= 0 {
        Seq::empty()
    } else if overlaps(entries[k - 1], start, end) {
        joined(entries, pieces, start, end, k - 1) + pieces[k - 1]
    } else {
        joined(entries, pieces, start, end, k - 1)
    }
}

/// `x`, but no more than `hi`.
pub open spec fn clamp(x: int, hi: int) -> int {
    if x < hi {
        x
    } else {
        hi
    }
}

spec fn covered_to(entries: Seq<IndexEntry>, k: int) -> int {
    if k <= 0 {
        0
    } else {
        source_end(entries[k - 1])
    }
}

proof fn lemma_joined_prefix(
    entries: Seq<IndexEntry>,
    source: Seq<u8>,
    pieces: Seq<Seq<u8>>,
    start: int,
    end: int,
    k: int,
)
    requires
        tiles(entries, source),
        0 <= start <= end,
        0 <= k <= entries.len(),
        pieces.len() == entries.len(),
        forall|i: int|
            0 <= i < entries.len() && overlaps(#[trigger] entries[i], start, end) ==> pieces[i]
                == source.subrange(
                if start > entries[i].source_offset {
                    start
                } else {
                    entries[i].source_offset as int
                },
                clamp(end, source_end(entries[i])),
            ),
    ensures
        joined(entries, pieces, start, end, k) == source.subrange(
            clamp(start, covered_to(entries, k)),
            clamp(end, covered_to(entries, k)),
        ),
    decreases k,
{
    if k > 0 {
        lemma_joined_prefix(entries, source, pieces, start, end, k - 1);
        let e = entries[k - 1];
        let a = covered_to(entries, k - 1);
        let b = source_end(e);
        if k - 1 > 0 {
            let i = k - 2;
            assert(entries[i + 1].source_offset == source_end(entries[i]));
        }
        assert(e.source_offset == a);
        assert(b <= source.len());
        if overlaps(e, start, end) {
            assert(joined(entries, pieces, start, end, k) =~= source.subrange(
                clamp(start, b),
                clamp(end, b),
            ));
        } else {
            assert(joined(entries, pieces, start, end, k) =~= source.subrange(
                clamp(start, b),
                clamp(end, b),
            ));
        }
    }
}

/// The parts of a tiled source that a range takes from each entry, joined in index order,
/// are the source in that range.
proof fn lemma_source_pieces_join(entries: Seq<IndexEntry>, source: Seq<u8>, start: int, end: int)
    requires
        tiles(entries, source),
        0 <= start <= end,
    ensures
        joined(entries, source_pieces(source, entries, start, end), start, end, entries.len() as int)
            == source.subrange(clamp(start, source.len() as int), clamp(end, source.len() as int)),
{
    let pieces = source_pieces(source, entries, start, end);
    assert forall|i: int|
        0 <= i < entries.len() && overlaps(#[trigger] entries[i], start, end) implies pieces[i]
            == source.subrange(
            if start > entries[i].source_offset {
                start
            } else {
                entries[i].source_offset as int
            },
            clamp(end, source_end(entries[i])),
        ) by {
        let e = entries[i];
        assert(pieces[i] =~= source.subrange(
            if start > e.source_offset {
                start
            } else {
                e.source_offset as int
            },
            clamp(end, source_end(e)),
        ));
    }
    lemma_joined_prefix(entries, source, pieces, start, end, entries.len() as int);
    if entries.len() > 0 {
        assert(covered_to(entries, entries.len() as int) == source.len());
    }
}

/// Any archive reads back, whoever wrote it: for index entries that tile a source, where
/// the stored bytes of each entry that meets `[start, end)` open (as `restore_chunk` opens
/// them) to exactly that entry's chunk of the source, `restore_piece` gives each such
/// entry its part of the range, and those parts joined in index order are exactly the
/// source in that range (cut at its end).
pub proof fn lemma_tiled_index_reads_back(
    entries: Seq<IndexEntry>,
    source: Seq<u8>,
    stored: Seq<Seq<u8>>,
    key: Option<Seq<u8>>,
    start: int,
    end: int,
)
    requires
        tiles(entries, source),
        0 <= start <= end,
        stored.len() == entries.len(),
        forall|i: int|
            0 <= i < entries.len() && overlaps(#[trigger] entries[i], start, end) ==> restore_outcome(
                entries[i],
                stored[i],
                key,
            ) == Ok::<Seq<u8>, XfmtError>(chunk_of(source, entries[i])),
    ensures
        forall|i: int|
            0 <= i < entries.len() && overlaps(#[trigger] entries[i], start, end) ==> piece_outcome(
                entries[i],
                stored[i],
                key,
                start,
                end,
            ) == Ok::<Seq<u8>, XfmtError>(source_pieces(source, entries, start, end)[i]),
        joined(entries, source_pieces(source, entries, start, end), start, end, entries.len() as int)
            == source.subrange(clamp(start, source.len() as int), clamp(end, source.len() as int)),
{
    assert forall|i: int|
        0 <= i < entries.len() && overlaps(#[trigger] entries[i], start, end) implies piece_outcome(
            entries[i],
            stored[i],
            key,
            start,
            end,
        ) == Ok::<Seq<u8>, XfmtError>(source_pieces(source, entries, start, end)[i]) by {
        let e = entries[i];
        let c = chunk_of(source, e);
        assert(source_end(e) <= source.len());
        assert(c.len() == e.source_length);
    }
    lemma_source_pieces_join(entries, source, start, end);
}

/// The parts of the chunks of `entries` that fall in `[start, end)`, as a reader should
/// restore them from `source`.
pub open spec fn source_pieces(source: Seq<u8>, entries: Seq<IndexEntry>, start: int, end: int) -> Seq<Seq<u8>> {
    Seq::new(entries.len(), |i: int| piece_of(entries[i], chunk_of(source, entries[i]), start, end))
}

/// The archive gives back what was packed. Where chunk digests tell the chunks apart and
/// no entry that meets `[start, end)` is longer than `MAX_DECOMPRESSED_CHUNK`: the bytes
/// each such entry points at are the stored form, in a form a reader opens, of that
/// entry's own chunk (so `restore_piece` gives its part of the range); and those parts,
/// joined in index order, are exactly the packed bytes in that range (cut at the end of
/// the source).
pub proof fn lemma_range_roundtrip(p: Packer, start: int, end: int)
    requires
        p.wf(),
        p.digests_distinct(),
        0 <= start <= end,
        forall|i: int|
            0 <= i < p.entries().len() && overlaps(#[trigger] p.entries()[i], start, end)
                ==> p.entries()[i].source_length <= MAX_DECOMPRESSED_CHUNK,
    ensures
        forall|i: int|
            0 <= i < p.entries().len() && overlaps(#[trigger] p.entries()[i], start, end) ==> {
                &&& restorable(
                    p.entries()[i],
                    stored_of(p.payload(), p.entries()[i]),
                    p.key(),
                    chunk_of(p.source(), p.entries()[i]),
                    p.level(),
                )
                &&& chunk_of(p.source(), p.entries()[i]).len() == p.entries()[i].source_length
            },
        joined(
            p.entries(),
            source_pieces(p.source(), p.entries(), start, end),
            start,
            end,
            p.entries().len() as int,
        ) == p.source().subrange(clamp(start, p.source().len() as int), clamp(end, p.source().len() as int)),
{
    let entries = p.entries();
    let source = p.source();
    p.lemma_entries_tile_source();
    assert forall|i: int|
        0 <= i < entries.len() && overlaps(#[trigger] entries[i], start, end) implies {
            &&& restorable(entries[i], stored_of(p.payload(), entries[i]), p.key(), chunk_of(source, entries[i]), p.level())
            &&& chunk_of(source, entries[i]).len() == entries[i].source_length
        } by {
        p.lemma_entry_points_at_its_chunk(i);
    }
    lemma_source_pieces_join(entries, source, start, end);
}

/// The whole archive gives back what was packed: the parts of all entries over the whole
/// source, joined in index order, are the source.
pub proof fn lemma_whole_roundtrip(p: Packer)
    requires
        p.wf(),
        p.digests_distinct(),
        forall|i: int|
            0 <= i < p.entries().len() ==> #[trigger] p.entries()[i].source_length <= MAX_DECOMPRESSED_CHUNK,
    ensures
        joined(
            p.entries(),
            source_pieces(p.source(), p.entries(), 0, p.source().len() as int),
            0,
            p.source().len() as int,
            p.entries().len() as int,
        ) == p.source(),
{
    lemma_range_roundtrip(p, 0, p.source().len() as int);
    assert(p.source().subrange(0, p.source().len() as int) =~= p.source());
}

} // verus!
