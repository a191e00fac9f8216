use xfmt::error::XfmtError;
use xfmt::models::IndexEntry;
use xfmt::pack::{default_archive_path, payload_spool_path, Packer};
use xfmt::unpack::{chunks_for_range, range_end, restore_chunk, restore_piece};

const ABC_SHA256: &str = "ba7816bf8f01cfea414140de5dae2223b00361a396177a9cb410ff61f20015ad";

fn pack_all(p: &mut Packer, chunks: &[&[u8]], payload: &mut Vec<u8>) {
    for (k, c) in chunks.iter().enumerate() {
        let nonce = [k as u8; 12];
        if let Some(stored) = p.process_chunk_with_nonce(c, nonce).unwrap() {
            payload.extend_from_slice(&stored);
        }
    }
}

fn stored<'a>(payload: &'a [u8], e: &IndexEntry) -> &'a [u8] {
    &payload[e.stored_offset as usize..(e.stored_offset + e.stored_length) as usize]
}

#[test]
fn entries_record_offsets_and_digests() {
    let mut p = Packer::new(None, 3);
    let mut payload = Vec::new();
    pack_all(&mut p, &[b"abc", b"defg"], &mut payload);
    let (index, object_id) = p.finish();
    assert_eq!(index.len(), 2);
    assert_eq!(index[0].source_offset, 0);
    assert_eq!(index[0].source_length, 3);
    assert_eq!(index[1].source_offset, 3);
    assert_eq!(index[1].source_length, 4);
    assert_eq!(index[0].digest, format!("sha256:{}", ABC_SHA256));
    assert_eq!(index[0].chunk_id, index[0].digest);
    assert_eq!(index[0].codec, "zstd");
    assert_eq!(index[0].nonce, None);
    assert_eq!(index[0].stored_offset, 0);
    assert_eq!(index[1].stored_offset, index[0].stored_length);
    assert_eq!(payload.len() as u64, index[0].stored_length + index[1].stored_length);
    let mut h = sha2::Sha256::default();
    sha2::Digest::update(&mut h, b"abcdefg");
    let whole = hex::encode(sha2::Digest::finalize(h));
    assert_eq!(object_id, format!("sha256:{}", whole));
}

#[test]
fn stored_form_is_the_zstd_frame() {
    let mut p = Packer::new(None, 3);
    let out = p.process_chunk(b"hello hello hello").unwrap().unwrap();
    assert_eq!(out, zstd::encode_all(&b"hello hello hello"[..], 3).unwrap());
    assert_ne!(out, b"hello hello hello".to_vec());
}

#[test]
fn repeated_chunk_is_stored_once() {
    let mut p = Packer::new(None, 3);
    let first = p.process_chunk(b"same bytes").unwrap();
    assert!(first.is_some());
    let second = p.process_chunk(b"same bytes").unwrap();
    assert!(second.is_none());
    let (index, _) = p.finish();
    assert_eq!(index[0].stored_offset, index[1].stored_offset);
    assert_eq!(index[0].stored_length, index[1].stored_length);
    assert_eq!(index[1].source_offset, 10);
}

#[test]
fn unencrypted_chunk_restores() {
    let mut p = Packer::new(None, 3);
    let mut payload = Vec::new();
    pack_all(&mut p, &[b"some text to keep"], &mut payload);
    let (index, _) = p.finish();
    let v = restore_chunk(&index[0], stored(&payload, &index[0]), &None).unwrap();
    assert_eq!(v, b"some text to keep".to_vec());
}

#[test]
fn encrypted_chunk_restores_with_the_key_only() {
    let key = [7u8; 32];
    let mut p = Packer::new(Some(key), 3);
    let mut payload = Vec::new();
    pack_all(&mut p, &[b"secret data"], &mut payload);
    let (index, _) = p.finish();
    let e = &index[0];
    assert_eq!(e.nonce.as_deref(), Some("000000000000000000000000"));
    let frame = zstd::encode_all(&b"secret data"[..], 3).unwrap();
    assert_eq!(e.stored_length as usize, frame.len() + 16);
    let v = restore_chunk(e, stored(&payload, e), &Some(key)).unwrap();
    assert_eq!(v, b"secret data".to_vec());
    assert_eq!(
        restore_chunk(e, stored(&payload, e), &Some([8u8; 32])).unwrap_err(),
        XfmtError::DecryptionFailed
    );
}

#[test]
fn encrypted_entry_needs_a_valid_nonce() {
    let mut e = IndexEntry {
        chunk_id: "x".to_string(),
        source_offset: 0,
        source_length: 1,
        stored_offset: 0,
        stored_length: 1,
        codec: "zstd".to_string(),
        digest: "x".to_string(),
        nonce: None,
    };
    assert_eq!(restore_chunk(&e, &[0], &Some([0; 32])).unwrap_err(), XfmtError::NonceMissing);
    e.nonce = Some("zz".to_string());
    assert_eq!(restore_chunk(&e, &[0], &Some([0; 32])).unwrap_err(), XfmtError::InvalidHex);
    e.nonce = Some("0011".to_string());
    assert_eq!(restore_chunk(&e, &[0], &Some([0; 32])).unwrap_err(), XfmtError::InvalidLength);
    assert_eq!(restore_chunk(&e, &[0, 1, 2], &None).unwrap_err(), XfmtError::DecompressionFailed);
}

fn extract(index: &[IndexEntry], payload: &[u8], key: &Option<[u8; 32]>, start: u64, length: Option<u64>) -> Vec<u8> {
    let end = range_end(start, length);
    let mut out = Vec::new();
    for i in chunks_for_range(index, start, end) {
        let e = &index[i];
        out.extend(restore_piece(e, stored(payload, e), key, start, end).unwrap());
    }
    out
}

#[test]
fn any_range_reads_back_what_was_packed() {
    let chunks: [&[u8]; 4] = [b"0123456789", b"abcdef", b"0123456789", b"XYZ"];
    let source: Vec<u8> = chunks.concat();
    for key in [None, Some([3u8; 32])] {
        let mut p = Packer::new(key, 5);
        let mut payload = Vec::new();
        pack_all(&mut p, &chunks, &mut payload);
        let (index, _) = p.finish();
        assert_eq!(extract(&index, &payload, &key, 0, None), source);
        for start in 0..=source.len() as u64 {
            for len in 0..=(source.len() as u64 - start + 2) {
                let got = extract(&index, &payload, &key, start, Some(len));
                let hi = std::cmp::min(source.len() as u64, start + len) as usize;
                assert_eq!(got, source[start as usize..hi].to_vec());
            }
        }
    }
}

#[test]
fn chunks_for_range_lists_overlapping_entries_in_order() {
    let mut p = Packer::new(None, 1);
    let mut payload = Vec::new();
    pack_all(&mut p, &[b"aaaa", b"bbbb", b"cccc"], &mut payload);
    let (index, _) = p.finish();
    assert_eq!(chunks_for_range(&index, 0, 4), vec![0]);
    assert_eq!(chunks_for_range(&index, 3, 5), vec![0, 1]);
    assert_eq!(chunks_for_range(&index, 4, 12), vec![1, 2]);
    assert_eq!(chunks_for_range(&index, 12, 20), Vec::<usize>::new());
    assert_eq!(chunks_for_range(&index, 5, 5), vec![1]);
    assert_eq!(chunks_for_range(&index, 4, 4), Vec::<usize>::new());
}

#[test]
fn corrupt_chunk_shorter_than_its_entry_is_refused() {
    let mut p = Packer::new(None, 3);
    let mut payload = Vec::new();
    pack_all(&mut p, &[b"0123456789"], &mut payload);
    let (mut index, _) = p.finish();
    index[0].source_length = 20;
    let e = index[0].clone();
    assert_eq!(
        restore_piece(&e, stored(&payload, &e), &None, 0, 15).unwrap_err(),
        XfmtError::CorruptChunk
    );
    assert_eq!(restore_piece(&e, stored(&payload, &e), &None, 0, 30).unwrap(), b"0123456789".to_vec());
}

#[test]
fn empty_source_has_no_entries_and_the_empty_digest() {
    let p = Packer::new(None, 3);
    assert!(p.last_entry().is_none());
    let (index, object_id) = p.finish();
    assert!(index.is_empty());
    assert_eq!(
        object_id,
        "sha256:e3b0c44298fc1c149afbf4c8996fb92427ae41e4649b934ca495991b7852b855"
    );
}

#[test]
fn last_entry_is_the_chunk_fed_last() {
    let mut p = Packer::new(None, 3);
    p.process_chunk(b"one").unwrap();
    p.process_chunk(b"two!").unwrap();
    let e = p.last_entry().unwrap();
    assert_eq!(e.source_offset, 3);
    assert_eq!(e.source_length, 4);
}

#[test]
fn empty_chunk_is_recorded() {
    let mut p = Packer::new(None, 3);
    let out = p.process_chunk(b"").unwrap().unwrap();
    assert_eq!(restore_chunk(p.last_entry().unwrap(), &out, &None).unwrap(), Vec::<u8>::new());
}

#[test]
fn archive_and_spool_names() {
    assert_eq!(default_archive_path("movie.mp4"), "movie.mp4.xfmt");
    assert_eq!(payload_spool_path("out.xfmt"), "out.xfmt.payloads");
}

#[test]
fn entry_longer_than_the_decompression_cap_is_refused() {
    let mut p = Packer::new(None, 3);
    let out = p.process_chunk(b"tiny").unwrap().unwrap();
    let mut e = p.last_entry().unwrap().clone();
    e.source_length = 104857601;
    assert_eq!(restore_chunk(&e, &out, &None).unwrap_err(), XfmtError::ChunkTooLarge);
    assert_eq!(restore_piece(&e, &out, &None, 0, 10).unwrap_err(), XfmtError::ChunkTooLarge);
    e.source_length = 104857600;
    assert_eq!(restore_chunk(&e, &out, &None).unwrap(), b"tiny".to_vec());
}

#[test]
fn tampered_stored_bytes_fail_authentication() {
    let key = [9u8; 32];
    let mut p = Packer::new(Some(key), 3);
    let mut out = p.process_chunk_with_nonce(b"authentic bytes", [1; 12]).unwrap().unwrap();
    let e = p.last_entry().unwrap().clone();
    assert_eq!(e.stored_length as usize, zstd::encode_all(&b"authentic bytes"[..], 3).unwrap().len() + 16);
    out[0] ^= 1;
    assert_eq!(restore_chunk(&e, &out, &Some(key)).unwrap_err(), XfmtError::DecryptionFailed);
    assert_eq!(restore_piece(&e, &out, &Some(key), 0, 5).unwrap_err(), XfmtError::DecryptionFailed);
}

#[test]
fn piece_is_the_part_of_the_chunk_in_range() {
    let mut p = Packer::new(None, 3);
    p.process_chunk(b"0123").unwrap();
    let out = p.process_chunk(b"456789").unwrap().unwrap();
    let e = p.last_entry().unwrap().clone();
    assert_eq!(restore_piece(&e, &out, &None, 5, 8).unwrap(), b"567".to_vec());
    assert_eq!(restore_piece(&e, &out, &None, 2, 100).unwrap(), b"456789".to_vec());
}

#[test]
fn payload_is_each_chunk_once_in_order_of_first_appearance() {
    let mut p = Packer::new(Some([5u8; 32]), 3);
    let mut payload = Vec::new();
    pack_all(&mut p, &[b"first", b"second", b"first", b"third", b"second"], &mut payload);
    let (index, _) = p.finish();
    let mut joined = Vec::new();
    for k in [0usize, 1, 3] {
        joined.extend_from_slice(stored(&payload, &index[k]));
    }
    assert_eq!(joined, payload);
    assert_eq!(index[2].stored_offset, index[0].stored_offset);
    assert_eq!(index[4].stored_offset, index[1].stored_offset);
    assert_eq!(index[2].nonce, index[0].nonce);
}

fn entry(source_offset: u64, source_length: u64) -> IndexEntry {
    IndexEntry {
        chunk_id: "ab".to_string(),
        source_offset,
        source_length,
        stored_offset: 0,
        stored_length: 0,
        codec: "zstd".to_string(),
        digest: "ab".to_string(),
        nonce: None,
    }
}

#[test]
fn frames_from_other_zstd_encoders_restore() {
    let e = entry(0, 5);
    let frame = zstd::bulk::compress(b"hello", 19).unwrap();
    assert_eq!(restore_chunk(&e, &frame, &None).unwrap(), b"hello".to_vec());
    assert_eq!(
        restore_chunk(&e, b"not a zstd frame", &None).unwrap_err(),
        XfmtError::DecompressionFailed
    );
}

#[test]
fn hand_written_index_reads_back_any_range() {
    let parts: [&[u8]; 3] = [b"alpha-", b"beta-", b"gamma"];
    let source: Vec<u8> = parts.concat();
    let mut index = Vec::new();
    let mut stored = Vec::new();
    let mut off = 0u64;
    for (k, part) in parts.iter().enumerate() {
        index.push(entry(off, part.len() as u64));
        stored.push(zstd::bulk::compress(part, k as i32 + 1).unwrap());
        off += part.len() as u64;
    }
    for start in 0..=source.len() as u64 + 1 {
        for end in start..=source.len() as u64 + 2 {
            let mut got = Vec::new();
            for i in chunks_for_range(&index, start, end) {
                got.extend(restore_piece(&index[i], &stored[i], &None, start, end).unwrap());
            }
            let lo = std::cmp::min(start as usize, source.len());
            let hi = std::cmp::min(end as usize, source.len());
            assert_eq!(got, source[lo..hi].to_vec());
        }
    }
}
