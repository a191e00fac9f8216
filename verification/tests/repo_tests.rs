use xfmt::error::XfmtError;
use xfmt::repo::get_repo_chunk_path;

#[test]
fn chunk_path_replaces_colon_and_shards_by_two_characters() {
    let p = get_repo_chunk_path("/data/repo", "ab:12:ff").unwrap();
    assert_eq!(p.root, "/data/repo");
    assert_eq!(p.shard, "ab");
    assert_eq!(p.file_name, "ab_12_ff");
}

#[test]
fn digest_labels_are_stored_under_their_hex_digits() {
    let id = "sha256:e3b0c44298fc1c149afbf4c8996fb92427ae41e4649b934ca495991b7852b855";
    let p = get_repo_chunk_path("/data/repo", id).unwrap();
    assert_eq!(p.root, "/data/repo");
    assert_eq!(p.shard, "e3");
    assert_eq!(p.file_name, "e3b0c44298fc1c149afbf4c8996fb92427ae41e4649b934ca495991b7852b855");
    let q = get_repo_chunk_path("/data/repo", "sha256:ab12").unwrap();
    assert_eq!(q.shard, "ab");
    assert_eq!(q.file_name, "ab12");
}

#[test]
fn digest_labels_still_check_their_digits() {
    assert_eq!(get_repo_chunk_path("r", "sha256:zz").unwrap_err(), XfmtError::InvalidChunkId);
    assert_eq!(get_repo_chunk_path("r", "sha256:a").unwrap_err(), XfmtError::ChunkIdTooShort);
    assert_eq!(get_repo_chunk_path("r", "sha256:").unwrap_err(), XfmtError::ChunkIdTooShort);
    assert_eq!(get_repo_chunk_path("r", "sha512:ab").unwrap_err(), XfmtError::InvalidChunkId);
}

#[test]
fn chunk_path_of_hex_id() {
    let p = get_repo_chunk_path("r", "ab-CD_12").unwrap();
    assert_eq!(p.shard, "ab");
    assert_eq!(p.file_name, "ab-CD_12");
}

#[test]
fn chunk_path_refuses_other_characters() {
    assert_eq!(get_repo_chunk_path("r", "../etc").unwrap_err(), XfmtError::InvalidChunkId);
    assert_eq!(get_repo_chunk_path("r", "ab/cd").unwrap_err(), XfmtError::InvalidChunkId);
    assert_eq!(get_repo_chunk_path("r", "ab\u{e9}").unwrap_err(), XfmtError::InvalidChunkId);
}

#[test]
fn chunk_path_refuses_short_ids() {
    assert_eq!(get_repo_chunk_path("r", "a").unwrap_err(), XfmtError::ChunkIdTooShort);
    assert_eq!(get_repo_chunk_path("r", "").unwrap_err(), XfmtError::ChunkIdTooShort);
    assert_eq!(get_repo_chunk_path("r", "x").unwrap_err(), XfmtError::InvalidChunkId);
}
