use xfmt::error::XfmtError;
use xfmt::manifest::{attach_signature, bundle_manifest, chunking_policy, file_manifest, BundleLayout};
use xfmt::models::{MediaInfo, ParityConfig};

#[test]
fn chunking_policy_sizes() {
    let fast = chunking_policy(true);
    assert_eq!((fast.min_size, fast.avg_size, fast.max_size), (262144, 1048576, 4194304));
    let slow = chunking_policy(false);
    assert_eq!((slow.min_size, slow.avg_size, slow.max_size), (1048576, 16777216, 67108864));
    assert_eq!(slow.mode, "content_defined");
}

#[test]
fn file_manifest_fields() {
    let m = file_manifest(
        "dir/movie.mp4",
        "sha256:00".to_string(),
        "movie.mp4".to_string(),
        42,
        false,
        Some([0xab; 16]),
        true,
        None,
        None,
        None,
    );
    assert_eq!(m.format, "XFMT");
    assert_eq!(m.version, "0.1");
    assert_eq!(m.original_type, "video/mp4");
    assert_eq!(m.transform_profile, "generic.reversible.v1");
    assert_eq!(m.integrity.hash, "sha256");
    assert_eq!(m.integrity.tree, "none");
    assert!(m.security.encrypted);
    assert!(m.security.signed);
    assert_eq!(m.security.salt.as_deref(), Some("abababababababababababababababab"));
    assert!(m.bundle_files.is_none());
    assert!(m.signature.is_none());
    assert!(m.parity.is_none());
    assert!(m.media_info.is_none());
}

#[test]
fn parity_and_media_details_are_recorded_as_given() {
    let parity = ParityConfig { data_shards: 10, parity_shards: 2, shard_size: 4096 };
    let media = MediaInfo { width: 640, height: 480, format: "png".to_string() };
    let m = file_manifest(
        "pic.png",
        "id".to_string(),
        "pic.png".to_string(),
        9,
        true,
        None,
        false,
        None,
        Some(parity),
        Some(media),
    );
    let p = m.parity.unwrap();
    assert_eq!((p.data_shards, p.parity_shards, p.shard_size), (10, 2, 4096));
    let i = m.media_info.unwrap();
    assert_eq!((i.width, i.height, i.format.as_str()), (640, 480, "png"));
    let l = BundleLayout::new();
    let b = bundle_manifest(
        "id".to_string(),
        "d".to_string(),
        l,
        true,
        None,
        false,
        None,
        Some(ParityConfig { data_shards: 4, parity_shards: 1, shard_size: 1 }),
    );
    assert_eq!(b.parity.unwrap().parity_shards, 1);
    assert!(b.media_info.is_none());
}

#[test]
fn unknown_extension_is_octet_stream() {
    let m = file_manifest("blob", "id".to_string(), "blob".to_string(), 0, true, None, false, None, None, None);
    assert_eq!(m.original_type, "application/octet-stream");
    assert!(!m.security.encrypted);
    assert!(m.security.salt.is_none());
}

#[test]
fn bundle_files_are_laid_end_to_end() {
    let mut l = BundleLayout::new();
    l.add_file("a.txt", 5).unwrap();
    l.add_file("sub\\b.bin", 0).unwrap();
    l.add_file("sub/c", 7).unwrap();
    let m = bundle_manifest("id".to_string(), "folder".to_string(), l, true, None, false, Some("repo".to_string()), None);
    assert_eq!(m.original_type, "application/x-directory");
    assert_eq!(m.transform_profile, "bundle.v1");
    assert_eq!(m.original_size, 12);
    assert_eq!(m.repository_path.as_deref(), Some("repo"));
    let files = m.bundle_files.unwrap();
    let got: Vec<(String, u64, u64)> = files.into_iter().map(|f| (f.rel_path, f.size, f.offset)).collect();
    assert_eq!(
        got,
        vec![("a.txt".to_string(), 5, 0), ("sub/b.bin".to_string(), 0, 5), ("sub/c".to_string(), 7, 5)]
    );
}

#[test]
fn bundle_total_beyond_64_bits_is_refused() {
    let mut l = BundleLayout::new();
    l.add_file("a", u64::MAX).unwrap();
    assert_eq!(l.add_file("b", 1), Err(XfmtError::OffsetOverflow));
    let (files, total) = l.into_parts();
    assert_eq!(files.len(), 1);
    assert_eq!(total, u64::MAX);
}

#[test]
fn signature_is_attached() {
    let mut m = file_manifest("f", "id".to_string(), "f".to_string(), 0, true, None, true, None, None, None);
    attach_signature(&mut m, "aa".to_string(), "bb".to_string());
    assert_eq!(m.signature.as_deref(), Some("aa"));
    assert_eq!(m.public_key.as_deref(), Some("bb"));
}
