use dtar::map::{Archive, DedupMap, FileInfo};

fn make_file_info(hash: Vec<u8>) -> FileInfo {
    FileInfo::new("/tmp/dtar_hash_to_hex_test/dummy.bin".to_string(), 0, 0, 0)
        .set_hash(hash)
        .unwrap()
}

#[test]
fn hash_to_hex_returns_empty_string_for_empty_hash() {
    let file_info = make_file_info(vec![]);
    assert_eq!(file_info.hash_to_hex(), "");
}

#[test]
fn hash_to_hex_converts_single_zero_byte() {
    let file_info = make_file_info(vec![0x00]);
    assert_eq!(file_info.hash_to_hex(), "00");
}

#[test]
fn hash_to_hex_preserves_leading_zeroes() {
    let file_info = make_file_info(vec![0x00, 0x01, 0x0a, 0x0f]);
    assert_eq!(file_info.hash_to_hex(), "00010a0f");
}

#[test]
fn hash_to_hex_converts_known_sequence() {
    let file_info = make_file_info(vec![0xde, 0xad, 0xbe, 0xef]);
    assert_eq!(file_info.hash_to_hex(), "deadbeef");
}

#[test]
fn hash_to_hex_uses_lowercase_hex_letters() {
    let file_info = make_file_info(vec![0xab, 0xcd, 0xef]);
    assert_eq!(file_info.hash_to_hex(), "abcdef");
}

#[test]
fn hash_to_hex_handles_all_possible_byte_values() {
    let hash: Vec<u8> = (0u8..=255).collect();
    let file_info = make_file_info(hash);

    let hex = file_info.hash_to_hex();

    assert_eq!(hex.len(), 512);
    assert!(hex.starts_with("00010203"));
    assert!(hex.ends_with("fcfdfeff"));
}

#[test]
fn hex_of_distinct_hashes_differs() {
    let a = make_file_info(vec![0x01, 0x23]);
    let b = make_file_info(vec![0x12, 0x30]);
    assert_ne!(a.hash_to_hex(), b.hash_to_hex());
}

#[test]
fn file_info_new_keeps_fields_and_has_no_hash() {
    let f = FileInfo::new("a/b".to_string(), 42, 1000, 100);
    assert_eq!(f.path, "a/b");
    assert!(f.hash.is_empty());
    assert_eq!(f.size, 42);
    assert_eq!(f.uid, 1000);
    assert_eq!(f.gid, 100);
    assert!(!f.is_empty());
    assert!(FileInfo::new("x".to_string(), 0, 0, 0).is_empty());
}

#[test]
fn set_hash_replaces_only_the_hash() {
    let f = FileInfo::new("a/b".to_string(), 7, 1, 2).set_hash(vec![9, 8]).unwrap();
    assert_eq!(f.hash, vec![9, 8]);
    assert_eq!(f.path_as_string(), "a/b");
    assert_eq!(f.size, 7);
}

#[test]
fn sanitize_path_removes_all_leading_slashes() {
    let f = FileInfo::new("///usr/share/doc".to_string(), 1, 0, 0);
    assert_eq!(f.sanitize_path(), "usr/share/doc");
    let g = FileInfo::new("relative/a/".to_string(), 1, 0, 0);
    assert_eq!(g.sanitize_path(), "relative/a/");
    let h = FileInfo::new("/".to_string(), 1, 0, 0);
    assert_eq!(h.sanitize_path(), "");
    let u = FileInfo::new("/tmp/ünïcödé/x".to_string(), 1, 0, 0);
    assert_eq!(u.sanitize_path(), "tmp/ünïcödé/x");
}

#[test]
fn sanitize_path_is_idempotent() {
    let f = FileInfo::new("//a//b".to_string(), 1, 0, 0);
    let once = f.sanitize_path();
    let twice = FileInfo::new(once.clone(), 1, 0, 0).sanitize_path();
    assert_eq!(once, "a//b");
    assert_eq!(once, twice);
}

#[test]
fn dedup_map_first_path_is_original_rest_are_duplicates() {
    let mut m = DedupMap::new();
    let h = "abcd".to_string();
    assert!(m.get_originals("abcd").is_none());
    assert!(m.get_duplicates("abcd").is_none());
    m.add_file(&h, "a".to_string());
    assert_eq!(m.get_originals("abcd").unwrap(), "a");
    assert!(m.get_duplicates("abcd").unwrap().is_empty());
    m.add_file(&h, "b".to_string());
    m.add_file(&h, "c".to_string());
    assert_eq!(m.get_originals("abcd").unwrap(), "a");
    assert_eq!(m.get_duplicates("abcd").unwrap(), &vec!["b".to_string(), "c".to_string()]);
    assert!(m.get_originals("other").is_none());
}

#[test]
fn dedup_map_iter_originals_in_recording_order() {
    let mut m = DedupMap::default();
    m.add_file(&"h2".to_string(), "x".to_string());
    m.add_file(&"h1".to_string(), "y".to_string());
    m.add_file(&"h2".to_string(), "z".to_string());
    let o = m.iter_originals();
    assert_eq!(o, vec![("h2".to_string(), "x".to_string()), ("h1".to_string(), "y".to_string())]);
}

#[test]
fn archive_counts_duplicates_only_in_original_size() {
    let mut a = Archive::new();
    assert_eq!(a.get_orig_size(), 0);
    assert_eq!(a.get_dedup_size(), 0);
    let f = FileInfo::new("f".to_string(), 10, 0, 0);
    let d = FileInfo::new("d".to_string(), 10, 0, 0);
    a.add_file(&f);
    a.add_dup(&d);
    assert_eq!(a.get_orig_size(), 20);
    assert_eq!(a.get_dedup_size(), 10);
}
