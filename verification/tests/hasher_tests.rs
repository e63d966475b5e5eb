use dtar::hasher::{insert_into_file_map, merge_file_maps, FileHasher, FileMap};
use dtar::map::FileInfo;

fn file(path: &str, size: u64, hash: Vec<u8>) -> FileInfo {
    FileInfo::new(path.to_string(), size, 0, 0).set_hash(hash).unwrap()
}

fn groups(m: &FileMap) -> Vec<(String, Vec<String>)> {
    (0..m.num_groups())
        .map(|i| {
            let (k, fs) = m.group(i);
            (k.clone(), fs.iter().map(|f| f.path.clone()).collect())
        })
        .collect()
}

#[test]
fn file_hasher_digest_of_abc() {
    let mut h = FileHasher::new();
    assert!(h.absorb(b"a"));
    assert!(h.absorb(b"bc"));
    assert!(!h.absorb(b""));
    let d = h.finish();
    let hex = file("x", 1, d).hash_to_hex();
    assert_eq!(hex, "ba7816bf8f01cfea414140de5dae2223b00361a396177a9cb410ff61f20015ad");
}

#[test]
fn file_hasher_digest_of_nothing() {
    let h = FileHasher::new();
    let d = h.finish();
    assert_eq!(d.len(), 32);
    let hex = file("x", 1, d).hash_to_hex();
    assert_eq!(hex, "e3b0c44298fc1c149afbf4c8996fb92427ae41e4649b934ca495991b7852b855");
}

#[test]
fn file_hasher_does_not_depend_on_chunking() {
    let mut one = FileHasher::new();
    one.absorb(b"hello world");
    let mut many = FileHasher::new();
    for chunk in [&b"he"[..], b"llo", b" ", b"world"] {
        many.absorb(chunk);
    }
    assert_eq!(one.finish(), many.finish());
}

#[test]
fn insert_groups_identical_hashes_in_order() {
    let mut m = FileMap::new();
    m = insert_into_file_map(m, file("a", 3, vec![0xab]));
    m = insert_into_file_map(m, file("b", 3, vec![0xcd]));
    m = insert_into_file_map(m, file("c", 3, vec![0xab]));
    assert_eq!(
        groups(&m),
        vec![
            ("ab".to_string(), vec!["a".to_string(), "c".to_string()]),
            ("cd".to_string(), vec!["b".to_string()]),
        ]
    );
}

#[test]
fn empty_files_are_keyed_by_path() {
    let mut m = FileMap::new();
    m = insert_into_file_map(m, file("/x/e1", 0, vec![0xab]));
    m = insert_into_file_map(m, file("/x/e2", 0, vec![0xab]));
    m = insert_into_file_map(m, file("/x/e1", 0, vec![]));
    assert_eq!(
        groups(&m),
        vec![
            ("empty: /x/e1".to_string(), vec!["/x/e1".to_string(), "/x/e1".to_string()]),
            ("empty: /x/e2".to_string(), vec!["/x/e2".to_string()]),
        ]
    );
}

#[test]
fn merge_equals_sequential_insertion() {
    let files = vec![
        file("a", 1, vec![1]),
        file("b", 1, vec![2]),
        file("c", 1, vec![1]),
        file("d", 0, vec![]),
        file("e", 1, vec![2]),
        file("f", 1, vec![3]),
    ];
    let mut all = FileMap::new();
    for f in files.iter().cloned() {
        all = insert_into_file_map(all, f);
    }
    let mut left = FileMap::new();
    for f in files[..3].iter().cloned() {
        left = insert_into_file_map(left, f);
    }
    let mut right = FileMap::new();
    for f in files[3..].iter().cloned() {
        right = insert_into_file_map(right, f);
    }
    let merged = merge_file_maps(left, right);
    assert_eq!(groups(&merged), groups(&all));
    assert_eq!(
        groups(&all),
        vec![
            ("01".to_string(), vec!["a".to_string(), "c".to_string()]),
            ("02".to_string(), vec!["b".to_string(), "e".to_string()]),
            ("empty: d".to_string(), vec!["d".to_string()]),
            ("03".to_string(), vec!["f".to_string()]),
        ]
    );
}

#[test]
fn merge_with_empty_maps() {
    let mut m = FileMap::new();
    m = insert_into_file_map(m, file("a", 1, vec![1]));
    let before = groups(&m);
    let m = merge_file_maps(m, FileMap::new());
    assert_eq!(groups(&m), before);
    let m = merge_file_maps(FileMap::new(), m);
    assert_eq!(groups(&m), before);
}

#[test]
fn symlinks_are_keyed_by_path_and_never_join_files() {
    let mut m = FileMap::new();
    m = insert_into_file_map(m, FileInfo::new_symlink("/x/l".to_string(), 3, 0, 0, "t".to_string()));
    m = insert_into_file_map(m, file("/x/t", 3, vec![0x74]));
    m = insert_into_file_map(m, FileInfo::new_symlink("/x/k".to_string(), 3, 0, 0, "t".to_string()));
    assert_eq!(
        groups(&m),
        vec![
            ("symlink: /x/l".to_string(), vec!["/x/l".to_string()]),
            ("74".to_string(), vec!["/x/t".to_string()]),
            ("symlink: /x/k".to_string(), vec!["/x/k".to_string()]),
        ]
    );
}
