use dtar::archive::{
    checked_total_size, dedup_map_entry_name, generate_dedup_map_path, plan_archive, select_dedup_map,
    verify_entry, DedupMapError, EntryKind, TarEntry, VerifyError,
};
use dtar::hasher::{insert_into_file_map, FileMap};
use dtar::map::{DedupMap, FileInfo};

fn file(path: &str, size: u64, hash: Vec<u8>, uid: u32) -> FileInfo {
    FileInfo::new(path.to_string(), size, uid, uid + 1).set_hash(hash).unwrap()
}

#[test]
fn dedup_map_path_for_stdout_is_none() {
    assert_eq!(generate_dedup_map_path("-"), None);
}

#[test]
fn dedup_map_path_replaces_tar_extension() {
    assert_eq!(generate_dedup_map_path("backup.tar"), Some("backup.ddm".to_string()));
    assert_eq!(generate_dedup_map_path("/srv/x.tar.d/b.tar"), Some("/srv/x.tar.d/b.ddm".to_string()));
    assert_eq!(generate_dedup_map_path("a.tar.tar"), Some("a.tar.ddm".to_string()));
    assert_eq!(generate_dedup_map_path(".tar"), Some(".ddm".to_string()));
}

#[test]
fn dedup_map_path_appends_extension_otherwise() {
    assert_eq!(generate_dedup_map_path("backup"), Some("backup.ddm".to_string()));
    assert_eq!(generate_dedup_map_path("b.tgz"), Some("b.tgz.ddm".to_string()));
    assert_eq!(generate_dedup_map_path(""), Some(".ddm".to_string()));
    assert_eq!(generate_dedup_map_path("--"), Some("--.ddm".to_string()));
}

#[test]
fn dedup_map_entry_name_is_archive_ddm() {
    assert_eq!(dedup_map_entry_name(), "archive.ddm");
}

fn sample_map() -> FileMap {
    let mut m = FileMap::new();
    m = insert_into_file_map(m, file("/data/a", 5, vec![0xaa], 1));
    m = insert_into_file_map(m, file("/data/b", 7, vec![0xbb], 2));
    m = insert_into_file_map(m, file("/data/c", 5, vec![0xaa], 3));
    m = insert_into_file_map(m, file("/data/d", 5, vec![0xaa], 4));
    m
}

fn describe(e: &TarEntry) -> String {
    match e {
        TarEntry::File { source, name } => format!("file {} as {}", source, name),
        TarEntry::Link { name, target, uid, gid } => format!("link {} -> {} ({}:{})", name, target, uid, gid),
        TarEntry::Symlink { name, target, uid, gid } => {
            format!("symlink {} -> {} ({}:{})", name, target, uid, gid)
        }
    }
}

#[test]
fn plan_stores_first_copy_and_links_the_rest() {
    let m = sample_map();
    assert_eq!(checked_total_size(&m), Some(22));
    let plan = plan_archive("out.tar", &m);
    let entries: Vec<String> = plan.entries.iter().map(describe).collect();
    assert_eq!(
        entries,
        vec![
            "file /data/a as data/a".to_string(),
            "link data/c -> data/a (3:4)".to_string(),
            "link data/d -> data/a (4:5)".to_string(),
            "file /data/b as data/b".to_string(),
        ]
    );
    assert_eq!(plan.archive.get_orig_size(), 22);
    assert_eq!(plan.archive.get_dedup_size(), 12);
    assert_eq!(plan.dedup_map.get_originals("aa").unwrap(), "data/a");
    assert_eq!(
        plan.dedup_map.get_duplicates("aa").unwrap(),
        &vec!["data/c".to_string(), "data/d".to_string()]
    );
    assert!(plan.dedup_map.get_originals("bb").is_none());
    assert_eq!(plan.dedup_map_path, "out.ddm");
}

#[test]
fn plan_to_stdout_writes_map_under_default_name() {
    let plan = plan_archive("-", &FileMap::new());
    assert!(plan.entries.is_empty());
    assert_eq!(plan.dedup_map_path, "archive.ddm");
    assert_eq!(plan.archive.get_orig_size(), 0);
}

#[test]
fn checked_total_size_detects_overflow() {
    let mut m = FileMap::new();
    m = insert_into_file_map(m, file("a", u64::MAX, vec![1], 0));
    assert_eq!(checked_total_size(&m), Some(u64::MAX));
    m = insert_into_file_map(m, file("b", 1, vec![2], 0));
    assert_eq!(checked_total_size(&m), None);
}

#[test]
fn planned_links_pass_verification() {
    let m = sample_map();
    let plan = plan_archive("x.tar", &m);
    let name = dedup_map_entry_name();
    for e in &plan.entries {
        if let TarEntry::Link { name: n, target, .. } = e {
            assert!(verify_entry(&plan.dedup_map, &name, n, EntryKind::HardLink, None, Some(target.clone())).is_ok());
        }
    }
    // the stored copy of a duplicated file is recorded under its hash
    assert!(verify_entry(
        &plan.dedup_map,
        &name,
        &"data/a".to_string(),
        EntryKind::Regular,
        Some(vec![0xaa]),
        None
    )
    .is_ok());
}

#[test]
fn verify_rejects_unrecorded_file() {
    let mut map = DedupMap::new();
    map.add_file(&"aa".to_string(), "x".to_string());
    let name = "archive.ddm".to_string();
    match verify_entry(&map, &name, &"y".to_string(), EntryKind::Regular, Some(vec![0xaa]), None) {
        Err(VerifyError::NotInDedupMap { path, hash }) => {
            assert_eq!(path, "y");
            assert_eq!(hash, "aa");
        }
        _ => panic!("expected NotInDedupMap"),
    }
    // unreadable contents are skipped, as is the map itself
    assert!(verify_entry(&map, &name, &"y".to_string(), EntryKind::Regular, None, None).is_ok());
    assert!(verify_entry(&map, &name, &name, EntryKind::Regular, Some(vec![1]), None).is_ok());
    assert!(verify_entry(&map, &name, &"dir".to_string(), EntryKind::Other, None, None).is_ok());
}

#[test]
fn verify_checks_links() {
    let mut map = DedupMap::new();
    map.add_file(&"aa".to_string(), "x".to_string());
    map.add_file(&"aa".to_string(), "y".to_string());
    let name = "archive.ddm".to_string();
    assert!(verify_entry(&map, &name, &"y".to_string(), EntryKind::HardLink, None, Some("x".to_string())).is_ok());
    match verify_entry(&map, &name, &"y".to_string(), EntryKind::HardLink, None, None) {
        Err(VerifyError::LinkWithoutTarget { path }) => assert_eq!(path, "y"),
        _ => panic!("expected LinkWithoutTarget"),
    }
    match verify_entry(&map, &name, &"z".to_string(), EntryKind::HardLink, None, Some("x".to_string())) {
        Err(VerifyError::LinkNotDescribed { path, target }) => {
            assert_eq!(path, "z");
            assert_eq!(target, "x");
        }
        _ => panic!("expected LinkNotDescribed"),
    }
}

#[test]
fn select_dedup_map_requires_it_last() {
    let name = "archive.ddm".to_string();
    assert!(matches!(select_dedup_map(None, &name), Err(DedupMapError::EmptyArchive)));
    match select_dedup_map(Some(("data/a".to_string(), vec![1])), &name) {
        Err(DedupMapError::NotAtEnd { last_path }) => assert_eq!(last_path, "data/a"),
        _ => panic!("expected NotAtEnd"),
    }
    match select_dedup_map(Some((name.clone(), b"{}".to_vec())), &name) {
        Ok(c) => assert_eq!(c, b"{}".to_vec()),
        _ => panic!("expected the contents"),
    }
}

#[test]
fn symlinks_are_stored_as_symlinks_and_not_grouped() {
    let mut m = FileMap::new();
    m = insert_into_file_map(m, file("/data/a", 5, vec![0xaa], 1));
    m = insert_into_file_map(
        m,
        FileInfo::new_symlink("/data/l".to_string(), 7, 2, 3, "a".to_string()),
    );
    m = insert_into_file_map(m, file("/data/c", 5, vec![0xaa], 3));
    let plan = plan_archive("x.tar", &m);
    let entries: Vec<String> = plan
        .entries
        .iter()
        .map(|e| match e {
            TarEntry::File { source, name } => format!("file {} as {}", source, name),
            TarEntry::Link { name, target, .. } => format!("link {} -> {}", name, target),
            TarEntry::Symlink { name, target, uid, gid } => {
                format!("symlink {} -> {} ({}:{})", name, target, uid, gid)
            }
        })
        .collect();
    assert_eq!(
        entries,
        vec![
            "file /data/a as data/a".to_string(),
            "link data/c -> data/a".to_string(),
            "symlink data/l -> a (2:3)".to_string(),
        ]
    );
    assert_eq!(plan.archive.get_orig_size(), 17);
    assert_eq!(plan.archive.get_dedup_size(), 12);
}

#[test]
fn verify_compares_paths_by_components() {
    let mut map = DedupMap::new();
    map.add_file(&"aa".to_string(), "data//sub/x".to_string());
    map.add_file(&"aa".to_string(), "data/./sub/y/".to_string());
    let name = "archive.ddm".to_string();
    assert!(verify_entry(&map, &name, &"data/sub/x".to_string(), EntryKind::Regular, Some(vec![0xaa]), None).is_ok());
    assert!(verify_entry(
        &map,
        &name,
        &"data/sub/y".to_string(),
        EntryKind::HardLink,
        None,
        Some("data/sub/x".to_string())
    )
    .is_ok());
    assert!(verify_entry(&map, &name, &"data/sub/z".to_string(), EntryKind::Regular, Some(vec![0xaa]), None).is_err());
    assert!(verify_entry(&map, &name, &"./archive.ddm".to_string(), EntryKind::Regular, Some(vec![1]), None).is_err());
    assert!(matches!(
        select_dedup_map(Some(("archive.ddm/".to_string(), vec![7])), &name),
        Ok(_)
    ));
}
