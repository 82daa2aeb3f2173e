use ptree::cache::DiskCache;
use ptree::incremental::apply_changes_to_cache;
use ptree::journal::{ChangeType, JournalData, UsnRecord};
use ptree::orchestrator::{update, UpdateAction};
use ptree::traversal::{traverse_disk, FsChild, FsDir, FsSnapshot, TraverseError};

fn dir(path: &str, children: Vec<(&str, bool)>) -> FsDir {
    FsDir {
        path: path.as_bytes().to_vec(),
        is_hidden: false,
        symlink_target: None,
        children: children
            .into_iter()
            .map(|(name, is_dir)| FsChild {
                name: name.as_bytes().to_vec(),
                is_dir,
                is_symlink: false,
            })
            .collect(),
    }
}

/// The subtree of S1: `/tmp/a` holding the empty directories `b` and `c`.
fn snapshot_a() -> FsSnapshot {
    FsSnapshot {
        dirs: vec![
            dir("/tmp/a", vec![("b", true), ("c", true)]),
            dir("/tmp/a/b", vec![]),
            dir("/tmp/a/c", vec![]),
        ],
    }
}

fn scanned_cache() -> DiskCache {
    let mut cache = DiskCache::new_empty(0);
    let snapshot = snapshot_a();
    traverse_disk(&mut cache, b"/tmp/a", &snapshot, &Vec::new(), true, 100).unwrap();
    cache
}

#[test]
fn full_scan_records_children_sorted() {
    let cache = scanned_cache();
    let root = cache.get_entry(b"/tmp/a").expect("root entry");
    assert_eq!(root.children, vec![b"b".to_vec(), b"c".to_vec()]);
    let b = cache.get_entry(b"/tmp/a/b").expect("entry for b");
    assert!(b.children.is_empty());
    assert_eq!(b.name, b"b".to_vec());
    let c = cache.get_entry(b"/tmp/a/c").expect("entry for c");
    assert!(c.children.is_empty());
    assert_eq!(cache.entries.len(), 3);
}

#[test]
fn skip_set_prunes_subtree_and_counts() {
    let snapshot = FsSnapshot {
        dirs: vec![
            dir("/r", vec![(".git", true), ("src", true)]),
            dir("/r/.git", vec![("x", true)]),
            dir("/r/.git/x", vec![]),
            dir("/r/src", vec![("y", true)]),
            dir("/r/src/y", vec![]),
        ],
    };
    let mut cache = DiskCache::new_empty(0);
    let skip = vec![b".git".to_vec()];
    traverse_disk(&mut cache, b"/r", &snapshot, &skip, true, 100).unwrap();

    let root = cache.get_entry(b"/r").expect("root entry");
    assert_eq!(root.children, vec![b"src".to_vec()]);
    assert!(cache.get_entry(b"/r/.git").is_none());
    assert!(cache.get_entry(b"/r/.git/x").is_none());
    assert!(cache.get_entry(b"/r/src/y").is_some());
    let count = cache
        .skip_stats
        .iter()
        .find(|(name, _)| name == b".git")
        .map(|(_, c)| *c);
    assert_eq!(count, Some(1));
}

#[test]
fn ascii_tree_renders_branches() {
    let cache = scanned_cache();
    let out = cache.build_tree_output();
    let text = String::from_utf8(out).unwrap();
    assert_eq!(text, "/tmp/a\n├── b\n└── c\n");
}

fn record(path: &str, kind: ChangeType, timestamp: i64, usn: i64) -> UsnRecord {
    UsnRecord {
        path: path.as_bytes().to_vec(),
        change_type: kind,
        file_ref: 0,
        parent_ref: 0,
        timestamp,
        usn,
        is_directory: true,
    }
}

#[test]
fn created_record_adds_entry_and_parent_child() {
    let mut cache = scanned_cache();
    let changes = vec![record("/tmp/a/d", ChangeType::Created, 42, 1)];
    apply_changes_to_cache(&mut cache, &changes);

    let d = cache.get_entry(b"/tmp/a/d").expect("created entry");
    assert_eq!(d.name, b"d".to_vec());
    assert_eq!(d.modified, 42);
    let root = cache.get_entry(b"/tmp/a").expect("root entry");
    assert!(root.children.contains(&b"d".to_vec()));
}

#[test]
fn deleted_record_removes_entry_and_parent_child() {
    let mut cache = scanned_cache();
    let changes = vec![record("/tmp/a/b", ChangeType::Deleted, 43, 2)];
    apply_changes_to_cache(&mut cache, &changes);

    assert!(cache.get_entry(b"/tmp/a/b").is_none());
    let root = cache.get_entry(b"/tmp/a").expect("root entry");
    assert!(!root.children.contains(&b"b".to_vec()));
    assert!(root.children.contains(&b"c".to_vec()));
}

#[test]
fn deleted_record_removes_whole_subtree_but_not_siblings() {
    let snapshot = FsSnapshot {
        dirs: vec![
            dir("/t", vec![("a", true), ("ab", true)]),
            dir("/t/a", vec![("k", true)]),
            dir("/t/a/k", vec![]),
            dir("/t/ab", vec![]),
        ],
    };
    let mut cache = DiskCache::new_empty(0);
    traverse_disk(&mut cache, b"/t", &snapshot, &Vec::new(), true, 100).unwrap();

    let changes = vec![record("/t/a", ChangeType::Deleted, 1, 1)];
    apply_changes_to_cache(&mut cache, &changes);
    assert!(cache.get_entry(b"/t/a").is_none());
    assert!(cache.get_entry(b"/t/a/k").is_none());
    assert!(cache.get_entry(b"/t/ab").is_some());
}

#[test]
fn applying_a_record_twice_equals_once() {
    let mut once = scanned_cache();
    let mut twice = scanned_cache();
    let r = record("/tmp/a/d", ChangeType::Created, 42, 1);
    apply_changes_to_cache(&mut once, &vec![record("/tmp/a/d", ChangeType::Created, 42, 1)]);
    apply_changes_to_cache(&mut twice, &vec![
        record("/tmp/a/d", ChangeType::Created, 42, 1),
        r,
    ]);

    assert_eq!(once.entries.len(), twice.entries.len());
    let a = once.get_entry(b"/tmp/a/d").unwrap();
    let b = twice.get_entry(b"/tmp/a/d").unwrap();
    assert_eq!(a.children, b.children);
    assert_eq!(a.modified, b.modified);
    let pa = once.get_entry(b"/tmp/a").unwrap();
    let pb = twice.get_entry(b"/tmp/a").unwrap();
    assert_eq!(pa.children, pb.children);
}

#[test]
fn records_apply_in_journal_order() {
    // Create then delete leaves nothing; the reverse order leaves the entry.
    let mut forward = scanned_cache();
    apply_changes_to_cache(&mut forward, &vec![
        record("/tmp/a/d", ChangeType::Created, 1, 1),
        record("/tmp/a/d", ChangeType::Deleted, 2, 2),
    ]);
    assert!(forward.get_entry(b"/tmp/a/d").is_none());

    let mut backward = scanned_cache();
    apply_changes_to_cache(&mut backward, &vec![
        record("/tmp/a/d", ChangeType::Deleted, 1, 1),
        record("/tmp/a/d", ChangeType::Created, 2, 2),
    ]);
    assert!(backward.get_entry(b"/tmp/a/d").is_some());
}

fn drive_snapshot() -> FsSnapshot {
    FsSnapshot {
        dirs: vec![dir("C:\\", vec![("w", true)]), dir("C:\\w", vec![])],
    }
}

#[test]
fn update_within_ttl_is_a_noop() {
    let mut cache = DiskCache::new_empty(0);
    let snapshot = drive_snapshot();
    let first = update(&mut cache, 'C', &snapshot, &Vec::new(), false, None, &[], 1000).unwrap();
    assert_eq!(first, UpdateAction::FullScan);
    let scanned = cache.entries.len();

    let second = update(&mut cache, 'C', &snapshot, &Vec::new(), false, None, &[], 1500).unwrap();
    assert_eq!(second, UpdateAction::NoOp);
    assert_eq!(cache.entries.len(), scanned);
    assert_eq!(cache.last_scan, 1000);
}

#[test]
fn journal_id_mismatch_invalidates_and_rescans() {
    let mut cache = DiskCache::new_empty(0);
    cache.usn_state.journal_id = 7;
    cache.usn_state.last_usn = 321;

    let reported = JournalData { usn_journal_id: 99, ..Default::default() };
    let snapshot = drive_snapshot();
    let action = update(
        &mut cache,
        'C',
        &snapshot,
        &Vec::new(),
        false,
        Some(&reported),
        &[],
        5000,
    )
    .unwrap();

    assert_eq!(action, UpdateAction::FullScan);
    assert_eq!(cache.usn_state.journal_id, 99);
    assert_eq!(cache.usn_state.last_usn, 0);
    assert!(cache.get_entry(b"C:\\w").is_some());
}

#[test]
fn matching_journal_id_applies_incrementally() {
    let mut cache = DiskCache::new_empty(0);
    cache.usn_state.journal_id = 7;
    let snapshot = drive_snapshot();
    let reported = JournalData { usn_journal_id: 7, ..Default::default() };
    let action = update(
        &mut cache,
        'C',
        &snapshot,
        &Vec::new(),
        false,
        Some(&reported),
        &[],
        5000,
    )
    .unwrap();
    assert_eq!(action, UpdateAction::Incremental);
    assert_eq!(cache.last_scan, 5000);
    assert_eq!(cache.entries.len(), 0);
}

#[test]
fn missing_root_fails_with_root_missing() {
    let mut cache = DiskCache::new_empty(0);
    let snapshot = FsSnapshot { dirs: vec![] };
    let r = traverse_disk(&mut cache, b"/nowhere", &snapshot, &Vec::new(), true, 1);
    assert!(matches!(r, Err(TraverseError::RootMissing)));
}

#[test]
fn fresh_cache_skips_rescan_without_force() {
    let mut cache = DiskCache::new_empty(0);
    let snapshot = snapshot_a();
    traverse_disk(&mut cache, b"/tmp/a", &snapshot, &Vec::new(), true, 100).unwrap();

    let grown = FsSnapshot {
        dirs: vec![
            dir("/tmp/a", vec![("b", true), ("c", true), ("d", true)]),
            dir("/tmp/a/b", vec![]),
            dir("/tmp/a/c", vec![]),
            dir("/tmp/a/d", vec![]),
        ],
    };
    // Within the hour: nothing is rescanned.
    traverse_disk(&mut cache, b"/tmp/a", &grown, &Vec::new(), false, 200).unwrap();
    assert!(cache.get_entry(b"/tmp/a/d").is_none());
    // Forced: the new directory appears.
    traverse_disk(&mut cache, b"/tmp/a", &grown, &Vec::new(), true, 300).unwrap();
    assert!(cache.get_entry(b"/tmp/a/d").is_some());
}

#[test]
fn unreadable_child_is_listed_but_has_no_entry() {
    let snapshot = FsSnapshot {
        dirs: vec![dir("/u", vec![("locked", true)])],
    };
    let mut cache = DiskCache::new_empty(0);
    traverse_disk(&mut cache, b"/u", &snapshot, &Vec::new(), true, 1).unwrap();
    let root = cache.get_entry(b"/u").unwrap();
    assert_eq!(root.children, vec![b"locked".to_vec()]);
    assert!(cache.get_entry(b"/u/locked").is_none());
}
