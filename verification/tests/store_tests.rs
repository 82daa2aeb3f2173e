use ptree::cache::DiskCache;
use ptree::codec::{decode_entry, encode_entry};
use ptree::entry::DirEntry;
use ptree::error::CacheError;
use ptree::store::{CacheIndex, MmapCache};

fn entry(path: &str, name: &str, size: u64, children: Vec<&str>) -> DirEntry {
    DirEntry {
        path: path.as_bytes().to_vec(),
        name: name.as_bytes().to_vec(),
        modified: 1_700_000_000,
        size,
        children: children.into_iter().map(|c| c.as_bytes().to_vec()).collect(),
        symlink_target: None,
        is_hidden: false,
    }
}

#[test]
fn entry_codec_round_trips() {
    let e = entry("C:\\test", "test", 1024, vec!["child1", "child2"]);
    let bytes = encode_entry(&e).expect("encodable");
    let back = decode_entry(&bytes).expect("decodable");
    assert_eq!(back.path, e.path);
    assert_eq!(back.name, e.name);
    assert_eq!(back.modified, e.modified);
    assert_eq!(back.size, e.size);
    assert_eq!(back.children, e.children);
    assert_eq!(back.symlink_target, None);
    assert!(!back.is_hidden);
}

#[test]
fn entry_codec_keeps_symlink_and_hidden() {
    let mut e = entry("/s", "s", 0, vec![]);
    e.symlink_target = Some(b"/target".to_vec());
    e.is_hidden = true;
    let bytes = encode_entry(&e).expect("encodable");
    let back = decode_entry(&bytes).expect("decodable");
    assert_eq!(back.symlink_target, Some(b"/target".to_vec()));
    assert!(back.is_hidden);
}

#[test]
fn truncated_entry_is_rejected() {
    let e = entry("/x", "x", 0, vec![]);
    let bytes = encode_entry(&e).expect("encodable");
    assert!(decode_entry(&bytes[..bytes.len() - 1]).is_none());
    assert!(decode_entry(&[]).is_none());
    // Trailing garbage is rejected too: decoding consumes the buffer exactly.
    let mut padded = bytes.clone();
    padded.push(0);
    assert!(decode_entry(&padded).is_none());
}

#[test]
fn test_batch_deserialization() {
    let cache = MmapCache::open(None, None, 0).unwrap();
    assert!(cache.is_empty());
    assert_eq!(cache.len(), 0);
}

#[test]
fn test_cache_creation() {
    let cache = DiskCache::open(None, None, 0).unwrap();
    assert!(cache.entries.is_empty());
    assert_eq!(cache.flush_threshold, 5000);
    assert!(cache.skip_stats.is_empty());
    assert!(cache.root.is_empty());
    assert_eq!(cache.usn_state.journal_id, 0);
    assert_eq!(cache.usn_state.last_usn, 0);
    assert_eq!(cache.usn_state.drive_letter, 'C');
}

#[test]
fn test_optimized_cache_roundtrip() {
    let mut store = MmapCache::open(None, None, 0).unwrap();
    store.add_entry(entry("C:\\test", "test", 1024, vec!["child"]));
    store.flush_pending_writes().unwrap();
    let index_bytes = store.save_index().expect("index encodes");
    let data_bytes = store.data.clone();

    let reopened = MmapCache::open(Some(&index_bytes), Some(data_bytes), 0).unwrap();
    assert_eq!(reopened.len(), 1);
    let e = reopened.get(b"C:\\test").expect("entry present");
    assert_eq!(e.name, b"test".to_vec());
    assert_eq!(e.size, 1024);
    assert_eq!(e.children, vec![b"child".to_vec()]);
}

#[test]
fn every_indexed_path_retrieves_its_entry() {
    let mut store = MmapCache::open(None, None, 0).unwrap();
    store.add_entry(entry("/p/one", "one", 0, vec![]));
    store.add_entry(entry("/p/two", "two", 0, vec!["a"]));
    store.flush_pending_writes().unwrap();

    assert_eq!(store.len(), 2);
    for (path, _) in store.index.offsets.clone() {
        let e = store.get(&path).expect("indexed path retrieves");
        assert_eq!(e.path, path);
    }
    assert!(store.get(b"/p/three").is_none());
}

#[test]
fn disk_cache_save_and_reopen_round_trips() {
    let mut cache = DiskCache::new_empty(7);
    cache.root = b"/r".to_vec();
    cache.last_scanned_root = b"/r".to_vec();
    cache.usn_state.journal_id = 11;
    cache.usn_state.last_usn = 13;
    cache.add_entry(entry("/r", "r", 0, vec!["kid"]));
    cache.add_entry(entry("/r/kid", "kid", 0, vec![]));
    let (index_bytes, data_bytes) = cache.save().unwrap();

    let back = DiskCache::open(Some(&index_bytes), Some(data_bytes), 0).unwrap();
    assert_eq!(back.entries.len(), 2);
    assert_eq!(back.last_scan, 7);
    assert_eq!(back.root, b"/r".to_vec());
    assert_eq!(back.usn_state.journal_id, 11);
    assert_eq!(back.usn_state.last_usn, 13);
    let r = back.get_entry(b"/r").expect("root kept");
    assert_eq!(r.children, vec![b"kid".to_vec()]);
}

#[test]
fn reopening_replaced_entry_sees_last_write() {
    let mut store = MmapCache::open(None, None, 0).unwrap();
    store.add_entry(entry("/p", "p", 1, vec![]));
    store.flush_pending_writes().unwrap();
    store.add_entry(entry("/p", "p", 2, vec!["n"]));
    store.flush_pending_writes().unwrap();

    assert_eq!(store.len(), 1);
    let e = store.get(b"/p").unwrap();
    assert_eq!(e.size, 2);
    assert_eq!(e.children, vec![b"n".to_vec()]);
}

#[test]
fn wrong_magic_is_a_format_mismatch() {
    let mut store = MmapCache::open(None, None, 0).unwrap();
    store.add_entry(entry("/q", "q", 0, vec![]));
    store.flush_pending_writes().unwrap();
    let mut index_bytes = store.save_index().unwrap();
    index_bytes[0] ^= 0xFF;
    let r = MmapCache::open(Some(&index_bytes), Some(store.data.clone()), 0);
    assert!(matches!(r, Err(CacheError::FormatMismatch)));
}

#[test]
fn torn_data_tail_drops_only_the_torn_entry() {
    let mut store = MmapCache::open(None, None, 0).unwrap();
    store.add_entry(entry("/whole", "whole", 0, vec![]));
    store.add_entry(entry("/torn", "torn", 0, vec![]));
    store.flush_pending_writes().unwrap();
    let index_bytes = store.save_index().unwrap();
    let mut data = store.data.clone();
    data.truncate(data.len() - 1); // tear the last frame

    let reopened = MmapCache::open(Some(&index_bytes), Some(data), 0).unwrap();
    assert_eq!(reopened.len(), 1);
    assert!(reopened.get(b"/whole").is_some());
    assert!(reopened.get(b"/torn").is_none());
}

#[test]
fn index_without_data_is_corrupt() {
    let mut store = MmapCache::open(None, None, 0).unwrap();
    store.add_entry(entry("/q", "q", 0, vec![]));
    store.flush_pending_writes().unwrap();
    let index_bytes = store.save_index().unwrap();
    let r = MmapCache::open(Some(&index_bytes), None, 0);
    assert!(matches!(r, Err(CacheError::Corrupt)));
}

#[test]
fn index_codec_keeps_metadata() {
    let mut ix = CacheIndex::new(5);
    ix.root = b"C:\\".to_vec();
    ix.last_scanned_root = b"C:\\w".to_vec();
    ix.usn_state.journal_id = 42;
    ix.usn_state.last_usn = -3;
    ix.usn_state.drive_letter = 'D';
    ix.usn_state.change_count = 8;
    ix.skip_stats.push((b".git".to_vec(), 2));
    let bytes = ptree::store::encode_index(&ix).expect("encodable");
    let back = ptree::store::decode_index(&bytes).expect("decodable");
    assert_eq!(back.last_scan, 5);
    assert_eq!(back.root, b"C:\\".to_vec());
    assert_eq!(back.last_scanned_root, b"C:\\w".to_vec());
    assert_eq!(back.usn_state.journal_id, 42);
    assert_eq!(back.usn_state.last_usn, -3);
    assert_eq!(back.usn_state.drive_letter, 'D');
    assert_eq!(back.usn_state.change_count, 8);
    assert_eq!(back.skip_stats, vec![(b".git".to_vec(), 2)]);
}
