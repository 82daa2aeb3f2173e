use ptree::bytestr::{bytes_le, join_path, sorted_copy, split_path};
use ptree::cache::DiskCache;
use ptree::entry::DirEntry;
use ptree::incremental::estimate_change_impact;
use ptree::journal::{ChangeType, UsnRecord};
use ptree::service::{PtreeService, ServiceConfig};
use ptree::traversal::should_skip;

fn entry(path: &str, children: Vec<&str>) -> DirEntry {
    let (_, name) = split_path(path.as_bytes());
    DirEntry {
        path: path.as_bytes().to_vec(),
        name,
        modified: 0,
        size: 0,
        children: children.into_iter().map(|c| c.as_bytes().to_vec()).collect(),
        symlink_target: None,
        is_hidden: false,
    }
}

#[test]
fn test_should_skip() {
    let skip = vec![b"System32".to_vec(), b".git".to_vec()];
    assert!(should_skip(b"System32", &skip));
    assert!(should_skip(b".git", &skip));
    assert!(!should_skip(b"Documents", &skip));
}

#[test]
fn skip_comparison_ignores_ascii_case() {
    let skip = vec![b"System32".to_vec()];
    assert!(should_skip(b"system32", &skip));
    assert!(should_skip(b"SYSTEM32", &skip));
    assert!(!should_skip(b"system3", &skip));
}

#[test]
fn test_change_impact_estimation() {
    let changes = vec![];
    let (c, m, d, r) = estimate_change_impact(&changes);
    assert_eq!((c, m, d, r), (0, 0, 0, 0));
}

#[test]
fn change_impact_counts_directories_only() {
    let mk = |kind: ChangeType, is_directory: bool| UsnRecord {
        path: b"/p".to_vec(),
        change_type: kind,
        file_ref: 0,
        parent_ref: 0,
        timestamp: 0,
        usn: 0,
        is_directory,
    };
    let changes = vec![
        mk(ChangeType::Created, true),
        mk(ChangeType::Created, false),
        mk(ChangeType::Modified, true),
        mk(ChangeType::Deleted, true),
        mk(ChangeType::Deleted, true),
        mk(ChangeType::Renamed, true),
        mk(ChangeType::Other, true),
    ];
    assert_eq!(estimate_change_impact(&changes), (1, 1, 2, 1));
}

#[test]
fn test_service_creation() {
    let config = ServiceConfig::default();
    let service = PtreeService::new(config);
    assert_eq!(service.config.drive_letter, 'C');
    assert_eq!(service.config.check_interval, 60);
}

#[test]
fn test_service_stop_signal() {
    let config = ServiceConfig::default();
    let mut service = PtreeService::new(config);
    assert!(!service.should_exit);
    service.stop();
    assert!(service.should_exit);
}

#[test]
fn service_status_reports_the_run() {
    let mut service = PtreeService::new(ServiceConfig::default());
    let status = service.status();
    assert!(status.is_running);
    assert_eq!(status.drive, 'C');
    service.stop();
    assert!(!service.status().is_running);
}

#[test]
fn buffered_entries_flush_into_the_map() {
    let mut cache = DiskCache::new_empty(0);
    cache.buffer_entry(entry("/a", vec![]));
    assert_eq!(cache.pending_writes.len(), 1);
    assert!(cache.get_entry(b"/a").is_none());
    cache.flush_pending_writes();
    assert!(cache.pending_writes.is_empty());
    assert!(cache.get_entry(b"/a").is_some());
}

#[test]
fn inserting_twice_replaces_by_path() {
    let mut cache = DiskCache::new_empty(0);
    cache.insert_entry(entry("/a", vec![]));
    cache.insert_entry(entry("/a", vec!["n"]));
    assert_eq!(cache.entries.len(), 1);
    assert_eq!(cache.get_entry(b"/a").unwrap().children, vec![b"n".to_vec()]);
}

#[test]
fn remove_entry_takes_the_subtree() {
    let mut cache = DiskCache::new_empty(0);
    cache.insert_entry(entry("/a", vec!["b"]));
    cache.insert_entry(entry("/a/b", vec![]));
    cache.insert_entry(entry("/ab", vec![]));
    cache.remove_entry(b"/a");
    assert!(cache.get_entry(b"/a").is_none());
    assert!(cache.get_entry(b"/a/b").is_none());
    assert!(cache.get_entry(b"/ab").is_some());
}

#[test]
fn record_skip_counts_per_name() {
    let mut cache = DiskCache::new_empty(0);
    cache.record_skip(b".git");
    cache.record_skip(b"node_modules");
    cache.record_skip(b".git");
    let git = cache.skip_stats.iter().find(|(n, _)| n == b".git").unwrap();
    assert_eq!(git.1, 2);
    let nm = cache
        .skip_stats
        .iter()
        .find(|(n, _)| n == b"node_modules")
        .unwrap();
    assert_eq!(nm.1, 1);
}

#[test]
fn skip_report_sorts_by_count_descending() {
    let mut cache = DiskCache::new_empty(0);
    cache.record_skip(b"rare");
    cache.record_skip(b"common");
    cache.record_skip(b"common");
    cache.record_skip(b"common");
    let report = String::from_utf8(cache.get_skip_report()).unwrap();
    assert_eq!(report, "  3 × common\n  1 × rare\n");
}

#[test]
fn empty_skip_report_says_so() {
    let cache = DiskCache::new_empty(0);
    let report = String::from_utf8(cache.get_skip_report()).unwrap();
    assert_eq!(report, "(no directories skipped)\n");
}

#[test]
fn format_name_marks_hidden_entries() {
    let mut cache = DiskCache::new_empty(0);
    let mut e = entry("/h", vec![]);
    e.is_hidden = true;
    cache.insert_entry(e);
    assert_eq!(cache.format_name(b"h", b"/h", true), b"h [H]".to_vec());
    assert_eq!(cache.format_name(b"h", b"/h", false), b"h".to_vec());
    assert_eq!(cache.format_name(b"x", b"/x", true), b"x".to_vec());
}

#[test]
fn tree_marks_symlinks_and_hidden_names() {
    let mut cache = DiskCache::new_empty(0);
    cache.root = b"/r".to_vec();
    cache.show_hidden = true;
    cache.insert_entry(entry("/r", vec!["h", "link"]));
    let mut hidden = entry("/r/h", vec![]);
    hidden.is_hidden = true;
    cache.insert_entry(hidden);
    let mut link = entry("/r/link", vec![]);
    link.symlink_target = Some(b"/elsewhere".to_vec());
    cache.insert_entry(link);

    let out = String::from_utf8(cache.build_tree_output()).unwrap();
    assert_eq!(out, "/r\n├── h [H]\n└── link (→ /elsewhere)\n");
}

#[test]
fn empty_cache_renders_the_empty_marker() {
    let cache = DiskCache::new_empty(0);
    let out = String::from_utf8(cache.build_tree_output()).unwrap();
    assert_eq!(out, "(empty)\n");
}

#[test]
fn depth_limit_stops_recursion() {
    let mut cache = DiskCache::new_empty(0);
    cache.root = b"/r".to_vec();
    cache.insert_entry(entry("/r", vec!["a"]));
    cache.insert_entry(entry("/r/a", vec!["deep"]));
    cache.insert_entry(entry("/r/a/deep", vec![]));
    let out = String::from_utf8(cache.build_tree_output_with_depth(Some(1))).unwrap();
    assert_eq!(out, "/r\n└── a\n");
}

#[test]
fn byte_order_and_path_helpers() {
    assert!(bytes_le(b"a", b"b"));
    assert!(bytes_le(b"a", b"ab"));
    assert!(!bytes_le(b"b", b"ab"));
    let sorted = sorted_copy(&vec![b"c".to_vec(), b"a".to_vec(), b"b".to_vec()]);
    assert_eq!(sorted, vec![b"a".to_vec(), b"b".to_vec(), b"c".to_vec()]);
    assert_eq!(join_path(b"/tmp/a", b"d"), b"/tmp/a/d".to_vec());
    assert_eq!(join_path(b"C:\\", b"x"), b"C:\\x".to_vec());
    let (parent, name) = split_path(b"/tmp/a/d");
    assert_eq!(parent, b"/tmp/a".to_vec());
    assert_eq!(name, b"d".to_vec());
}

#[test]
fn json_output_matches_the_object_shape() {
    let mut cache = DiskCache::new_empty(0);
    cache.root = b"/tmp/a".to_vec();
    cache.insert_entry(entry("/tmp/a", vec!["c", "b"]));
    cache.insert_entry(entry("/tmp/a/b", vec![]));
    cache.insert_entry(entry("/tmp/a/c", vec![]));

    let out = cache.build_json_output();
    let v: serde_json::Value = serde_json::from_slice(&out).expect("valid JSON");
    assert_eq!(v["path"], "/tmp/a");
    let children = v["children"].as_array().unwrap();
    assert_eq!(children.len(), 2);
    assert_eq!(children[0]["name"], "b");
    assert_eq!(children[0]["path"], "/tmp/a/b");
    assert_eq!(children[1]["name"], "c");
    assert!(children[0]["children"].as_array().unwrap().is_empty());
}

#[test]
fn json_escapes_quotes_and_backslashes() {
    let mut cache = DiskCache::new_empty(0);
    cache.root = b"C:\\r".to_vec();
    cache.insert_entry(entry("C:\\r", vec!["a\"b"]));
    let out = cache.build_json_output();
    let v: serde_json::Value = serde_json::from_slice(&out).expect("valid JSON");
    assert_eq!(v["path"], "C:\\r");
    assert_eq!(v["children"][0]["name"], "a\"b");
}
