use ptree::journal::{ChangeType, JournalData, USNJournalState, USNTracker, FILETIME_UNIX_DIFF};

#[test]
fn test_change_type_creation() {
    assert_eq!(ChangeType::Created, ChangeType::Created);
}

#[test]
fn test_default_state() {
    let state = USNJournalState::default();
    assert_eq!(state.last_usn, 0);
    assert_eq!(state.drive_letter, 'C');
}

#[test]
fn test_usn_tracker_creation() {
    let tracker = USNTracker::new('C', USNJournalState::default());
    assert_eq!(tracker.state().last_usn, 0);
    assert_eq!(tracker.root, b"C:\\".to_vec());
}

#[test]
fn from_usn_reason_first_match_wins() {
    assert_eq!(ChangeType::from_usn_reason(0x1), ChangeType::Created);
    assert_eq!(ChangeType::from_usn_reason(0x10), ChangeType::Renamed);
    assert_eq!(ChangeType::from_usn_reason(0x20), ChangeType::Renamed);
    assert_eq!(ChangeType::from_usn_reason(0x40), ChangeType::SecurityChanged);
    assert_eq!(ChangeType::from_usn_reason(0x2), ChangeType::Modified);
    assert_eq!(ChangeType::from_usn_reason(0x4), ChangeType::Modified);
    assert_eq!(ChangeType::from_usn_reason(0x8), ChangeType::Modified);
    assert_eq!(ChangeType::from_usn_reason(0x200), ChangeType::Deleted);
    assert_eq!(ChangeType::from_usn_reason(0x8000), ChangeType::Other);
    // create wins over data change; delete is terminal and wins over create
    assert_eq!(ChangeType::from_usn_reason(0x1 | 0x2), ChangeType::Created);
    assert_eq!(ChangeType::from_usn_reason(0x1 | 0x200), ChangeType::Deleted);
}

#[test]
fn filetime_before_epoch_falls_back_to_now() {
    let now = 1_700_000_000;
    assert_eq!(ptree::journal::filetime_to_unix(0, now), now);
    assert_eq!(ptree::journal::filetime_to_unix(FILETIME_UNIX_DIFF, now), 0);
    assert_eq!(
        ptree::journal::filetime_to_unix(FILETIME_UNIX_DIFF + 10_000_000, now),
        1
    );
}

/// One raw journal record, 98 bytes, with the given sequence number, reason
/// mask, attributes and UTF-16LE name placed at offset 60.
fn raw_record(usn: i64, reason: u32, attributes: u32, name: &str) -> Vec<u8> {
    let name_units: Vec<u16> = name.encode_utf16().collect();
    let name_bytes = name_units.len() * 2;
    let len = 98usize.max(60 + name_bytes);
    let mut rec = vec![0u8; len];
    rec[0..4].copy_from_slice(&(len as u32).to_le_bytes());
    rec[8..16].copy_from_slice(&7u64.to_le_bytes()); // file reference
    rec[16..24].copy_from_slice(&3u64.to_le_bytes()); // parent reference
    rec[24..32].copy_from_slice(&usn.to_le_bytes());
    rec[32..40].copy_from_slice(&(FILETIME_UNIX_DIFF + 50_000_000).to_le_bytes());
    rec[40..44].copy_from_slice(&reason.to_le_bytes());
    rec[44..48].copy_from_slice(&attributes.to_le_bytes());
    rec[56..58].copy_from_slice(&(name_bytes as u16).to_le_bytes());
    rec[58..60].copy_from_slice(&60u16.to_le_bytes());
    for (i, unit) in name_units.iter().enumerate() {
        rec[60 + 2 * i..62 + 2 * i].copy_from_slice(&unit.to_le_bytes());
    }
    rec
}

#[test]
fn parse_one_record_from_buffer() {
    let mut buffer = 99i64.to_le_bytes().to_vec(); // next-USN header
    buffer.extend_from_slice(&raw_record(41, 0x1, 0x10, "x"));

    let mut tracker = USNTracker::new('C', USNJournalState::default());
    let records = tracker.parse_usn_records(&buffer, 1_700_000_000);
    assert_eq!(records.len(), 1);
    assert_eq!(records[0].path, b"C:\\x".to_vec());
    assert_eq!(records[0].change_type, ChangeType::Created);
    assert_eq!(records[0].usn, 41);
    assert_eq!(records[0].file_ref, 7);
    assert_eq!(records[0].parent_ref, 3);
    assert_eq!(records[0].timestamp, 5);
    assert!(records[0].is_directory);
    assert_eq!(tracker.state().last_usn, 41);
    assert_eq!(tracker.state().change_count, 1);
    assert_eq!(tracker.state().last_read, 1_700_000_000);
}

#[test]
fn parse_stops_cleanly_on_zero_length() {
    let mut buffer = 0i64.to_le_bytes().to_vec();
    buffer.extend_from_slice(&raw_record(5, 0x2, 0x10, "a"));
    buffer.extend_from_slice(&[0u8; 4]); // zero length terminates
    buffer.extend_from_slice(&raw_record(6, 0x2, 0x10, "b"));

    let mut tracker = USNTracker::new('D', USNJournalState::default());
    let records = tracker.parse_usn_records(&buffer, 0);
    assert_eq!(records.len(), 1);
    assert_eq!(records[0].path, b"D:\\a".to_vec());
    assert_eq!(tracker.state().last_usn, 5);
}

#[test]
fn parse_two_records_advances_to_last() {
    let mut buffer = 0i64.to_le_bytes().to_vec();
    buffer.extend_from_slice(&raw_record(11, 0x2, 0x10, "m"));
    buffer.extend_from_slice(&raw_record(12, 0x200, 0x10, "n"));

    let mut tracker = USNTracker::new('C', USNJournalState::default());
    let records = tracker.parse_usn_records(&buffer, 0);
    assert_eq!(records.len(), 2);
    assert_eq!(records[0].usn, 11);
    assert_eq!(records[1].usn, 12);
    assert_eq!(records[1].change_type, ChangeType::Deleted);
    assert_eq!(tracker.state().last_usn, 12);
    assert_eq!(tracker.state().change_count, 2);
}

#[test]
fn journal_validity_check_resets_on_mismatch() {
    let mut tracker = USNTracker::new('C', USNJournalState {
        last_usn: 500,
        journal_id: 7,
        last_read: 0,
        drive_letter: 'C',
        change_count: 9,
    });
    let data = JournalData { usn_journal_id: 7, ..Default::default() };
    assert!(tracker.check_journal_validity(&data));
    assert_eq!(tracker.state().last_usn, 500);

    let reset = JournalData { usn_journal_id: 99, ..Default::default() };
    assert!(!tracker.check_journal_validity(&reset));
    assert_eq!(tracker.state().last_usn, 0);
    assert_eq!(tracker.state().journal_id, 99);
}
