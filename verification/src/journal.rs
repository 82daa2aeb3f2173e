//! Volume change-journal records and their binary decoding.
//!
//! A journal read hands back a byte payload: an 8-byte header holding the
//! next sequence number, followed by variable-length records. Each record
//! carries fixed-offset fields and a UTF-16LE file name. Decoding is pure;
//! the platform call that fills the buffer lives outside this crate.

use vstd::prelude::*;
use vstd::bytes::*;
use crate::error::DriverError;
use crate::bytestr::spec_join;

verus! {

pub const USN_REASON_FILE_CREATE: u32 = 0x0000_0001;
pub const USN_REASON_DATA_OVERWRITE: u32 = 0x0000_0002;
pub const USN_REASON_DATA_EXTEND: u32 = 0x0000_0004;
pub const USN_REASON_DATA_TRUNCATION: u32 = 0x0000_0008;
pub const USN_REASON_RENAME_OLD_NAME: u32 = 0x0000_0010;
pub const USN_REASON_RENAME_NEW_NAME: u32 = 0x0000_0020;
pub const USN_REASON_SECURITY_CHANGE: u32 = 0x0000_0040;
pub const USN_REASON_FILE_DELETE: u32 = 0x0000_0200;

/// Type of change reported by one journal record.
#[derive(Debug, Clone, Copy, PartialEq, Eq, Structural)]
pub enum ChangeType {
    Created,
    Modified,
    Deleted,
    Renamed,
    SecurityChanged,
    PermissionsChanged,
    Other,
}

/// The change type of a reason mask; the first matching test wins. Deletion
/// is terminal and is tested first; the remaining order follows the reason
/// taxonomy: create, rename, security change, data change, other.
pub open spec fn change_type_of_reason(reason: u32) -> ChangeType {
    if reason & USN_REASON_FILE_DELETE != 0 {
        ChangeType::Deleted
    } else if reason & USN_REASON_FILE_CREATE != 0 {
        ChangeType::Created
    } else if reason & USN_REASON_RENAME_NEW_NAME != 0 || reason & USN_REASON_RENAME_OLD_NAME
        != 0 {
        ChangeType::Renamed
    } else if reason & USN_REASON_SECURITY_CHANGE != 0 {
        ChangeType::SecurityChanged
    } else if reason & (USN_REASON_DATA_OVERWRITE | USN_REASON_DATA_EXTEND
        | USN_REASON_DATA_TRUNCATION) != 0 {
        ChangeType::Modified
    } else {
        ChangeType::Other
    }
}

impl ChangeType {
    /// Classify a journal reason mask.
    pub fn from_usn_reason(reason: u32) -> (r: Self)
        ensures
            r == change_type_of_reason(reason),
    {
        if reason & USN_REASON_FILE_DELETE != 0 {
            ChangeType::Deleted
        } else if reason & USN_REASON_FILE_CREATE != 0 {
            ChangeType::Created
        } else if reason & USN_REASON_RENAME_NEW_NAME != 0 || reason & USN_REASON_RENAME_OLD_NAME
            != 0 {
            ChangeType::Renamed
        } else if reason & USN_REASON_SECURITY_CHANGE != 0 {
            ChangeType::SecurityChanged
        } else if reason & (USN_REASON_DATA_OVERWRITE | USN_REASON_DATA_EXTEND
            | USN_REASON_DATA_TRUNCATION) != 0 {
            ChangeType::Modified
        } else {
            ChangeType::Other
        }
    }
}

/// A single change record decoded from the journal.
pub struct UsnRecord {
    pub path: Vec<u8>,
    pub change_type: ChangeType,
    pub file_ref: u64,
    pub parent_ref: u64,
    pub timestamp: i64,
    pub usn: i64,
    pub is_directory: bool,
}

/// The mathematical value of a `UsnRecord`.
pub ghost struct RecordModel {
    pub path: Seq<u8>,
    pub change_type: ChangeType,
    pub file_ref: u64,
    pub parent_ref: u64,
    pub timestamp: i64,
    pub usn: i64,
    pub is_directory: bool,
}

impl View for UsnRecord {
    type V = RecordModel;

    open spec fn view(&self) -> RecordModel {
        RecordModel {
            path: self.path@,
            change_type: self.change_type,
            file_ref: self.file_ref,
            parent_ref: self.parent_ref,
            timestamp: self.timestamp,
            usn: self.usn,
            is_directory: self.is_directory,
        }
    }
}

/// The views of a sequence of records.
pub open spec fn rec_views(s: Seq<UsnRecord>) -> Seq<RecordModel> {
    s.map_values(|r: UsnRecord| r@)
}

/// Persistent position in the change journal.
pub struct USNJournalState {
    pub last_usn: i64,
    pub journal_id: u64,
    pub last_read: i64,
    pub drive_letter: char,
    pub change_count: u64,
}

impl USNJournalState {
    pub fn duplicate(&self) -> (r: Self)
        ensures
            r == self,
    {
        USNJournalState {
            last_usn: self.last_usn,
            journal_id: self.journal_id,
            last_read: self.last_read,
            drive_letter: self.drive_letter,
            change_count: self.change_count,
        }
    }
}

impl Default for USNJournalState {
    /// The state before any journal has been read.
    fn default() -> (r: Self)
        ensures
            r.last_usn == 0,
            r.journal_id == 0,
            r.last_read == 0,
            r.drive_letter == 'C',
            r.change_count == 0,
    {
        USNJournalState {
            last_usn: 0,
            journal_id: 0,
            last_read: 0,
            drive_letter: 'C',
            change_count: 0,
        }
    }
}

/// What a journal query reports about the journal instance.
pub struct JournalData {
    pub usn_journal_id: u64,
    pub first_usn: i64,
    pub next_usn: i64,
    pub lowest_valid_usn: i64,
    pub max_usn: i64,
    pub max_size: u64,
    pub allocation_size: u64,
}

impl Default for JournalData {
    fn default() -> (r: Self)
        ensures
            r.usn_journal_id == 0,
            r.first_usn == 0,
            r.next_usn == 0,
            r.lowest_valid_usn == 0,
            r.max_usn == 0,
            r.max_size == 0,
            r.allocation_size == 0,
    {
        JournalData {
            usn_journal_id: 0,
            first_usn: 0,
            next_usn: 0,
            lowest_valid_usn: 0,
            max_usn: 0,
            max_size: 0,
            allocation_size: 0,
        }
    }
}

/// Parameters of one journal read request.
pub struct ReadUsnJournalData {
    pub start_usn: i64,
    pub reason_mask: u32,
    pub return_only_on_close: i32,
    pub timeout: u32,
    pub max_versions: u32,
    pub max_size: u32,
}

// ---------------------------------------------------------------------------
// Field readers over a record slice
// ---------------------------------------------------------------------------

pub open spec fn rec_u16(b: Seq<u8>, off: int) -> u16 {
    spec_u16_from_le_bytes(b.subrange(off, off + 2))
}

pub open spec fn rec_u32(b: Seq<u8>, off: int) -> u32 {
    spec_u32_from_le_bytes(b.subrange(off, off + 4))
}

pub open spec fn rec_u64(b: Seq<u8>, off: int) -> u64 {
    spec_u64_from_le_bytes(b.subrange(off, off + 8))
}

pub open spec fn rec_i64(b: Seq<u8>, off: int) -> i64 {
    rec_u64(b, off) as i64
}

/// The UTF-16LE code units held by `b`, pairwise little-endian.
pub open spec fn units_of(b: Seq<u8>) -> Seq<u16> {
    Seq::new((b.len() / 2) as nat, |i: int| spec_u16_from_le_bytes(b.subrange(2 * i, 2 * i + 2)))
}

/// What `String::from_utf16_lossy` returns for the given code units, as
/// UTF-8 bytes. The result depends on the units alone.
pub uninterp spec fn utf16_lossy_of(units: Seq<u16>) -> Seq<u8>;

/// Relies on `String::from_utf16_lossy`: decodes UTF-16, replacing invalid
/// sequences with the replacement character; the result is a function of the
/// code units alone. `String::into_bytes` hands back its UTF-8 bytes.
#[verifier::external_body]
fn utf16_lossy(units: &[u16]) -> (r: Vec<u8>)
    ensures
        r@ == utf16_lossy_of(units@),
{
    String::from_utf16_lossy(units).into_bytes()
}

/// Interval between the journal epoch (1601-01-01, 100 ns units) and the
/// Unix epoch (1970-01-01, seconds).
pub const FILETIME_UNIX_DIFF: i64 = 116444736000000000;

/// A journal timestamp as UTC seconds; instants before the Unix epoch are
/// invalid and fall back to `now`.
pub open spec fn spec_filetime_to_unix(ft: i64, now: i64) -> i64 {
    if ft < FILETIME_UNIX_DIFF {
        now
    } else {
        ((ft - FILETIME_UNIX_DIFF) / 10_000_000) as i64
    }
}

pub fn filetime_to_unix(ft: i64, now: i64) -> (r: i64)
    ensures
        r == spec_filetime_to_unix(ft, now),
{
    if ft < FILETIME_UNIX_DIFF {
        now
    } else {
        (ft - FILETIME_UNIX_DIFF) / 10_000_000
    }
}

// ---------------------------------------------------------------------------
// Record decoding
// ---------------------------------------------------------------------------

/// The smallest record the decoder accepts.
pub const MIN_RECORD: usize = 98;

/// Decode one record from exactly the bytes `rec`. Fields sit at fixed
/// offsets; the file name is UTF-16LE at `filename_offset`, replaced by the
/// empty name when its extent leaves the record.
pub open spec fn spec_parse_record(root: Seq<u8>, rec: Seq<u8>, now: i64) -> Option<RecordModel> {
    if rec.len() < MIN_RECORD {
        None
    } else {
        let file_ref = rec_u64(rec, 8);
        let parent_ref = rec_u64(rec, 16);
        let usn = rec_i64(rec, 24);
        let ts_raw = rec_i64(rec, 32);
        let reason = rec_u32(rec, 40);
        let attributes = rec_u32(rec, 44);
        let fname_len = rec_u16(rec, 56) as int;
        let fname_off = rec_u16(rec, 58) as int;
        let name = if fname_off + fname_len <= rec.len() {
            utf16_lossy_of(units_of(rec.subrange(fname_off, fname_off + fname_len)))
        } else {
            Seq::empty()
        };
        Some(
            RecordModel {
                path: spec_join(root, name),
                change_type: change_type_of_reason(reason),
                file_ref,
                parent_ref,
                timestamp: spec_filetime_to_unix(ts_raw, now),
                usn,
                is_directory: rec_u32(rec, 44) & 0x10 != 0,
            },
        )
    }
}

/// Decode records from `buf` starting at `off`: read the length prefix, stop
/// cleanly on a zero length or a length past the buffer, skip records the
/// record decoder rejects.
pub open spec fn spec_parse_from(root: Seq<u8>, buf: Seq<u8>, off: int, now: i64) -> Seq<
    RecordModel,
>
    decreases buf.len() - off,
{
    if off < 0 || off + 4 > buf.len() {
        Seq::empty()
    } else {
        let rl = rec_u32(buf, off) as int;
        if rl == 0 || off + rl > buf.len() {
            Seq::empty()
        } else {
            match spec_parse_record(root, buf.subrange(off, off + rl), now) {
                Some(r) => seq![r] + spec_parse_from(root, buf, off + rl, now),
                None => spec_parse_from(root, buf, off + rl, now),
            }
        }
    }
}

/// All records of a journal read payload: an 8-byte header, then records.
pub open spec fn spec_parse_records(root: Seq<u8>, buf: Seq<u8>, now: i64) -> Seq<RecordModel> {
    spec_parse_from(root, buf, 8, now)
}

/// The position after consuming `records`: `last_usn` advances to the last
/// record seen, `change_count` grows by their number (saturating), and
/// `last_read` becomes `now`.
pub open spec fn spec_advance_state(
    st: USNJournalState,
    records: Seq<RecordModel>,
    now: i64,
) -> USNJournalState {
    USNJournalState {
        last_usn: if records.len() > 0 {
            records.last().usn
        } else {
            st.last_usn
        },
        journal_id: st.journal_id,
        last_read: now,
        drive_letter: st.drive_letter,
        change_count: if st.change_count + records.len() <= u64::MAX {
            (st.change_count + records.len()) as u64
        } else {
            u64::MAX
        },
    }
}

// ---------------------------------------------------------------------------
// Tracker
// ---------------------------------------------------------------------------

/// Tracks a volume's change journal: the volume root and the reading
/// position. The platform call that reads raw journal bytes stays outside;
/// this type decodes them and keeps the position.
pub struct USNTracker {
    pub root: Vec<u8>,
    pub state: USNJournalState,
}

impl USNTracker {
    /// A tracker for the drive `drive_letter`, resuming from `state`.
    pub fn new(drive_letter: char, state: USNJournalState) -> (r: Self)
        ensures
            r.root@ == seq![(drive_letter as u8), 58u8, 92u8],
            r.state == state,
    {
        let mut root: Vec<u8> = Vec::new();
        root.push(drive_letter as u8);
        root.push(58);
        root.push(92);
        assert(root@ =~= seq![(drive_letter as u8), 58u8, 92u8]);
        USNTracker { root, state }
    }

    /// The current position, for persistence.
    pub fn state(&self) -> (r: &USNJournalState)
        ensures
            r == &self.state,
    {
        &self.state
    }

    /// Overwrite the position.
    pub fn set_state(&mut self, state: USNJournalState)
        ensures
            final(self).state == state,
            final(self).root == old(self).root,
    {
        self.state = state;
    }

    /// Compare the queried journal identity against the persisted one: on a
    /// mismatch the position is invalidated (sequence number zeroed, new
    /// identity adopted) and the caller must rescan.
    pub fn check_journal_validity(&mut self, data: &JournalData) -> (r: bool)
        ensures
            r == (data.usn_journal_id == old(self).state.journal_id),
            final(self).root == old(self).root,
            r ==> final(self).state == old(self).state,
            !r ==> final(self).state == (USNJournalState {
                last_usn: 0,
                journal_id: data.usn_journal_id,
                ..old(self).state
            }),
    {
        if data.usn_journal_id != self.state.journal_id {
            self.state.last_usn = 0;
            self.state.journal_id = data.usn_journal_id;
            false
        } else {
            true
        }
    }

    /// Decode a journal read payload and advance the position.
    ///
    /// For any valid stream of records the decoder produces exactly those
    /// records, in stream order, and `last_usn` moves to the last one.
    #[verifier::loop_isolation(false)]
    pub fn parse_usn_records(&mut self, buffer: &[u8], now: i64) -> (r: Vec<UsnRecord>)
        ensures
            rec_views(r@) == spec_parse_records(old(self).root@, buffer@, now),
            final(self).root == old(self).root,
            final(self).state == spec_advance_state(
                old(self).state,
                spec_parse_records(old(self).root@, buffer@, now),
                now,
            ),
    {
        let ghost whole = buffer@;
        let ghost root_view = self.root@;
        let blen = buffer.len();
        let mut records: Vec<UsnRecord> = Vec::new();
        let mut off: usize = 8;
        proof {
            assert(rec_views(records@) =~= Seq::<RecordModel>::empty());
            assert(rec_views(records@) + spec_parse_from(root_view, whole, 8, now)
                =~= spec_parse_from(root_view, whole, 8, now));
        }
        let mut done: bool = false;
        while !done && off <= blen && blen - off >= 4
            invariant
                8 <= off,
                spec_parse_from(root_view, whole, 8, now) == rec_views(records@)
                    + spec_parse_from(root_view, whole, off as int, now),
                done ==> spec_parse_from(root_view, whole, off as int, now)
                    == Seq::<RecordModel>::empty(),
            decreases blen - off + (if done { 0int } else { 1int }),
        {
            let record_len = crate::codec::read_u32_at(buffer, off) as usize;
            if record_len == 0 || record_len > blen - off {
                proof {
                    assert(spec_parse_from(root_view, whole, off as int, now)
                        =~= Seq::<RecordModel>::empty());
                }
                done = true;
            } else {
            let ghost pre = records@;
            let rec = crate::bytestr::copy_range(buffer, off, off + record_len);
            match self.parse_single_record(rec.as_slice(), now) {
                Ok(record) => {
                    records.push(record);
                    proof {
                        let m = records@.last()@;
                        assert(spec_parse_record(
                            root_view,
                            whole.subrange(off as int, off + record_len),
                            now,
                        ) == Some(m));
                        assert(rec_views(records@) =~= rec_views(pre).push(m));
                        assert(rec_views(pre) + (seq![m] + spec_parse_from(
                            root_view,
                            whole,
                            off + record_len,
                            now,
                        )) =~= rec_views(records@) + spec_parse_from(
                            root_view,
                            whole,
                            off + record_len,
                            now,
                        ));
                    }
                },
                Err(_) => {},
            }
            off = off + record_len;
            }
        }
        proof {
            assert(spec_parse_from(root_view, whole, off as int, now)
                =~= Seq::<RecordModel>::empty());
            assert(rec_views(records@) + Seq::<RecordModel>::empty() =~= rec_views(records@));
        }
        let n = records.len();
        if n > 0 {
            let last_usn = records[n - 1].usn;
            proof {
                assert(rec_views(records@)[n - 1] == records@[n - 1]@);
                assert(records@[n - 1]@ == spec_parse_records(root_view, whole, now).last());
            }
            self.state.last_usn = last_usn;
        }
        if self.state.change_count <= u64::MAX - n as u64 {
            self.state.change_count = self.state.change_count + n as u64;
        } else {
            self.state.change_count = u64::MAX;
        }
        self.state.last_read = now;
        proof {
            assert(rec_views(records@).len() == records@.len());
        }
        records
    }

    /// Decode one record from exactly the bytes of `rec`.
    pub fn parse_single_record(&self, rec: &[u8], now: i64) -> (r: Result<UsnRecord, DriverError>)
        ensures
            match r {
                Ok(record) => spec_parse_record(self.root@, rec@, now) == Some(record@),
                Err(_) => spec_parse_record(self.root@, rec@, now) is None,
            },
    {
        if rec.len() < MIN_RECORD {
            return Err(DriverError::Parse("record too small".to_owned()));
        }
        let file_ref = crate::codec::read_u64_at(rec, 8);
        let parent_ref = crate::codec::read_u64_at(rec, 16);
        let usn = crate::codec::read_u64_at(rec, 24) as i64;
        let ts_raw = crate::codec::read_u64_at(rec, 32) as i64;
        let reason = crate::codec::read_u32_at(rec, 40);
        let attributes = crate::codec::read_u32_at(rec, 44);
        let fname_len = read_u16_at(rec, 56) as usize;
        let fname_off = read_u16_at(rec, 58) as usize;

        let name: Vec<u8> = if fname_off <= rec.len() && fname_len <= rec.len() - fname_off {
            let raw = crate::bytestr::copy_range(rec, fname_off, fname_off + fname_len);
            let units = units_from_bytes(raw.as_slice());
            proof {
                assert(units@ == units_of(rec@.subrange(fname_off as int, fname_off + fname_len)));
            }
            utf16_lossy(units.as_slice())
        } else {
            Vec::new()
        };
        proof {
            assert((fname_off + fname_len <= rec@.len()) == (fname_off <= rec@.len() && fname_len
                <= rec@.len() - fname_off));
        }
        let path = crate::bytestr::join_path(self.root.as_slice(), name.as_slice());
        Ok(
            UsnRecord {
                path,
                change_type: ChangeType::from_usn_reason(reason),
                file_ref,
                parent_ref,
                timestamp: filetime_to_unix(ts_raw, now),
                usn,
                is_directory: attributes & 0x10 != 0,
            },
        )
    }
}

/// Read a `u16` at `off`.
fn read_u16_at(b: &[u8], off: usize) -> (r: u16)
    requires
        off + 2 <= b@.len(),
    ensures
        r == spec_u16_from_le_bytes(b@.subrange(off as int, off + 2)),
{
    let blen = b.len();
    let window = crate::bytestr::copy_range(b, off, off + 2);
    u16_from_le_bytes(window.as_slice())
}

/// The UTF-16LE code units of a byte string, pairwise little-endian; a
/// trailing odd byte is dropped.
fn units_from_bytes(b: &[u8]) -> (r: Vec<u16>)
    ensures
        r@ == units_of(b@),
{
    let mut out: Vec<u16> = Vec::new();
    let mut i: usize = 0;
    let blen = b.len();
    while i < blen && i + 1 < blen
        invariant
            0 <= i <= blen,
            i % 2 == 0,
            blen == b@.len(),
            out@.len() == i / 2,
            forall|j: int| 0 <= j < out@.len() ==> out@[j] == units_of(b@)[j],
        decreases b@.len() - i,
    {
        out.push(read_u16_at(b, i));
        i = i + 2;
    }
    proof {
        assert(i == blen || i + 1 == blen);
        assert(i / 2 == blen as int / 2);
        assert(out@ =~= units_of(b@));
    }
    out
}

} // verus!
