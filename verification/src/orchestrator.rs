//! The update orchestrator: decide between a full scan, an incremental
//! update and doing nothing, and carry the decision out.
//!
//! `update` takes the current instant as an argument: reading the system
//! clock can fail (a host clock before the Unix epoch), so the caller reads
//! it and the decisions here are verified for every instant.
//!
//! The decision table: a forced update always scans; a fresh, non-empty
//! cache needs nothing; with a usable journal whose identity matches the
//! persisted one the journal records are applied; otherwise the volume is
//! rescanned, after invalidating the journal position on an identity
//! mismatch.

use vstd::prelude::*;
use crate::cache::DiskCache;
use crate::journal::{JournalData, USNJournalState, spec_parse_records, spec_advance_state};
use crate::traversal::{
    FsSnapshot, TraverseError, traverse_disk, cache_fresh, full_scan_post, CACHE_TTL_SECONDS,
    fs_has,
};
use crate::incremental::{try_incremental_update, spec_apply_records, models};
use crate::bytestr::views_of;

verus! {

/// What one update run did.
#[derive(Debug, Clone, Copy, PartialEq, Eq, Structural)]
pub enum UpdateAction {
    NoOp,
    FullScan,
    Incremental,
}

/// The decision table of an update: `force` scans; a fresh, non-empty cache
/// is left alone; a journal with the persisted identity is applied
/// incrementally; everything else rescans.
pub open spec fn spec_decide(
    force: bool,
    now: i64,
    last_scan: i64,
    n_entries: int,
    journal: Option<JournalData>,
    journal_id: u64,
) -> UpdateAction {
    if force {
        UpdateAction::FullScan
    } else if cache_fresh(now, last_scan, CACHE_TTL_SECONDS) && n_entries > 0 {
        UpdateAction::NoOp
    } else {
        match journal {
            Some(d) => if d.usn_journal_id == journal_id {
                UpdateAction::Incremental
            } else {
                UpdateAction::FullScan
            },
            None => UpdateAction::FullScan,
        }
    }
}

/// The freshness gate: without `force`, a second update within the
/// time-to-live of a non-empty cache decides to do nothing.
pub proof fn lemma_freshness_gate(
    now: i64,
    last_scan: i64,
    n_entries: int,
    journal: Option<JournalData>,
    journal_id: u64,
)
    requires
        cache_fresh(now, last_scan, CACHE_TTL_SECONDS),
        n_entries > 0,
    ensures
        spec_decide(false, now, last_scan, n_entries, journal, journal_id) == UpdateAction::NoOp,
{
}

/// The volume root of a drive letter.
pub open spec fn spec_drive_root(drive_letter: char) -> Seq<u8> {
    seq![(drive_letter as u8), 58u8, 92u8]
}

/// Bring the cache up to date for the drive, choosing among a full scan, an
/// incremental update and a no-op.
///
/// The caller queried the journal (`query`, `None` when the volume has no
/// usable journal) and read its raw bytes (`raw`), and enumerated the
/// subtree (`snapshot`) in case a scan is needed. On a journal identity
/// mismatch the persisted position is invalidated — sequence number zeroed,
/// new identity adopted — and a full scan runs.
pub fn update(
    cache: &mut DiskCache,
    drive_letter: char,
    snapshot: &FsSnapshot,
    skip_dirs: &Vec<Vec<u8>>,
    force: bool,
    query: Option<&JournalData>,
    raw: &[u8],
    now: i64,
) -> (r: Result<UpdateAction, TraverseError>)
    requires
        old(cache).wf(),
        snapshot.wf(),
    ensures
        final(cache).wf(),
        ({
            let action = spec_decide(
                force,
                now,
                old(cache).last_scan,
                old(cache).entries@.len() as int,
                match query {
                    Some(d) => Some(*d),
                    None => None,
                },
                old(cache).usn_state.journal_id,
            );
            match r {
                Ok(a) => {
                    &&& a == action
                    &&& match a {
                        UpdateAction::NoOp => *final(cache) == *old(cache),
                        UpdateAction::Incremental => {
                            let records = spec_parse_records(
                                spec_drive_root(drive_letter),
                                raw@,
                                now,
                            );
                            &&& models(final(cache).entries@) == spec_apply_records(
                                models(old(cache).entries@),
                                records,
                            )
                            &&& final(cache).usn_state == spec_advance_state(
                                old(cache).usn_state,
                                records,
                                now,
                            )
                            &&& final(cache).last_scan == now
                        },
                        UpdateAction::FullScan => {
                            &&& fs_has(snapshot.dirs@, spec_drive_root(drive_letter))
                            &&& final(cache).root@ == spec_drive_root(drive_letter)
                            &&& full_scan_post(
                                DiskCache { usn_state: final(cache).usn_state, ..*old(cache) },
                                *final(cache),
                                snapshot.dirs@,
                                views_of(skip_dirs@),
                                spec_drive_root(drive_letter),
                                now,
                            )
                            &&& final(cache).usn_state == (match query {
                                Some(d) => if !force && d.usn_journal_id != old(
                                    cache,
                                ).usn_state.journal_id {
                                    USNJournalState {
                                        last_usn: 0,
                                        journal_id: d.usn_journal_id,
                                        ..old(cache).usn_state
                                    }
                                } else {
                                    old(cache).usn_state
                                },
                                None => old(cache).usn_state,
                            })
                        },
                    }
                },
                Err(_) => scan_needed_and_root_missing(
                    action,
                    snapshot.dirs@,
                    spec_drive_root(drive_letter),
                ),
            }
        }),
{
    let drive_root = drive_root_path(drive_letter);

    if force {
        let ghost pre = *cache;
        match traverse_disk(cache, drive_root.as_slice(), snapshot, skip_dirs, true, now) {
            Ok(_) => Ok(UpdateAction::FullScan),
            Err(e) => Err(e),
        }
    } else if crate::traversal::is_fresh(now, cache.last_scan, CACHE_TTL_SECONDS)
        && cache.entries.len() > 0 {
        Ok(UpdateAction::NoOp)
    } else {
        let matches = match query {
            Some(d) => d.usn_journal_id == cache.usn_state.journal_id,
            None => false,
        };
        if matches {
            let applied = try_incremental_update(cache, drive_letter, query, raw, now);
            proof {
                assert(applied);
            }
            Ok(UpdateAction::Incremental)
        } else {
            let ghost pre_state = cache.usn_state;
            match query {
                Some(_) => {
                    let invalidated = try_incremental_update(cache, drive_letter, query, raw, now);
                    proof {
                        assert(!invalidated);
                    }
                },
                None => {},
            }
            match traverse_disk(cache, drive_root.as_slice(), snapshot, skip_dirs, false, now) {
                Ok(_) => Ok(UpdateAction::FullScan),
                Err(e) => Err(e),
            }
        }
    }
}

/// A scan was decided and the snapshot lacks the drive root.
pub open spec fn scan_needed_and_root_missing(
    action: UpdateAction,
    dirs: Seq<crate::traversal::FsDir>,
    root: Seq<u8>,
) -> bool {
    action == UpdateAction::FullScan && !fs_has(dirs, root)
}

/// The volume root path of a drive letter.
pub fn drive_root_path(drive_letter: char) -> (r: Vec<u8>)
    ensures
        r@ == spec_drive_root(drive_letter),
{
    let mut r: Vec<u8> = Vec::new();
    r.push(drive_letter as u8);
    r.push(58);
    r.push(92);
    proof {
        assert(r@ =~= spec_drive_root(drive_letter));
    }
    r
}

} // verus!
