//! Incremental cache updates from change-journal records.
//!
//! Each record mutates the cache according to its change type; records that
//! do not concern directories have no effect. The rules are stated over the
//! entry models and proved of the executable applier; applying a batch is
//! folding the single-record rule over it in journal order.

use vstd::prelude::*;
use crate::cache::{DiskCache, has_path, idx_of, entry_at, paths_unique, in_subtree, without_name};
use crate::entry::{DirEntry, EntryModel};
use crate::journal::{UsnRecord, RecordModel, ChangeType, JournalData, USNJournalState, rec_views};
use crate::bytestr::{spec_basename, spec_parent};

verus! {

/// The models of a sequence of entries.
pub open spec fn models(s: Seq<DirEntry>) -> Seq<EntryModel> {
    s.map_values(|e: DirEntry| e@)
}

// ---------------------------------------------------------------------------
// The transition rules, over entry models
// ---------------------------------------------------------------------------

pub open spec fn model_has_path(s: Seq<EntryModel>, p: Seq<u8>) -> bool {
    exists|i: int| 0 <= i < s.len() && s[i].path == p
}

pub open spec fn model_idx(s: Seq<EntryModel>, p: Seq<u8>) -> int {
    choose|i: int| 0 <= i < s.len() && s[i].path == p
}

/// A created directory: append the name to the parent's children when the
/// parent is known, then record the new entry, empty and visible.
pub open spec fn spec_apply_create(s: Seq<EntryModel>, r: RecordModel) -> Seq<EntryModel> {
    let name = spec_basename(r.path);
    let parent = spec_parent(r.path);
    if name.len() == 0 || model_has_path(s, r.path) {
        s
    } else {
        let s1 = if model_has_path(s, parent) && !s[model_idx(s, parent)].children.contains(
            name,
        ) {
            s.update(
                model_idx(s, parent),
                EntryModel { children: s[model_idx(s, parent)].children.push(name), ..s[
                    model_idx(s, parent)
                ] },
            )
        } else {
            s
        };
        s1.push(
            EntryModel {
                path: r.path,
                name,
                modified: r.timestamp,
                size: 0,
                children: Seq::empty(),
                symlink_target: None,
                is_hidden: false,
            },
        )
    }
}

/// A deleted directory: drop its whole subtree, and take its name out of the
/// parent's children when the parent is known.
pub open spec fn spec_apply_delete(s: Seq<EntryModel>, r: RecordModel) -> Seq<EntryModel> {
    let name = spec_basename(r.path);
    let parent = spec_parent(r.path);
    let s1 = s.filter(|m: EntryModel| !in_subtree(m.path, r.path));
    if model_has_path(s1, parent) {
        s1.update(
            model_idx(s1, parent),
            EntryModel { children: without_name(s1[model_idx(s1, parent)].children, name), ..s1[
                model_idx(s1, parent)
            ] },
        )
    } else {
        s1
    }
}

/// A touched directory: refresh its modification instant when it is known.
pub open spec fn spec_apply_touch(s: Seq<EntryModel>, r: RecordModel) -> Seq<EntryModel> {
    if model_has_path(s, r.path) {
        s.update(
            model_idx(s, r.path),
            EntryModel { modified: r.timestamp, ..s[model_idx(s, r.path)] },
        )
    } else {
        s
    }
}

/// The effect of one record on the entry collection. Records that do not
/// concern a directory have none; a rename is conservatively a deletion at
/// the observed path, restored by the following creation record.
pub open spec fn spec_apply_record(s: Seq<EntryModel>, r: RecordModel) -> Seq<EntryModel> {
    if !r.is_directory {
        s
    } else {
        match r.change_type {
            ChangeType::Created => spec_apply_create(s, r),
            ChangeType::Modified => if model_has_path(s, r.path) {
                spec_apply_touch(s, r)
            } else {
                spec_apply_create(s, r)
            },
            ChangeType::Deleted => spec_apply_delete(s, r),
            ChangeType::Renamed => spec_apply_delete(s, r),
            ChangeType::SecurityChanged => spec_apply_touch(s, r),
            ChangeType::PermissionsChanged => spec_apply_touch(s, r),
            ChangeType::Other => s,
        }
    }
}

/// A batch is applied strictly in journal order.
pub open spec fn spec_apply_records(s: Seq<EntryModel>, rs: Seq<RecordModel>) -> Seq<EntryModel>
    decreases rs.len(),
{
    if rs.len() == 0 {
        s
    } else {
        spec_apply_records(spec_apply_record(s, rs[0]), rs.skip(1))
    }
}

// ---------------------------------------------------------------------------
// Laws
// ---------------------------------------------------------------------------

/// Applying one record twice leaves what one application left: a second
/// creation finds the entry present, a second deletion finds the subtree
/// gone, and a second touch writes the same instant.
pub proof fn lemma_apply_idempotent(s: Seq<EntryModel>, r: RecordModel)
    requires
        forall|i: int, j: int| 0 <= i < j < s.len() ==> s[i].path != s[j].path,
    ensures
        spec_apply_record(spec_apply_record(s, r), r) == spec_apply_record(s, r),
{
    broadcast use vstd::prelude::Seq::lemma_filter_push;

    if r.is_directory {
        let name = spec_basename(r.path);
        let parent = spec_parent(r.path);
        let s1 = spec_apply_record(s, r);
        match r.change_type {
            ChangeType::Created => {
                if name.len() != 0 && !model_has_path(s, r.path) {
                    assert(s1.last().path == r.path);
                    assert(model_has_path(s1, r.path));
                }
            },
            ChangeType::Modified => {
                if model_has_path(s, r.path) {
                    let i = model_idx(s, r.path);
                    lemma_model_idx_unique(s, r.path, i);
                    assert(s1[i].path == r.path);
                    assert(model_has_path(s1, r.path));
                    lemma_touch_idempotent(s, r);
                } else if name.len() != 0 {
                    assert(s1.last().path == r.path);
                    assert(model_has_path(s1, r.path));
                    assert(forall|a: int, b: int|
                        0 <= a < b < s1.len() - 1 ==> s1[a].path == s[a].path && s1[b].path
                            == s[b].path);
                    assert forall|a: int, b: int| 0 <= a < b < s1.len() implies s1[a].path
                        != s1[b].path by {
                        if b == s1.len() - 1 {
                            assert(s1[a].path == s[a].path);
                            assert(!model_has_path(s, r.path));
                        }
                    }
                    lemma_model_idx_unique(s1, r.path, s1.len() - 1);
                    assert(s1[model_idx(s1, r.path)].modified == r.timestamp);
                    lemma_touch_at(s1, r);
                }
            },
            ChangeType::Deleted => {
                lemma_delete_idempotent(s, r);
            },
            ChangeType::Renamed => {
                lemma_delete_idempotent(s, r);
            },
            ChangeType::SecurityChanged => {
                lemma_touch_idempotent(s, r);
            },
            ChangeType::PermissionsChanged => {
                lemma_touch_idempotent(s, r);
            },
            ChangeType::Other => {},
        }
    }
}

/// Touching an entry that already carries the instant changes nothing more.
proof fn lemma_touch_idempotent(s: Seq<EntryModel>, r: RecordModel)
    requires
        forall|i: int, j: int| 0 <= i < j < s.len() ==> s[i].path != s[j].path,
    ensures
        spec_apply_touch(spec_apply_touch(s, r), r) == spec_apply_touch(s, r),
{
    if model_has_path(s, r.path) {
        let i = model_idx(s, r.path);
        lemma_model_idx_unique(s, r.path, i);
        let s1 = spec_apply_touch(s, r);
        assert(s1[i].path == r.path);
        lemma_model_idx_unique(s1, r.path, i);
        assert(spec_apply_touch(s1, r) =~= s1);
    }
}

/// After a touch of a present entry, the instant is the record's.
proof fn lemma_touch_at(s: Seq<EntryModel>, r: RecordModel)
    requires
        model_has_path(s, r.path),
        s[model_idx(s, r.path)].modified == r.timestamp,
    ensures
        spec_apply_touch(s, r) == s,
{
    assert(spec_apply_touch(s, r) =~= s);
}

/// Deleting an already-deleted subtree changes nothing.
proof fn lemma_delete_idempotent(s: Seq<EntryModel>, r: RecordModel)
    requires
        forall|i: int, j: int| 0 <= i < j < s.len() ==> s[i].path != s[j].path,
    ensures
        spec_apply_delete(spec_apply_delete(s, r), r) == spec_apply_delete(s, r),
{
    let name = spec_basename(r.path);
    let parent = spec_parent(r.path);
    let pred = |m: EntryModel| !in_subtree(m.path, r.path);
    let s1 = s.filter(pred);
    let d1 = spec_apply_delete(s, r);
    lemma_model_filter_all(d1, pred);
    assert(d1.filter(pred) == d1);
    let d2 = spec_apply_delete(d1, r);
    if model_has_path(d1, parent) {
        let i = model_idx(d1, parent);
        lemma_model_filter_unique(s, pred);
        assert(forall|a: int, b: int| 0 <= a < b < s1.len() ==> s1[a].path != s1[b].path);
        if model_has_path(s1, parent) {
            let j = model_idx(s1, parent);
            lemma_model_idx_unique(s1, parent, j);
            assert(d1[j].path == parent);
            lemma_model_idx_unique(d1, parent, j);
            assert(i == j);
            assert(d1[i].children == without_name(s1[j].children, name));
            lemma_without_name_idempotent(s1[j].children, name);
            assert(d2 =~= d1);
        } else {
            assert(forall|k: int| 0 <= k < d1.len() ==> d1[k].path == s1[k].path);
            assert(model_has_path(s1, parent));
        }
    } else {
        assert(d2 =~= d1);
    }
}

/// A sequence every element of which satisfies the predicate filters to
/// itself.
proof fn lemma_model_filter_all(s: Seq<EntryModel>, pred: spec_fn(EntryModel) -> bool)
    requires
        forall|i: int| 0 <= i < s.len() ==> pred(s[i]),
    ensures
        s.filter(pred) == s,
    decreases s.len(),
{
    reveal(Seq::filter);
    if s.len() > 0 {
        lemma_model_filter_all(s.drop_last(), pred);
        assert(s.filter(pred) =~= s);
    }
}

/// Removing a name twice removes it once.
proof fn lemma_without_name_idempotent(s: Seq<Seq<u8>>, name: Seq<u8>)
    ensures
        without_name(without_name(s, name), name) == without_name(s, name),
    decreases s.len(),
{
    reveal(Seq::filter);
    broadcast use vstd::prelude::Seq::lemma_filter_push;

    if s.len() > 0 {
        lemma_without_name_idempotent(s.drop_last(), name);
        if s.last() != name {
            assert(without_name(s, name) == without_name(s.drop_last(), name).push(s.last()));
        }
    }
}

pub proof fn lemma_model_idx_unique(s: Seq<EntryModel>, p: Seq<u8>, i: int)
    requires
        forall|a: int, b: int| 0 <= a < b < s.len() ==> s[a].path != s[b].path,
        0 <= i < s.len(),
        s[i].path == p,
    ensures
        model_idx(s, p) == i,
        model_has_path(s, p),
{
    assert(model_has_path(s, p));
    let k = model_idx(s, p);
    if k != i {
        if k < i {
            assert(s[k].path != s[i].path);
        } else {
            assert(s[i].path != s[k].path);
        }
    }
}

/// Every element of a filtered model sequence is an element of the original.
proof fn lemma_model_filter_subset(s: Seq<EntryModel>, pred: spec_fn(EntryModel) -> bool)
    ensures
        forall|i: int|
            0 <= i < s.filter(pred).len() ==> s.contains(#[trigger] s.filter(pred)[i]),
    decreases s.len(),
{
    reveal(Seq::filter);
    if s.len() > 0 {
        let t = s.drop_last();
        lemma_model_filter_subset(t, pred);
        assert forall|i: int|
            0 <= i < s.filter(pred).len() implies s.contains(#[trigger] s.filter(pred)[i]) by {
            if i < t.filter(pred).len() {
                assert(t.contains(t.filter(pred)[i]));
                let j = choose|j: int| 0 <= j < t.len() && t[j] == t.filter(pred)[i];
                assert(s[j] == s.filter(pred)[i]);
            } else {
                assert(s.filter(pred)[i] == s.last());
                assert(s[s.len() - 1] == s.last());
            }
        }
    }
}

/// Filtering keeps model paths pairwise distinct.
proof fn lemma_model_filter_unique(s: Seq<EntryModel>, pred: spec_fn(EntryModel) -> bool)
    requires
        forall|a: int, b: int| 0 <= a < b < s.len() ==> s[a].path != s[b].path,
    ensures
        forall|a: int, b: int|
            0 <= a < b < s.filter(pred).len() ==> s.filter(pred)[a].path != s.filter(
                pred,
            )[b].path,
    decreases s.len(),
{
    reveal(Seq::filter);
    if s.len() > 0 {
        let t = s.drop_last();
        assert(forall|i: int| 0 <= i < t.len() ==> t[i] == s[i]);
        lemma_model_filter_unique(t, pred);
        lemma_model_filter_subset(t, pred);
        if pred(s.last()) {
            assert(s.filter(pred) == t.filter(pred).push(s.last()));
            assert forall|a: int, b: int|
                0 <= a < b < s.filter(pred).len() implies s.filter(pred)[a].path != s.filter(
                pred,
            )[b].path by {
                if b < s.filter(pred).len() - 1 {
                    assert(s.filter(pred)[a] == t.filter(pred)[a]);
                    assert(s.filter(pred)[b] == t.filter(pred)[b]);
                } else {
                    assert(s.filter(pred)[b] == s.last());
                    assert(s.filter(pred)[a] == t.filter(pred)[a]);
                    assert(t.contains(t.filter(pred)[a]));
                    let j = choose|j: int| 0 <= j < t.len() && t[j] == t.filter(pred)[a];
                    assert(s[j].path != s[s.len() - 1].path);
                }
            }
        } else {
            assert(s.filter(pred) == t.filter(pred));
        }
    }
}

/// Two records in journal order: the batch of both has the effect of the
/// earlier one, then the later one on the outcome.
pub proof fn lemma_two_records_in_order(s: Seq<EntryModel>, r1: RecordModel, r2: RecordModel)
    ensures
        spec_apply_records(s, seq![r1, r2]) == spec_apply_record(spec_apply_record(s, r1), r2),
{
    lemma_apply_append(s, seq![r1], seq![r2]);
    assert(seq![r1] + seq![r2] =~= seq![r1, r2]);
    assert(seq![r1].skip(1) =~= Seq::<RecordModel>::empty());
    assert(seq![r2].skip(1) =~= Seq::<RecordModel>::empty());
    assert(spec_apply_records(s, seq![r1]) == spec_apply_records(
        spec_apply_record(s, r1),
        seq![r1].skip(1),
    ));
    let s1 = spec_apply_record(s, r1);
    assert(spec_apply_records(s1, seq![r2]) == spec_apply_records(
        spec_apply_record(s1, r2),
        seq![r2].skip(1),
    ));
}

/// Journal order: a batch split anywhere applies as the first part, then the
/// second on the outcome.
pub proof fn lemma_apply_append(s: Seq<EntryModel>, rs1: Seq<RecordModel>, rs2: Seq<RecordModel>)
    ensures
        spec_apply_records(s, rs1 + rs2) == spec_apply_records(spec_apply_records(s, rs1), rs2),
    decreases rs1.len(),
{
    if rs1.len() == 0 {
        assert(rs1 + rs2 =~= rs2);
    } else {
        assert((rs1 + rs2)[0] == rs1[0]);
        assert((rs1 + rs2).skip(1) =~= rs1.skip(1) + rs2);
        lemma_apply_append(spec_apply_record(s, rs1[0]), rs1.skip(1), rs2);
    }
}

// ---------------------------------------------------------------------------
// Bridging between entry values and their models
// ---------------------------------------------------------------------------

/// Mapping to models commutes with filtering a subtree away.
proof fn lemma_models_filter_subtree(s: Seq<DirEntry>, p: Seq<u8>)
    ensures
        models(s.filter(|e: DirEntry| !in_subtree(e.path@, p))) == models(s).filter(
            |m: EntryModel| !in_subtree(m.path, p),
        ),
    decreases s.len(),
{
    reveal(Seq::filter);
    let vpred = |e: DirEntry| !in_subtree(e.path@, p);
    let mpred = |m: EntryModel| !in_subtree(m.path, p);
    if s.len() == 0 {
        assert(models(s).len() == 0);
        assert(models(s.filter(vpred)) =~= models(s).filter(mpred));
    } else {
        let t = s.drop_last();
        lemma_models_filter_subtree(t, p);
        assert(models(s).drop_last() =~= models(t));
        assert(models(s).last() == s.last()@);
        assert(vpred(s.last()) == mpred(s.last()@));
        if vpred(s.last()) {
            assert(s.filter(vpred) == t.filter(vpred).push(s.last()));
            assert(models(s).filter(mpred) == models(s).drop_last().filter(mpred).push(
                models(s).last(),
            ));
            assert(models(t.filter(vpred).push(s.last())) =~= models(t.filter(vpred)).push(
                s.last()@,
            ));
        } else {
            assert(s.filter(vpred) == t.filter(vpred));
            assert(models(s).filter(mpred) == models(s).drop_last().filter(mpred));
        }
    }
}

/// Value-level presence and position agree with their model counterparts.
proof fn lemma_models_lookup(s: Seq<DirEntry>, p: Seq<u8>)
    requires
        paths_unique(s),
    ensures
        has_path(s, p) == model_has_path(models(s), p),
        has_path(s, p) ==> model_idx(models(s), p) == idx_of(s, p) && models(s)[idx_of(s, p)]
            == entry_at(s, p),
{
    if has_path(s, p) {
        let i = idx_of(s, p);
        crate::cache::lemma_idx_of_unique(s, p, i);
        assert(models(s)[i].path == p);
        assert forall|a: int, b: int| 0 <= a < b < models(s).len() implies models(s)[a].path
            != models(s)[b].path by {
            assert(s[a].path@ != s[b].path@);
        }
        lemma_model_idx_unique(models(s), p, i);
    } else {
        if model_has_path(models(s), p) {
            let i = model_idx(models(s), p);
            assert(s[i].path@ == p);
        }
    }
}

// ---------------------------------------------------------------------------
// The executable applier
// ---------------------------------------------------------------------------

/// Apply a creation record.
pub fn apply_create(cache: &mut DiskCache, record: &UsnRecord)
    requires
        old(cache).wf(),
    ensures
        final(cache).wf(),
        models(final(cache).entries@) == (if record.is_directory {
            spec_apply_create(models(old(cache).entries@), record@)
        } else {
            models(old(cache).entries@)
        }),
        final(cache).last_scan == old(cache).last_scan,
        final(cache).root == old(cache).root,
        final(cache).last_scanned_root == old(cache).last_scanned_root,
        final(cache).usn_state == old(cache).usn_state,
        final(cache).pending_writes == old(cache).pending_writes,
        final(cache).flush_threshold == old(cache).flush_threshold,
        final(cache).show_hidden == old(cache).show_hidden,
        final(cache).skip_stats == old(cache).skip_stats,
{
    if !record.is_directory {
        return ;
    }
    let ghost s0 = cache.entries@;
    let (parent, name) = crate::bytestr::split_path(record.path.as_slice());
    if name.len() == 0 {
        return ;
    }
    let present = match cache.get_entry(record.path.as_slice()) {
        Some(_) => true,
        None => false,
    };
    proof {
        lemma_models_lookup(s0, record.path@);
    }
    if present {
        return ;
    }
    cache.add_child_name(parent.as_slice(), name.as_slice());
    let ghost s1 = cache.entries@;
    proof {
        lemma_models_lookup(s0, parent@);
        if has_path(s0, parent@) && !entry_at(s0, parent@).children.contains(name@) {
            assert(models(s1) =~= models(s0).update(
                idx_of(s0, parent@),
                s1[idx_of(s0, parent@)]@,
            ));
        } else {
            assert(models(s1) =~= models(s0));
        }
        assert forall|j: int| 0 <= j < s1.len() implies s1[j].path@ == s0[j].path@ by {}
        assert(!has_path(s1, record.path@)) by {
            if has_path(s1, record.path@) {
                let k = choose|k: int| 0 <= k < s1.len() && s1[k].path@ == record.path@;
                assert(s0[k].path@ == record.path@);
            }
        }
    }
    let e = DirEntry {
        path: crate::bytestr::clone_bytes(&record.path),
        name,
        modified: record.timestamp,
        size: 0,
        children: Vec::new(),
        symlink_target: None,
        is_hidden: false,
    };
    proof {
        assert(e@.children =~= Seq::<Seq<u8>>::empty());
    }
    cache.insert_entry(e);
    proof {
        assert(models(cache.entries@) =~= models(s1).push(
            cache.entries@[cache.entries@.len() - 1]@,
        ));
        assert(models(cache.entries@) =~= spec_apply_create(models(s0), record@));
    }
}

/// Apply a modification record: refresh the instant, or treat an unknown
/// directory as created.
pub fn apply_modified(cache: &mut DiskCache, record: &UsnRecord)
    requires
        old(cache).wf(),
    ensures
        final(cache).wf(),
        models(final(cache).entries@) == (if record.is_directory {
            if model_has_path(models(old(cache).entries@), record@.path) {
                spec_apply_touch(models(old(cache).entries@), record@)
            } else {
                spec_apply_create(models(old(cache).entries@), record@)
            }
        } else {
            models(old(cache).entries@)
        }),
        final(cache).last_scan == old(cache).last_scan,
        final(cache).root == old(cache).root,
        final(cache).last_scanned_root == old(cache).last_scanned_root,
        final(cache).usn_state == old(cache).usn_state,
        final(cache).pending_writes == old(cache).pending_writes,
        final(cache).flush_threshold == old(cache).flush_threshold,
        final(cache).show_hidden == old(cache).show_hidden,
        final(cache).skip_stats == old(cache).skip_stats,
{
    if !record.is_directory {
        return ;
    }
    let ghost s0 = cache.entries@;
    let found = cache.update_modified(record.path.as_slice(), record.timestamp);
    proof {
        lemma_models_lookup(s0, record.path@);
    }
    if !found {
        apply_create(cache, record);
    } else {
        proof {
            assert(models(cache.entries@) =~= models(s0).update(
                idx_of(s0, record.path@),
                cache.entries@[idx_of(s0, record.path@)]@,
            ));
            assert(models(cache.entries@) =~= spec_apply_touch(models(s0), record@));
        }
    }
}

/// Apply a deletion record: the subtree goes, and the parent's child list
/// loses the name.
pub fn apply_deleted(cache: &mut DiskCache, record: &UsnRecord)
    requires
        old(cache).wf(),
    ensures
        final(cache).wf(),
        models(final(cache).entries@) == (if record.is_directory {
            spec_apply_delete(models(old(cache).entries@), record@)
        } else {
            models(old(cache).entries@)
        }),
        final(cache).last_scan == old(cache).last_scan,
        final(cache).root == old(cache).root,
        final(cache).last_scanned_root == old(cache).last_scanned_root,
        final(cache).usn_state == old(cache).usn_state,
        final(cache).pending_writes == old(cache).pending_writes,
        final(cache).flush_threshold == old(cache).flush_threshold,
        final(cache).show_hidden == old(cache).show_hidden,
        final(cache).skip_stats == old(cache).skip_stats,
{
    if !record.is_directory {
        return ;
    }
    let ghost s0 = cache.entries@;
    let (parent, name) = crate::bytestr::split_path(record.path.as_slice());
    cache.remove_entry(record.path.as_slice());
    let ghost s1 = cache.entries@;
    proof {
        lemma_models_filter_subtree(s0, record.path@);
    }
    cache.remove_child_name(parent.as_slice(), name.as_slice());
    proof {
        lemma_models_lookup(s1, parent@);
        if has_path(s1, parent@) {
            assert(models(cache.entries@) =~= models(s1).update(
                idx_of(s1, parent@),
                cache.entries@[idx_of(s1, parent@)]@,
            ));
            assert(models(cache.entries@) =~= spec_apply_delete(models(s0), record@));
        } else {
            assert(models(cache.entries@) =~= spec_apply_delete(models(s0), record@));
        }
    }
}

/// Apply a batch of change records, strictly in journal order.
#[verifier::loop_isolation(false)]
pub fn apply_changes_to_cache(cache: &mut DiskCache, changes: &Vec<UsnRecord>)
    requires
        old(cache).wf(),
    ensures
        final(cache).wf(),
        models(final(cache).entries@) == spec_apply_records(
            models(old(cache).entries@),
            rec_views(changes@),
        ),
        final(cache).last_scan == old(cache).last_scan,
        final(cache).root == old(cache).root,
        final(cache).last_scanned_root == old(cache).last_scanned_root,
        final(cache).usn_state == old(cache).usn_state,
        final(cache).pending_writes == old(cache).pending_writes,
        final(cache).flush_threshold == old(cache).flush_threshold,
        final(cache).show_hidden == old(cache).show_hidden,
        final(cache).skip_stats == old(cache).skip_stats,
{
    let mut i: usize = 0;
    while i < changes.len()
        invariant
            0 <= i <= changes@.len(),
            cache.wf(),
            models(cache.entries@) == spec_apply_records(
                models(old(cache).entries@),
                rec_views(changes@).take(i as int),
            ),
            cache.last_scan == old(cache).last_scan,
            cache.root == old(cache).root,
            cache.last_scanned_root == old(cache).last_scanned_root,
            cache.usn_state == old(cache).usn_state,
            cache.pending_writes == old(cache).pending_writes,
            cache.flush_threshold == old(cache).flush_threshold,
            cache.show_hidden == old(cache).show_hidden,
            cache.skip_stats == old(cache).skip_stats,
        decreases changes@.len() - i,
    {
        let ghost sofar = models(cache.entries@);
        let record = &changes[i];
        match record.change_type {
            ChangeType::Created => {
                apply_create(cache, record);
            },
            ChangeType::Modified => {
                apply_modified(cache, record);
            },
            ChangeType::Deleted => {
                apply_deleted(cache, record);
            },
            ChangeType::Renamed => {
                apply_deleted(cache, record);
            },
            ChangeType::SecurityChanged => {
                if record.is_directory {
                    let ghost s0 = cache.entries@;
                    let found = cache.update_modified(record.path.as_slice(), record.timestamp);
                    proof {
                        lemma_models_lookup(s0, record.path@);
                        if found {
                            assert(models(cache.entries@) =~= models(s0).update(
                                idx_of(s0, record.path@),
                                cache.entries@[idx_of(s0, record.path@)]@,
                            ));
                            assert(models(cache.entries@) =~= spec_apply_touch(
                                models(s0),
                                record@,
                            ));
                        }
                    }
                }
            },
            ChangeType::PermissionsChanged => {
                if record.is_directory {
                    let ghost s0 = cache.entries@;
                    let found = cache.update_modified(record.path.as_slice(), record.timestamp);
                    proof {
                        lemma_models_lookup(s0, record.path@);
                        if found {
                            assert(models(cache.entries@) =~= models(s0).update(
                                idx_of(s0, record.path@),
                                cache.entries@[idx_of(s0, record.path@)]@,
                            ));
                            assert(models(cache.entries@) =~= spec_apply_touch(
                                models(s0),
                                record@,
                            ));
                        }
                    }
                }
            },
            ChangeType::Other => {},
        }
        proof {
            assert(models(cache.entries@) == spec_apply_record(sofar, record@));
            let rs = rec_views(changes@);
            assert(rs.take(i + 1) =~= rs.take(i as int) + seq![rs[i as int]]);
            lemma_apply_append(
                models(old(cache).entries@),
                rs.take(i as int),
                seq![rs[i as int]],
            );
            assert(spec_apply_records(spec_apply_record(sofar, record@), Seq::empty())
                == spec_apply_record(sofar, record@));
            assert(seq![rs[i as int]].skip(1) =~= Seq::<RecordModel>::empty());
        }
        i = i + 1;
    }
    proof {
        assert(rec_views(changes@).take(changes@.len() as int) =~= rec_views(changes@));
    }
}

/// How many directory creations, modifications, deletions and renames a
/// batch holds, in that order.
pub open spec fn count_type(rs: Seq<RecordModel>, t: ChangeType) -> int
    decreases rs.len(),
{
    if rs.len() == 0 {
        0
    } else {
        count_type(rs.drop_last(), t) + (if rs.last().is_directory && rs.last().change_type == t {
            1int
        } else {
            0int
        })
    }
}

/// Count the directory records of each mutating kind.
#[verifier::loop_isolation(false)]
pub fn estimate_change_impact(changes: &Vec<UsnRecord>) -> (r: (usize, usize, usize, usize))
    ensures
        r.0 == count_type(rec_views(changes@), ChangeType::Created),
        r.1 == count_type(rec_views(changes@), ChangeType::Modified),
        r.2 == count_type(rec_views(changes@), ChangeType::Deleted),
        r.3 == count_type(rec_views(changes@), ChangeType::Renamed),
{
    let mut creates: usize = 0;
    let mut modifies: usize = 0;
    let mut deletes: usize = 0;
    let mut renames: usize = 0;
    let mut i: usize = 0;
    while i < changes.len()
        invariant
            0 <= i <= changes@.len(),
            creates == count_type(rec_views(changes@).take(i as int), ChangeType::Created),
            modifies == count_type(rec_views(changes@).take(i as int), ChangeType::Modified),
            deletes == count_type(rec_views(changes@).take(i as int), ChangeType::Deleted),
            renames == count_type(rec_views(changes@).take(i as int), ChangeType::Renamed),
            creates <= i && modifies <= i && deletes <= i && renames <= i,
        decreases changes@.len() - i,
    {
        proof {
            let rs = rec_views(changes@);
            assert(rs.take(i + 1).drop_last() =~= rs.take(i as int));
            assert(rs.take(i + 1).last() == rs[i as int]);
        }
        let record = &changes[i];
        if record.is_directory {
            match record.change_type {
                ChangeType::Created => {
                    creates = creates + 1;
                },
                ChangeType::Modified => {
                    modifies = modifies + 1;
                },
                ChangeType::Deleted => {
                    deletes = deletes + 1;
                },
                ChangeType::Renamed => {
                    renames = renames + 1;
                },
                _ => {},
            }
        }
        i = i + 1;
    }
    proof {
        assert(rec_views(changes@).take(changes@.len() as int) =~= rec_views(changes@));
    }
    (creates, modifies, deletes, renames)
}

/// One incremental pass: given the journal identity a query reported (or
/// `None` when the volume has no usable journal) and the raw bytes of a
/// journal read, decide whether an incremental update is possible and apply
/// it.
///
/// On an identity mismatch the persisted position is invalidated: the
/// sequence number is zeroed and the new identity adopted, and the caller
/// must fall back to a full scan.
pub fn try_incremental_update(
    cache: &mut DiskCache,
    drive_letter: char,
    query: Option<&JournalData>,
    raw: &[u8],
    now: i64,
) -> (r: bool)
    requires
        old(cache).wf(),
    ensures
        final(cache).wf(),
        match query {
            None => r == false && *final(cache) == *old(cache),
            Some(d) => {
                if d.usn_journal_id != old(cache).usn_state.journal_id {
                    r == false && final(cache).usn_state == (USNJournalState {
                        last_usn: 0,
                        journal_id: d.usn_journal_id,
                        ..old(cache).usn_state
                    }) && final(cache).entries == old(cache).entries && final(cache).last_scan
                        == old(cache).last_scan && final(cache).root == old(cache).root && final(cache).last_scanned_root == old(cache).last_scanned_root && final(cache).pending_writes == old(cache).pending_writes && final(cache).flush_threshold == old(cache).flush_threshold && final(cache).show_hidden == old(cache).show_hidden && final(cache).skip_stats == old(cache).skip_stats
                } else {
                    let records = crate::journal::spec_parse_records(
                        seq![(drive_letter as u8), 58u8, 92u8],
                        raw@,
                        now,
                    );
                    r == true && models(final(cache).entries@) == spec_apply_records(
                        models(old(cache).entries@),
                        records,
                    ) && final(cache).usn_state == crate::journal::spec_advance_state(
                        old(cache).usn_state,
                        records,
                        now,
                    ) && final(cache).last_scan == now && final(cache).root == old(cache).root
                        && final(cache).last_scanned_root == old(cache).last_scanned_root
                        && final(cache).pending_writes == old(cache).pending_writes && final(cache).flush_threshold == old(cache).flush_threshold && final(cache).show_hidden
                        == old(cache).show_hidden && final(cache).skip_stats == old(
                        cache,
                    ).skip_stats
                }
            },
        },
{
    match query {
        None => false,
        Some(d) => {
            let mut tracker = crate::journal::USNTracker::new(
                drive_letter,
                cache.usn_state.duplicate(),
            );
            if !tracker.check_journal_validity(d) {
                cache.usn_state = tracker.state().duplicate();
                false
            } else {
                let records = tracker.parse_usn_records(raw, now);
                apply_changes_to_cache(cache, &records);
                cache.usn_state = tracker.state().duplicate();
                cache.last_scan = now;
                true
            }
        },
    }
}

} // verus!
