//! The in-memory cache: one entry per directory, addressed by absolute path.
//!
//! Entries live in a vector whose paths are pairwise distinct; staged writes
//! accumulate in a buffer and are folded into the map when it fills or when
//! the cache is saved. Skip statistics count the directories the traversal
//! refused to enter.

use vstd::prelude::*;
use crate::entry::{DirEntry, EntryModel};
use crate::journal::USNJournalState;
use crate::bytestr::is_sep;

verus! {

/// Buffered writes are folded into the map when this many are pending.
pub const DEFAULT_FLUSH_THRESHOLD: usize = 5000;

// ---------------------------------------------------------------------------
// The entry collection as a mathematical map
// ---------------------------------------------------------------------------

/// Some entry carries path `p`.
pub open spec fn has_path(s: Seq<DirEntry>, p: Seq<u8>) -> bool {
    exists|i: int| 0 <= i < s.len() && s[i].path@ == p
}

/// The position of the entry with path `p`.
pub open spec fn idx_of(s: Seq<DirEntry>, p: Seq<u8>) -> int {
    choose|i: int| 0 <= i < s.len() && s[i].path@ == p
}

/// The value of the entry with path `p`.
pub open spec fn entry_at(s: Seq<DirEntry>, p: Seq<u8>) -> EntryModel {
    s[idx_of(s, p)]@
}

/// No two entries share a path.
pub open spec fn paths_unique(s: Seq<DirEntry>) -> bool {
    forall|i: int, j: int| 0 <= i < j < s.len() ==> s[i].path@ != s[j].path@
}

/// With distinct paths, the position of a path is the only one carrying it.
pub proof fn lemma_idx_of_unique(s: Seq<DirEntry>, p: Seq<u8>, i: int)
    requires
        paths_unique(s),
        0 <= i < s.len(),
        s[i].path@ == p,
    ensures
        idx_of(s, p) == i,
        has_path(s, p),
{
    assert(has_path(s, p));
    let k = idx_of(s, p);
    if k != i {
        if k < i {
            assert(s[k].path@ != s[i].path@);
        } else {
            assert(s[i].path@ != s[k].path@);
        }
    }
}

/// Inserting an entry replaces the one at its path, or appends.
pub open spec fn insert_entry_seq(s: Seq<DirEntry>, e: DirEntry) -> Seq<DirEntry> {
    if has_path(s, e.path@) {
        s.update(idx_of(s, e.path@), e)
    } else {
        s.push(e)
    }
}

/// Folding a buffer of staged writes into the map, oldest first.
pub open spec fn flush_seq(s: Seq<DirEntry>, pending: Seq<DirEntry>) -> Seq<DirEntry>
    decreases pending.len(),
{
    if pending.len() == 0 {
        s
    } else {
        flush_seq(insert_entry_seq(s, pending[0]), pending.skip(1))
    }
}

/// The children list with every occurrence of `name` removed.
pub open spec fn without_name(cs: Seq<Seq<u8>>, name: Seq<u8>) -> Seq<Seq<u8>> {
    cs.filter(|c: Seq<u8>| c != name)
}

/// `k` lies in the subtree rooted at `p`: it is `p` itself, or continues `p`
/// with a separator.
pub open spec fn in_subtree(k: Seq<u8>, p: Seq<u8>) -> bool {
    k == p || (k.len() > p.len() && k.subrange(0, p.len() as int) == p && is_sep(
        k[p.len() as int],
    ))
}

// ---------------------------------------------------------------------------
// Skip statistics
// ---------------------------------------------------------------------------

pub open spec fn has_stat(s: Seq<(Vec<u8>, u64)>, n: Seq<u8>) -> bool {
    exists|i: int| 0 <= i < s.len() && s[i].0@ == n
}

pub open spec fn stat_idx(s: Seq<(Vec<u8>, u64)>, n: Seq<u8>) -> int {
    choose|i: int| 0 <= i < s.len() && s[i].0@ == n
}

/// The recorded count for a name, zero when absent.
pub open spec fn stat_count(s: Seq<(Vec<u8>, u64)>, n: Seq<u8>) -> int {
    if has_stat(s, n) {
        s[stat_idx(s, n)].1 as int
    } else {
        0
    }
}

pub open spec fn stats_unique(s: Seq<(Vec<u8>, u64)>) -> bool {
    forall|i: int, j: int| 0 <= i < j < s.len() ==> s[i].0@ != s[j].0@
}

pub proof fn lemma_stat_idx_unique(s: Seq<(Vec<u8>, u64)>, n: Seq<u8>, i: int)
    requires
        stats_unique(s),
        0 <= i < s.len(),
        s[i].0@ == n,
    ensures
        stat_idx(s, n) == i,
        has_stat(s, n),
{
    assert(has_stat(s, n));
    let k = stat_idx(s, n);
    if k != i {
        if k < i {
            assert(s[k].0@ != s[i].0@);
        } else {
            assert(s[i].0@ != s[k].0@);
        }
    }
}

// ---------------------------------------------------------------------------
// The cache
// ---------------------------------------------------------------------------

/// In-memory cache: the entry map, scan metadata, the journal position, the
/// write buffer and the skip statistics.
pub struct DiskCache {
    pub entries: Vec<DirEntry>,
    pub last_scan: i64,
    pub root: Vec<u8>,
    pub last_scanned_root: Vec<u8>,
    pub usn_state: USNJournalState,
    pub pending_writes: Vec<DirEntry>,
    pub flush_threshold: usize,
    pub show_hidden: bool,
    pub skip_stats: Vec<(Vec<u8>, u64)>,
}

impl DiskCache {
    /// Entry paths and statistic names are pairwise distinct, and the buffer
    /// never outgrows its threshold.
    pub open spec fn wf(self) -> bool {
        &&& paths_unique(self.entries@)
        &&& stats_unique(self.skip_stats@)
        &&& self.flush_threshold >= 1
    }

    /// An empty cache stamped with the current instant.
    pub fn new_empty(now: i64) -> (r: Self)
        ensures
            r.wf(),
            r.entries@.len() == 0,
            r.last_scan == now,
            r.root@.len() == 0,
            r.last_scanned_root@.len() == 0,
            r.usn_state.last_usn == 0,
            r.usn_state.journal_id == 0,
            r.pending_writes@.len() == 0,
            r.flush_threshold == DEFAULT_FLUSH_THRESHOLD,
            r.show_hidden == false,
            r.skip_stats@.len() == 0,
    {
        DiskCache {
            entries: Vec::new(),
            last_scan: now,
            root: Vec::new(),
            last_scanned_root: Vec::new(),
            usn_state: Default::default(),
            pending_writes: Vec::new(),
            flush_threshold: DEFAULT_FLUSH_THRESHOLD,
            show_hidden: false,
            skip_stats: Vec::new(),
        }
    }

    /// Look an entry up by its path.
    #[verifier::loop_isolation(false)]
    pub fn get_entry(&self, path: &[u8]) -> (r: Option<&DirEntry>)
        requires
            self.wf(),
        ensures
            match r {
                Some(e) => has_path(self.entries@, path@) && e@ == entry_at(self.entries@, path@)
                    && e.path@ == path@,
                None => !has_path(self.entries@, path@),
            },
    {
        let mut i: usize = 0;
        while i < self.entries.len()
            invariant
                0 <= i <= self.entries@.len(),
                forall|j: int| 0 <= j < i ==> self.entries@[j].path@ != path@,
            decreases self.entries@.len() - i,
        {
            if crate::bytestr::bytes_eq(self.entries[i].path.as_slice(), path) {
                proof {
                    lemma_idx_of_unique(self.entries@, path@, i as int);
                }
                return Some(&self.entries[i]);
            }
            i = i + 1;
        }
        None
    }

    /// Insert an entry directly: the entry at its path is replaced, or the
    /// map grows by one.
    #[verifier::loop_isolation(false)]
    pub fn insert_entry(&mut self, e: DirEntry)
        requires
            old(self).wf(),
        ensures
            final(self).wf(),
            final(self).entries@ == insert_entry_seq(old(self).entries@, e),
            final(self).last_scan == old(self).last_scan,
            final(self).root == old(self).root,
            final(self).last_scanned_root == old(self).last_scanned_root,
            final(self).usn_state == old(self).usn_state,
            final(self).pending_writes == old(self).pending_writes,
            final(self).flush_threshold == old(self).flush_threshold,
            final(self).show_hidden == old(self).show_hidden,
            final(self).skip_stats == old(self).skip_stats,
    {
        let mut i: usize = 0;
        while i < self.entries.len()
            invariant
                0 <= i <= self.entries@.len(),
                self == old(self),
                forall|j: int| 0 <= j < i ==> self.entries@[j].path@ != e.path@,
            decreases self.entries@.len() - i,
        {
            if crate::bytestr::bytes_eq(self.entries[i].path.as_slice(), e.path.as_slice()) {
                proof {
                    lemma_idx_of_unique(self.entries@, e.path@, i as int);
                }
                self.entries[i] = e;
                proof {
                    assert forall|a: int, b: int|
                        0 <= a < b < self.entries@.len() implies self.entries@[a].path@
                        != self.entries@[b].path@ by {
                        assert(old(self).entries@[a].path@ != old(self).entries@[b].path@);
                    }
                }
                return ;
            }
            i = i + 1;
        }
        self.entries.push(e);
        proof {
            assert forall|a: int, b: int|
                0 <= a < b < self.entries@.len() implies self.entries@[a].path@
                != self.entries@[b].path@ by {
                if b < self.entries@.len() - 1 {
                    assert(old(self).entries@[a].path@ != old(self).entries@[b].path@);
                }
            }
        }
    }

    /// Fold every staged write into the map, oldest first.
    #[verifier::loop_isolation(false)]
    pub fn flush_pending_writes(&mut self)
        requires
            old(self).wf(),
        ensures
            final(self).wf(),
            final(self).entries@ == flush_seq(old(self).entries@, old(self).pending_writes@),
            final(self).pending_writes@.len() == 0,
            final(self).last_scan == old(self).last_scan,
            final(self).root == old(self).root,
            final(self).last_scanned_root == old(self).last_scanned_root,
            final(self).usn_state == old(self).usn_state,
            final(self).flush_threshold == old(self).flush_threshold,
            final(self).show_hidden == old(self).show_hidden,
            final(self).skip_stats == old(self).skip_stats,
    {
        while self.pending_writes.len() > 0
            invariant
                self.wf(),
                flush_seq(old(self).entries@, old(self).pending_writes@) == flush_seq(
                    self.entries@,
                    self.pending_writes@,
                ),
                self.last_scan == old(self).last_scan,
                self.root == old(self).root,
                self.last_scanned_root == old(self).last_scanned_root,
                self.usn_state == old(self).usn_state,
                self.flush_threshold == old(self).flush_threshold,
                self.show_hidden == old(self).show_hidden,
                self.skip_stats == old(self).skip_stats,
            decreases self.pending_writes@.len(),
        {
            let ghost pending_pre = self.pending_writes@;
            let e = self.pending_writes.remove(0);
            self.insert_entry(e);
            proof {
                assert(self.pending_writes@ =~= pending_pre.skip(1));
            }
        }
    }

    /// Stage one entry; the buffer is folded in when it reaches the
    /// threshold.
    pub fn buffer_entry(&mut self, entry: DirEntry)
        requires
            old(self).wf(),
        ensures
            final(self).wf(),
            ({
                let staged = old(self).pending_writes@.push(entry);
                if staged.len() >= old(self).flush_threshold {
                    final(self).entries@ == flush_seq(old(self).entries@, staged)
                        && final(self).pending_writes@.len() == 0
                } else {
                    final(self).entries@ == old(self).entries@ && final(self).pending_writes@
                        == staged
                }
            }),
            final(self).last_scan == old(self).last_scan,
            final(self).root == old(self).root,
            final(self).last_scanned_root == old(self).last_scanned_root,
            final(self).usn_state == old(self).usn_state,
            final(self).flush_threshold == old(self).flush_threshold,
            final(self).show_hidden == old(self).show_hidden,
            final(self).skip_stats == old(self).skip_stats,
    {
        self.pending_writes.push(entry);
        if self.pending_writes.len() >= self.flush_threshold {
            self.flush_pending_writes();
        }
    }

    /// Add or update a directory entry, through the buffer.
    pub fn add_entry(&mut self, entry: DirEntry)
        requires
            old(self).wf(),
        ensures
            final(self).wf(),
            ({
                let staged = old(self).pending_writes@.push(entry);
                if staged.len() >= old(self).flush_threshold {
                    final(self).entries@ == flush_seq(old(self).entries@, staged)
                        && final(self).pending_writes@.len() == 0
                } else {
                    final(self).entries@ == old(self).entries@ && final(self).pending_writes@
                        == staged
                }
            }),
            final(self).last_scan == old(self).last_scan,
            final(self).root == old(self).root,
            final(self).last_scanned_root == old(self).last_scanned_root,
            final(self).usn_state == old(self).usn_state,
            final(self).flush_threshold == old(self).flush_threshold,
            final(self).show_hidden == old(self).show_hidden,
            final(self).skip_stats == old(self).skip_stats,
    {
        self.buffer_entry(entry);
    }

    /// Remove the entry at `path` and every entry below it. The data file is
    /// not compacted by this: it is an in-memory operation.
    #[verifier::loop_isolation(false)]
    pub fn remove_entry(&mut self, path: &[u8])
        requires
            old(self).wf(),
        ensures
            final(self).wf(),
            final(self).entries@ == old(self).entries@.filter(
                |e: DirEntry| !in_subtree(e.path@, path@),
            ),
            final(self).last_scan == old(self).last_scan,
            final(self).root == old(self).root,
            final(self).last_scanned_root == old(self).last_scanned_root,
            final(self).usn_state == old(self).usn_state,
            final(self).pending_writes == old(self).pending_writes,
            final(self).flush_threshold == old(self).flush_threshold,
            final(self).show_hidden == old(self).show_hidden,
            final(self).skip_stats == old(self).skip_stats,
    {
        broadcast use vstd::prelude::Seq::lemma_filter_push;

        let ghost pred = |e: DirEntry| !in_subtree(e.path@, path@);
        let ghost orig = self.entries@;
        let ghost mut consumed: int = 0;
        let mut kept: Vec<DirEntry> = Vec::new();
        while self.entries.len() > 0
            invariant
                0 <= consumed <= orig.len(),
                self.entries@ == orig.skip(consumed),
                kept@ == orig.take(consumed).filter(pred),
                self.last_scan == old(self).last_scan,
                self.root == old(self).root,
                self.last_scanned_root == old(self).last_scanned_root,
                self.usn_state == old(self).usn_state,
                self.pending_writes == old(self).pending_writes,
                self.flush_threshold == old(self).flush_threshold,
                self.show_hidden == old(self).show_hidden,
                self.skip_stats == old(self).skip_stats,
            decreases self.entries@.len(),
        {
            proof {
                assert(orig.skip(consumed).len() > 0);
                assert(consumed < orig.len());
            }
            let e = self.entries.remove(0);
            proof {
                assert(self.entries@ =~= orig.skip(consumed + 1));
                assert(e == orig[consumed]);
                assert(orig.take(consumed + 1) =~= orig.take(consumed).push(orig[consumed]));
            }
            let same = crate::bytestr::bytes_eq(e.path.as_slice(), path);
            let below = if e.path.len() > path.len() {
                crate::bytestr::starts_with(e.path.as_slice(), path) && crate::bytestr::is_separator(
                    e.path[path.len()],
                )
            } else {
                false
            };
            proof {
                if e.path@.len() > path@.len() {
                    assert((path@.len() <= e.path@.len() && e.path@.subrange(
                        0,
                        path@.len() as int,
                    ) == path@) == (e.path@.subrange(0, path@.len() as int) == path@));
                }
                assert((!(same || below)) == pred(e));
            }
            if !(same || below) {
                kept.push(e);
            }
            proof {
                consumed = consumed + 1;
            }
        }
        proof {
            assert(orig.skip(consumed).len() == 0);
            assert(consumed == orig.len());
            assert(orig.take(orig.len() as int) =~= orig);
        }
        self.entries = kept;
        proof {
            lemma_filter_unique(orig, pred);
        }
    }

    /// Set the modification instant of the entry at `path`, when present.
    #[verifier::loop_isolation(false)]
    pub fn update_modified(&mut self, path: &[u8], ts: i64) -> (found: bool)
        requires
            old(self).wf(),
        ensures
            final(self).wf(),
            found == has_path(old(self).entries@, path@),
            found ==> final(self).entries@ == old(self).entries@.update(
                idx_of(old(self).entries@, path@),
                final(self).entries@[idx_of(old(self).entries@, path@)],
            ) && final(self).entries@[idx_of(old(self).entries@, path@)]@ == (EntryModel {
                modified: ts,
                ..entry_at(old(self).entries@, path@)
            }),
            !found ==> final(self).entries@ == old(self).entries@,
            final(self).last_scan == old(self).last_scan,
            final(self).root == old(self).root,
            final(self).last_scanned_root == old(self).last_scanned_root,
            final(self).usn_state == old(self).usn_state,
            final(self).pending_writes == old(self).pending_writes,
            final(self).flush_threshold == old(self).flush_threshold,
            final(self).show_hidden == old(self).show_hidden,
            final(self).skip_stats == old(self).skip_stats,
    {
        let mut i: usize = 0;
        while i < self.entries.len()
            invariant
                0 <= i <= self.entries@.len(),
                self == old(self),
                forall|j: int| 0 <= j < i ==> self.entries@[j].path@ != path@,
            decreases self.entries@.len() - i,
        {
            if crate::bytestr::bytes_eq(self.entries[i].path.as_slice(), path) {
                proof {
                    lemma_idx_of_unique(self.entries@, path@, i as int);
                }
                let mut e = self.entries.remove(i);
                e.modified = ts;
                self.entries.insert(i, e);
                proof {
                    assert(self.entries@ =~= old(self).entries@.update(
                        i as int,
                        self.entries@[i as int],
                    ));
                    assert forall|a: int, b: int|
                        0 <= a < b < self.entries@.len() implies self.entries@[a].path@
                        != self.entries@[b].path@ by {
                        assert(old(self).entries@[a].path@ != old(self).entries@[b].path@);
                    }
                }
                return true;
            }
            i = i + 1;
        }
        false
    }

    /// Append `name` to the children of the entry at `parent`, unless it is
    /// already present or the parent is absent.
    #[verifier::loop_isolation(false)]
    pub fn add_child_name(&mut self, parent: &[u8], name: &[u8])
        requires
            old(self).wf(),
        ensures
            final(self).wf(),
            ({
                let s = old(self).entries@;
                if has_path(s, parent@) && !entry_at(s, parent@).children.contains(name@) {
                    final(self).entries@ == s.update(
                        idx_of(s, parent@),
                        final(self).entries@[idx_of(s, parent@)],
                    ) && final(self).entries@[idx_of(s, parent@)]@ == (EntryModel {
                        children: entry_at(s, parent@).children.push(name@),
                        ..entry_at(s, parent@)
                    })
                } else {
                    final(self).entries@ == s
                }
            }),
            final(self).last_scan == old(self).last_scan,
            final(self).root == old(self).root,
            final(self).last_scanned_root == old(self).last_scanned_root,
            final(self).usn_state == old(self).usn_state,
            final(self).pending_writes == old(self).pending_writes,
            final(self).flush_threshold == old(self).flush_threshold,
            final(self).show_hidden == old(self).show_hidden,
            final(self).skip_stats == old(self).skip_stats,
    {
        let mut i: usize = 0;
        while i < self.entries.len()
            invariant
                0 <= i <= self.entries@.len(),
                self == old(self),
                forall|j: int| 0 <= j < i ==> self.entries@[j].path@ != parent@,
            decreases self.entries@.len() - i,
        {
            if crate::bytestr::bytes_eq(self.entries[i].path.as_slice(), parent) {
                proof {
                    lemma_idx_of_unique(self.entries@, parent@, i as int);
                }
                if self.entries[i].has_child(name) {
                    proof {
                        assert(entry_at(self.entries@, parent@).children.contains(name@)) by {
                            let k = choose|k: int|
                                0 <= k < self.entries@[i as int].children@.len()
                                    && self.entries@[i as int].children@[k]@ == name@;
                            assert(entry_at(self.entries@, parent@).children[k] == name@);
                        };
                    }
                    return ;
                }
                let mut e = self.entries.remove(i);
                let ghost echildren = e.children@;
                e.children.push(crate::bytestr::copy_range(name, 0, name.len()));
                self.entries.insert(i, e);
                proof {
                    assert(name@.subrange(0, name@.len() as int) =~= name@);
                    crate::bytestr::lemma_views_of_push(
                        echildren,
                        self.entries@[i as int].children@.last(),
                    );
                    assert(self.entries@[i as int].children@ =~= echildren.push(
                        self.entries@[i as int].children@.last(),
                    ));
                    assert(self.entries@[i as int]@.children =~= entry_at(
                        old(self).entries@,
                        parent@,
                    ).children.push(name@));
                    assert(self.entries@ =~= old(self).entries@.update(
                        i as int,
                        self.entries@[i as int],
                    ));
                    assert(!entry_at(old(self).entries@, parent@).children.contains(name@)) by {
                        if entry_at(old(self).entries@, parent@).children.contains(name@) {
                            let k = choose|k: int|
                                0 <= k < entry_at(old(self).entries@, parent@).children.len()
                                    && entry_at(old(self).entries@, parent@).children[k] == name@;
                            assert(old(self).entries@[i as int].children@[k]@ == name@);
                        }
                    }
                    assert forall|a: int, b: int|
                        0 <= a < b < self.entries@.len() implies self.entries@[a].path@
                        != self.entries@[b].path@ by {
                        assert(old(self).entries@[a].path@ != old(self).entries@[b].path@);
                    }
                }
                return ;
            }
            i = i + 1;
        }
    }

    /// Remove `name` from the children of the entry at `parent`, when the
    /// parent is present.
    #[verifier::loop_isolation(false)]
    pub fn remove_child_name(&mut self, parent: &[u8], name: &[u8])
        requires
            old(self).wf(),
        ensures
            final(self).wf(),
            ({
                let s = old(self).entries@;
                if has_path(s, parent@) {
                    final(self).entries@ == s.update(
                        idx_of(s, parent@),
                        final(self).entries@[idx_of(s, parent@)],
                    ) && final(self).entries@[idx_of(s, parent@)]@ == (EntryModel {
                        children: without_name(entry_at(s, parent@).children, name@),
                        ..entry_at(s, parent@)
                    })
                } else {
                    final(self).entries@ == s
                }
            }),
            final(self).last_scan == old(self).last_scan,
            final(self).root == old(self).root,
            final(self).last_scanned_root == old(self).last_scanned_root,
            final(self).usn_state == old(self).usn_state,
            final(self).pending_writes == old(self).pending_writes,
            final(self).flush_threshold == old(self).flush_threshold,
            final(self).show_hidden == old(self).show_hidden,
            final(self).skip_stats == old(self).skip_stats,
    {
        broadcast use vstd::prelude::Seq::lemma_filter_push;

        let mut i: usize = 0;
        while i < self.entries.len()
            invariant
                0 <= i <= self.entries@.len(),
                self == old(self),
                forall|j: int| 0 <= j < i ==> self.entries@[j].path@ != parent@,
            decreases self.entries@.len() - i,
        {
            if crate::bytestr::bytes_eq(self.entries[i].path.as_slice(), parent) {
                proof {
                    lemma_idx_of_unique(self.entries@, parent@, i as int);
                }
                let mut e = self.entries.remove(i);
                let mut kept: Vec<Vec<u8>> = Vec::new();
                let ghost cs = e.children@;
                let ghost e0 = e;
                let ghost mut consumed: int = 0;
                while e.children.len() > 0
                    invariant
                        0 <= consumed <= cs.len(),
                        e.path == e0.path,
                        e.name == e0.name,
                        e.modified == e0.modified,
                        e.size == e0.size,
                        e.symlink_target == e0.symlink_target,
                        e.is_hidden == e0.is_hidden,
                        e.children@ == cs.skip(consumed),
                        crate::bytestr::views_of(kept@) == without_name(
                            crate::bytestr::views_of(cs).take(consumed),
                            name@,
                        ),
                    decreases e.children@.len(),
                {
                    proof {
                        assert(cs.skip(consumed).len() > 0);
                    }
                    let c = e.children.remove(0);
                    proof {
                        assert(e.children@ =~= cs.skip(consumed + 1));
                        assert(c == cs[consumed]);
                        assert(crate::bytestr::views_of(cs).take(consumed + 1)
                            =~= crate::bytestr::views_of(cs).take(consumed).push(cs[consumed]@));
                    }
                    if !crate::bytestr::bytes_eq(c.as_slice(), name) {
                        let ghost keptpre = kept@;
                        kept.push(c);
                        proof {
                            crate::bytestr::lemma_views_of_push(keptpre, kept@.last());
                        }
                    }
                    proof {
                        consumed = consumed + 1;
                    }
                }
                proof {
                    assert(crate::bytestr::views_of(cs).take(consumed)
                        =~= crate::bytestr::views_of(cs));
                }
                e.children = kept;
                self.entries.insert(i, e);
                proof {
                    assert(self.entries@ =~= old(self).entries@.update(
                        i as int,
                        self.entries@[i as int],
                    ));
                    assert forall|a: int, b: int|
                        0 <= a < b < self.entries@.len() implies self.entries@[a].path@
                        != self.entries@[b].path@ by {
                        assert(old(self).entries@[a].path@ != old(self).entries@[b].path@);
                    }
                }
                return ;
            }
            i = i + 1;
        }
    }

    /// Count one skipped directory under `name`.
    #[verifier::loop_isolation(false)]
    pub fn record_skip(&mut self, dir_name: &[u8])
        requires
            old(self).wf(),
        ensures
            final(self).wf(),
            final(self).entries == old(self).entries,
            ({
                let s = old(self).skip_stats@;
                if has_stat(s, dir_name@) {
                    final(self).skip_stats@ == s.update(
                        stat_idx(s, dir_name@),
                        final(self).skip_stats@[stat_idx(s, dir_name@)],
                    ) && final(self).skip_stats@[stat_idx(s, dir_name@)].0@ == dir_name@ && final(self).skip_stats@[stat_idx(s, dir_name@)].1 == (if s[stat_idx(s, dir_name@)].1
                        < u64::MAX {
                        s[stat_idx(s, dir_name@)].1 + 1
                    } else {
                        u64::MAX as int
                    })
                } else {
                    final(self).skip_stats@.len() == s.len() + 1 && final(self).skip_stats@.take(
                        s.len() as int,
                    ) == s && final(self).skip_stats@.last().0@ == dir_name@ && final(self).skip_stats@.last().1 == 1
                }
            }),
            stat_count(final(self).skip_stats@, dir_name@) >= 1,
            forall|n: Seq<u8>|
                n != dir_name@ ==> #[trigger] stat_count(final(self).skip_stats@, n)
                    == stat_count(old(self).skip_stats@, n),
            forall|n: Seq<u8>|
                #[trigger] stat_count(final(self).skip_stats@, n) >= stat_count(
                    old(self).skip_stats@,
                    n,
                ),
            final(self).last_scan == old(self).last_scan,
            final(self).root == old(self).root,
            final(self).last_scanned_root == old(self).last_scanned_root,
            final(self).usn_state == old(self).usn_state,
            final(self).pending_writes == old(self).pending_writes,
            final(self).flush_threshold == old(self).flush_threshold,
            final(self).show_hidden == old(self).show_hidden,
    {
        let mut i: usize = 0;
        while i < self.skip_stats.len()
            invariant
                0 <= i <= self.skip_stats@.len(),
                self == old(self),
                forall|j: int| 0 <= j < i ==> self.skip_stats@[j].0@ != dir_name@,
            decreases self.skip_stats@.len() - i,
        {
            if crate::bytestr::bytes_eq(self.skip_stats[i].0.as_slice(), dir_name) {
                proof {
                    lemma_stat_idx_unique(self.skip_stats@, dir_name@, i as int);
                }
                let (n, c) = self.skip_stats.remove(i);
                let bumped = if c < u64::MAX {
                    c + 1
                } else {
                    u64::MAX
                };
                self.skip_stats.insert(i, (n, bumped));
                proof {
                    assert(self.skip_stats@ =~= old(self).skip_stats@.update(
                        i as int,
                        self.skip_stats@[i as int],
                    ));
                    assert forall|a: int, b: int|
                        0 <= a < b < self.skip_stats@.len() implies self.skip_stats@[a].0@
                        != self.skip_stats@[b].0@ by {
                        assert(old(self).skip_stats@[a].0@ != old(self).skip_stats@[b].0@);
                    }
                    lemma_stat_idx_unique(self.skip_stats@, dir_name@, i as int);
                    assert(stat_count(self.skip_stats@, dir_name@) == bumped);
                    assert forall|m: Seq<u8>| m != dir_name@ implies #[trigger] stat_count(
                        self.skip_stats@,
                        m,
                    ) == stat_count(old(self).skip_stats@, m) by {
                        if has_stat(old(self).skip_stats@, m) {
                            let w = stat_idx(old(self).skip_stats@, m);
                            lemma_stat_idx_unique(old(self).skip_stats@, m, w);
                            assert(w != i);
                            assert(self.skip_stats@[w] == old(self).skip_stats@[w]);
                            lemma_stat_idx_unique(self.skip_stats@, m, w);
                        } else {
                            if has_stat(self.skip_stats@, m) {
                                let w = choose|w: int|
                                    0 <= w < self.skip_stats@.len() && self.skip_stats@[w].0@
                                        == m;
                                assert(w != i);
                                assert(old(self).skip_stats@[w].0@ == m);
                            }
                        }
                    }
                }
                return ;
            }
            i = i + 1;
        }
        let owned = crate::bytestr::copy_range(dir_name, 0, dir_name.len());
        proof {
            assert(dir_name@.subrange(0, dir_name@.len() as int) =~= dir_name@);
        }
        self.skip_stats.push((owned, 1));
        proof {
            assert(self.skip_stats@.take(old(self).skip_stats@.len() as int)
                =~= old(self).skip_stats@);
            assert forall|a: int, b: int|
                0 <= a < b < self.skip_stats@.len() implies self.skip_stats@[a].0@
                != self.skip_stats@[b].0@ by {
                if b < self.skip_stats@.len() - 1 {
                    assert(old(self).skip_stats@[a].0@ != old(self).skip_stats@[b].0@);
                }
            }
            lemma_stat_idx_unique(self.skip_stats@, dir_name@, self.skip_stats@.len() - 1);
            assert(stat_count(self.skip_stats@, dir_name@) == 1);
            assert(!has_stat(old(self).skip_stats@, dir_name@));
            assert forall|m: Seq<u8>| m != dir_name@ implies #[trigger] stat_count(
                self.skip_stats@,
                m,
            ) == stat_count(old(self).skip_stats@, m) by {
                if has_stat(old(self).skip_stats@, m) {
                    let w = stat_idx(old(self).skip_stats@, m);
                    lemma_stat_idx_unique(old(self).skip_stats@, m, w);
                    assert(self.skip_stats@[w] == old(self).skip_stats@[w]);
                    lemma_stat_idx_unique(self.skip_stats@, m, w);
                } else {
                    if has_stat(self.skip_stats@, m) {
                        let w = choose|w: int|
                            0 <= w < self.skip_stats@.len() && self.skip_stats@[w].0@ == m;
                        assert(w != self.skip_stats@.len() - 1);
                        assert(old(self).skip_stats@[w].0@ == m);
                    }
                }
            }
        }
    }

    /// A display name: when hidden entries are shown and the entry at `path`
    /// is hidden, the name carries a marker suffix.
    pub fn format_name(&self, name: &[u8], path: &[u8], show_hidden: bool) -> (r: Vec<u8>)
        requires
            self.wf(),
        ensures
            r@ == spec_format_name(self.entries@, name@, path@, show_hidden),
    {
        let mut out = crate::bytestr::copy_range(name, 0, name.len());
        proof {
            assert(name@.subrange(0, name@.len() as int) =~= name@);
        }
        if !show_hidden {
            return out;
        }
        match self.get_entry(path) {
            Some(e) => {
                if e.is_hidden {
                    out.push(32);
                    out.push(91);
                    out.push(72);
                    out.push(93);
                    assert(out@ =~= name@ + seq![32u8, 91u8, 72u8, 93u8]);
                }
                out
            },
            None => out,
        }
    }
}

/// The marker appended to hidden names: `" [H]"`.
pub open spec fn hidden_marker() -> Seq<u8> {
    seq![32u8, 91u8, 72u8, 93u8]
}

/// The display name of `name`: with hidden visibility on, a hidden entry at
/// `path` gets the marker suffix.
pub open spec fn spec_format_name(
    s: Seq<DirEntry>,
    name: Seq<u8>,
    path: Seq<u8>,
    show_hidden: bool,
) -> Seq<u8> {
    if show_hidden && has_path(s, path) && entry_at(s, path).is_hidden {
        name + hidden_marker()
    } else {
        name
    }
}

/// Every element of a filtered sequence is an element of the original.
proof fn lemma_filter_subset(s: Seq<DirEntry>, pred: spec_fn(DirEntry) -> bool)
    ensures
        forall|i: int|
            0 <= i < s.filter(pred).len() ==> s.contains(#[trigger] s.filter(pred)[i]),
    decreases s.len(),
{
    reveal(Seq::filter);
    if s.len() > 0 {
        let t = s.drop_last();
        lemma_filter_subset(t, pred);
        assert forall|i: int|
            0 <= i < s.filter(pred).len() implies s.contains(#[trigger] s.filter(pred)[i]) by {
            if i < t.filter(pred).len() {
                assert(t.contains(t.filter(pred)[i]));
                let j = choose|j: int| 0 <= j < t.len() && t[j] == t.filter(pred)[i];
                assert(s[j] == s.filter(pred)[i]);
            } else {
                assert(s.filter(pred)[i] == s.last());
                assert(s[s.len() - 1] == s.last());
            }
        }
    }
}

/// Filtering keeps paths pairwise distinct.
proof fn lemma_filter_unique(s: Seq<DirEntry>, pred: spec_fn(DirEntry) -> bool)
    requires
        paths_unique(s),
    ensures
        paths_unique(s.filter(pred)),
    decreases s.len(),
{
    reveal(Seq::filter);
    if s.len() > 0 {
        let t = s.drop_last();
        assert(paths_unique(t)) by {
            assert(forall|i: int| 0 <= i < t.len() ==> t[i] == s[i]);
        }
        lemma_filter_unique(t, pred);
        lemma_filter_subset(t, pred);
        if pred(s.last()) {
            assert(s.filter(pred) == t.filter(pred).push(s.last()));
            assert forall|a: int, b: int|
                0 <= a < b < s.filter(pred).len() implies s.filter(pred)[a].path@ != s.filter(
                pred,
            )[b].path@ by {
                if b < s.filter(pred).len() - 1 {
                    assert(s.filter(pred)[a] == t.filter(pred)[a]);
                    assert(s.filter(pred)[b] == t.filter(pred)[b]);
                } else {
                    assert(s.filter(pred)[b] == s.last());
                    assert(s.filter(pred)[a] == t.filter(pred)[a]);
                    assert(t.contains(t.filter(pred)[a]));
                    let j = choose|j: int| 0 <= j < t.len() && t[j] == t.filter(pred)[a];
                    assert(s[j].path@ != s[s.len() - 1].path@);
                }
            }
        } else {
            assert(s.filter(pred) == t.filter(pred));
        }
    }
}

} // verus!
