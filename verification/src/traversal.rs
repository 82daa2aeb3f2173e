//! The traversal engine: explore the subtree under a root and record one
//! entry per directory.
//!
//! The engine works over a snapshot of directory listings — the caller
//! enumerates the filesystem and hands in what it saw. Discovery is a
//! work queue seeded with the root: each pop records an entry whose children
//! are the listing's names, skip-filtered and sorted, and enqueues the
//! subdirectories that the snapshot knows. A freshness gate skips the whole
//! scan while the cache is young enough, unless the caller forces it.

use vstd::prelude::*;
use crate::cache::{DiskCache, has_path, entry_at, idx_of, insert_entry_seq};
use crate::entry::{DirEntry, EntryModel};
use crate::bytestr::{
    views_of, eq_ignore_case, sort_views, spec_basename, spec_join, sorted_copy, clone_bytes,
    bytes_eq,
};

verus! {

/// The age above which a cache is stale, in seconds.
pub const CACHE_TTL_SECONDS: i64 = 3600;

/// A scan fails only when the requested root is not there.
#[derive(Debug)]
pub enum TraverseError {
    RootMissing,
}

/// One name seen inside a directory listing.
#[derive(Clone)]
pub struct FsChild {
    pub name: Vec<u8>,
    pub is_dir: bool,
    pub is_symlink: bool,
}

/// One directory listing: the directory's own metadata and what it holds.
#[derive(Clone)]
pub struct FsDir {
    pub path: Vec<u8>,
    pub is_hidden: bool,
    pub symlink_target: Option<Vec<u8>>,
    pub children: Vec<FsChild>,
}

/// What an enumeration of a subtree saw: one listing per readable
/// directory. A directory listed in its parent but absent here was
/// unreadable and gets no entry.
pub struct FsSnapshot {
    pub dirs: Vec<FsDir>,
}

pub open spec fn fs_has(dirs: Seq<FsDir>, p: Seq<u8>) -> bool {
    exists|i: int| 0 <= i < dirs.len() && dirs[i].path@ == p
}

pub open spec fn fs_at(dirs: Seq<FsDir>, p: Seq<u8>) -> int {
    choose|i: int| 0 <= i < dirs.len() && dirs[i].path@ == p
}

pub open spec fn fs_unique(dirs: Seq<FsDir>) -> bool {
    forall|i: int, j: int| 0 <= i < j < dirs.len() ==> dirs[i].path@ != dirs[j].path@
}

impl FsSnapshot {
    /// Listings carry pairwise distinct paths.
    pub open spec fn wf(self) -> bool {
        fs_unique(self.dirs@)
    }
}

/// A name the traversal refuses to enter: it equals a skip-set name under
/// ASCII-case-insensitive comparison.
pub open spec fn spec_should_skip(name: Seq<u8>, skip: Seq<Seq<u8>>) -> bool {
    exists|i: int| 0 <= i < skip.len() && eq_ignore_case(name, skip[i])
}

/// Whether `name` is in the skip set, compared case-insensitively.
pub fn should_skip(name: &[u8], skip_dirs: &Vec<Vec<u8>>) -> (r: bool)
    ensures
        r == spec_should_skip(name@, views_of(skip_dirs@)),
{
    let mut i: usize = 0;
    while i < skip_dirs.len()
        invariant
            0 <= i <= skip_dirs@.len(),
            forall|j: int| 0 <= j < i ==> !eq_ignore_case(name@, views_of(skip_dirs@)[j]),
        decreases skip_dirs@.len() - i,
    {
        if crate::bytestr::bytes_eq_ignore_case(name, skip_dirs[i].as_slice()) {
            proof {
                assert(eq_ignore_case(name@, views_of(skip_dirs@)[i as int]));
            }
            return true;
        }
        i = i + 1;
    }
    false
}

/// The names a listing keeps: every child name not refused by the skip set,
/// in listing order.
pub open spec fn kept_names(d: FsDir, skip: Seq<Seq<u8>>) -> Seq<Seq<u8>> {
    d.children@.map_values(|c: FsChild| c.name@).filter(
        |n: Seq<u8>| !spec_should_skip(n, skip),
    )
}

/// The entry a scan at instant `now` records for the directory at `p`: its
/// children are the kept names in ascending order, its metadata comes from
/// the listing, its size is reserved as zero.
pub open spec fn scan_entry_ok(
    dirs: Seq<FsDir>,
    skip: Seq<Seq<u8>>,
    m: EntryModel,
    now: i64,
) -> bool {
    &&& fs_has(dirs, m.path)
    &&& {
        let d = dirs[fs_at(dirs, m.path)];
        &&& m.name == spec_basename(m.path)
        &&& m.modified == now
        &&& m.size == 0
        &&& m.children == sort_views(kept_names(d, skip))
        &&& m.symlink_target == (match d.symlink_target {
            Some(t) => Some(t@),
            None => None::<Seq<u8>>,
        })
        &&& m.is_hidden == d.is_hidden
    }
}

/// What a completed scan guarantees: the scan instant is recorded, the root
/// has a fresh entry, and every entry either survives unchanged from the
/// previous run or describes a listing of the snapshot.
pub open spec fn full_scan_post(
    oldc: DiskCache,
    newc: DiskCache,
    dirs: Seq<FsDir>,
    skip: Seq<Seq<u8>>,
    root: Seq<u8>,
    now: i64,
) -> bool {
    &&& newc.last_scan == now
    &&& newc.last_scanned_root@ == root
    &&& has_path(newc.entries@, root)
    &&& forall|i: int|
        0 <= i < newc.entries@.len() ==> {
            let m = (#[trigger] newc.entries@[i])@;
            (has_path(oldc.entries@, m.path) && m == entry_at(oldc.entries@, m.path))
                || scan_entry_ok(dirs, skip, m, now)
        }
    &&& scan_entry_ok(dirs, skip, entry_at(newc.entries@, root), now)
    &&& (forall|p: Seq<u8>|
        #[trigger] reachable(dirs, skip, root, p) ==> has_path(newc.entries@, p))
    &&& (oldc.entries@.len() == 0 ==> forall|p: Seq<u8>|
        #[trigger] has_path(newc.entries@, p) ==> reachable(dirs, skip, root, p))
    &&& scan_skips_counted(oldc, newc, dirs, skip)
}

/// Every name the scan refused under a newly recorded directory is counted:
/// a directory whose entry is new to the cache was enumerated by this run,
/// so each of its skip-matched child names has a positive skip statistic.
pub open spec fn scan_skips_counted(
    oldc: DiskCache,
    newc: DiskCache,
    dirs: Seq<FsDir>,
    skip: Seq<Seq<u8>>,
) -> bool {
    forall|i: int, j: int|
        (0 <= i < newc.entries@.len() && !has_path(oldc.entries@, newc.entries@[i].path@) && 0
            <= j < dirs[fs_at(dirs, newc.entries@[i].path@)].children@.len()
            && spec_should_skip(
            #[trigger] dirs[fs_at(dirs, newc.entries@[i].path@)].children@[j].name@,
            skip,
        )) ==> crate::cache::stat_count(
            newc.skip_stats@,
            dirs[fs_at(dirs, newc.entries@[i].path@)].children@[j].name@,
        ) >= 1
}

/// The shared state of one traversal run: the queue of pending directories,
/// the set being processed, and the skip set.
pub struct TraversalState {
    pub work_queue: Vec<Vec<u8>>,
    pub in_progress: Vec<Vec<u8>>,
    pub skip_dirs: Vec<Vec<u8>>,
}

/// The cache is within its time-to-live: a scan may be skipped.
pub open spec fn cache_fresh(now: i64, last_scan: i64, ttl: i64) -> bool {
    last_scan <= now && now - last_scan < ttl
}

/// Whether `now` is within `ttl` of `last_scan`.
pub fn is_fresh(now: i64, last_scan: i64, ttl: i64) -> (r: bool)
    ensures
        r == cache_fresh(now, last_scan, ttl),
{
    last_scan <= now && (now as i128) - (last_scan as i128) < (ttl as i128)
}

/// Traverse the subtree under `root` as the snapshot saw it, and record one
/// entry per readable directory reachable under the skip policy.
///
/// The scan fails only when the snapshot has no listing for the root. With
/// a fresh, non-empty cache and no `force`, the scan is skipped. After a
/// scan every recorded entry either survives from the previous run or
/// describes a listing: children skip-filtered, ascending, metadata from
/// the snapshot, `modified` stamped with `now`; the root's entry is always
/// recorded anew.
#[verifier::loop_isolation(false)]
#[verifier::rlimit(60)]
pub fn traverse_disk(
    cache: &mut DiskCache,
    root: &[u8],
    snapshot: &FsSnapshot,
    skip_dirs: &Vec<Vec<u8>>,
    force: bool,
    now: i64,
) -> (r: Result<(), TraverseError>)
    requires
        old(cache).wf(),
        snapshot.wf(),
    ensures
        final(cache).wf(),
        match r {
            Err(_) => !fs_has(snapshot.dirs@, root@) && *final(cache) == *old(cache),
            Ok(_) => {
                &&& fs_has(snapshot.dirs@, root@)
                &&& final(cache).root@ == root@
                &&& final(cache).usn_state == old(cache).usn_state
                &&& final(cache).pending_writes == old(cache).pending_writes
                &&& final(cache).flush_threshold == old(cache).flush_threshold
                &&& final(cache).show_hidden == old(cache).show_hidden
                &&& if !force && cache_fresh(now, old(cache).last_scan, CACHE_TTL_SECONDS) && old(
                    cache,
                ).entries@.len() > 0 {
                    final(cache).entries@ == old(cache).entries@ && final(cache).last_scan == old(
                        cache,
                    ).last_scan && final(cache).last_scanned_root == old(cache).last_scanned_root
                        && final(cache).skip_stats == old(cache).skip_stats
                } else {
                    full_scan_post(
                        *old(cache),
                        *final(cache),
                        snapshot.dirs@,
                        views_of(skip_dirs@),
                        root@,
                        now,
                    )
                }
            },
        },
{
    broadcast use vstd::prelude::Seq::lemma_filter_push;

    let root_listed = fs_lookup(snapshot, root);
    let have_root = match root_listed {
        Some(_) => true,
        None => false,
    };
    if !have_root {
        return Err(TraverseError::RootMissing);
    }
    cache.root = crate::bytestr::copy_range(root, 0, root.len());
    proof {
        assert(root@.subrange(0, root@.len() as int) =~= root@);
    }

    if !force && is_fresh(now, cache.last_scan, CACHE_TTL_SECONDS) && cache.entries.len() > 0 {
        return Ok(());
    }

    let mut queue: Vec<Vec<u8>> = Vec::new();
    queue.push(crate::bytestr::copy_range(root, 0, root.len()));
    proof {
        assert(queue@[0]@ == root@.subrange(0, root@.len() as int));
        assert(root@.subrange(0, root@.len() as int) =~= root@);
        assert(reaches(snapshot.dirs@, views_of(skip_dirs@), root@, root@, 0));
    }
    let mut visited: Vec<Vec<u8>> = Vec::new();
    let ghost skip = views_of(skip_dirs@);
    let ghost dirs = snapshot.dirs@;

    while queue.len() > 0
        invariant
            cache.wf(),
            cache.root@ == root@,
            cache.last_scanned_root == old(cache).last_scanned_root,
            cache.pending_writes == old(cache).pending_writes,
            cache.usn_state == old(cache).usn_state,
            cache.last_scan == old(cache).last_scan,
            cache.flush_threshold == old(cache).flush_threshold,
            cache.show_hidden == old(cache).show_hidden,
            forall|i: int, j: int|
                0 <= i < j < visited@.len() ==> visited@[i]@ != visited@[j]@,
            forall|i: int|
                0 <= i < visited@.len() ==> fs_has(snapshot.dirs@, #[trigger] visited@[i]@),
            visited@.len() <= snapshot.dirs@.len(),
            forall|i: int|
                0 <= i < queue@.len() ==> fs_has(snapshot.dirs@, #[trigger] queue@[i]@),
            forall|i: int|
                0 <= i < cache.entries@.len() ==> {
                    let m = (#[trigger] cache.entries@[i])@;
                    (has_path(old(cache).entries@, m.path) && m == entry_at(
                        old(cache).entries@,
                        m.path,
                    )) || scan_entry_ok(snapshot.dirs@, skip, m, now)
                },
            (exists|i: int| 0 <= i < visited@.len() && visited@[i]@ == root@) || (exists|i: int|
                0 <= i < queue@.len() && queue@[i]@ == root@),
            forall|i: int|
                0 <= i < queue@.len() ==> reachable(dirs, skip, root@, #[trigger] queue@[i]@),
            forall|i: int|
                0 <= i < visited@.len() ==> reachable(dirs, skip, root@, #[trigger] visited@[i]@),
            forall|i: int, j: int|
                0 <= i < visited@.len() && #[trigger] step_edge(dirs, skip, visited@[i]@, j)
                    ==> in_paths(visited@, edge_target(dirs, visited@[i]@, j)) || in_paths(
                    queue@,
                    edge_target(dirs, visited@[i]@, j),
                ),
            forall|i: int|
                0 <= i < cache.entries@.len() ==> has_path(
                    old(cache).entries@,
                    (#[trigger] cache.entries@[i]).path@,
                ) || in_paths(visited@, cache.entries@[i].path@),
            forall|v: int, j: int|
                0 <= v < visited@.len() && 0 <= j < dirs[fs_at(
                    dirs,
                    visited@[v]@,
                )].children@.len() && spec_should_skip(
                    #[trigger] dirs[fs_at(dirs, visited@[v]@)].children@[j].name@,
                    skip,
                ) ==> crate::cache::stat_count(
                    cache.skip_stats@,
                    dirs[fs_at(dirs, visited@[v]@)].children@[j].name@,
                ) >= 1,
            forall|i: int|
                0 <= i < visited@.len() ==> has_path(cache.entries@, #[trigger] visited@[i]@)
                    && scan_entry_ok(
                    snapshot.dirs@,
                    skip,
                    entry_at(cache.entries@, visited@[i]@),
                    now,
                ),
        decreases snapshot.dirs@.len() - visited@.len(), queue@.len(),
    {
        let ghost oldq = queue@;
        let ghost old_visited = visited@;
        let path = queue.remove(0);
        proof {
            if path@ != root@ && !(exists|i: int|
                0 <= i < visited@.len() && visited@[i]@ == root@) {
                let w = choose|i: int| 0 <= i < oldq.len() && oldq[i]@ == root@;
                assert(w != 0);
                assert(queue@[w - 1]@ == root@);
            }
            assert(reachable(dirs, skip, root@, path@)) by {
                assert(oldq[0]@ == path@);
            }
        }
        let mut seen = false;
        let mut k: usize = 0;
        while k < visited.len()
            invariant
                0 <= k <= visited@.len(),
                seen == (exists|j: int| 0 <= j < k && visited@[j]@ == path@),
            decreases visited@.len() - k,
        {
            if bytes_eq(visited[k].as_slice(), path.as_slice()) {
                seen = true;
            }
            k = k + 1;
        }
        if seen {
            proof {
                assert forall|i: int, j: int|
                    0 <= i < visited@.len() && #[trigger] step_edge(
                        dirs,
                        skip,
                        visited@[i]@,
                        j,
                    ) implies in_paths(visited@, edge_target(dirs, visited@[i]@, j)) || in_paths(
                    queue@,
                    edge_target(dirs, visited@[i]@, j),
                ) by {
                    let t = edge_target(dirs, visited@[i]@, j);
                    if !in_paths(visited@, t) {
                        let w = choose|w: int| 0 <= w < oldq.len() && oldq[w]@ == t;
                        if w == 0 {
                            assert(t == path@);
                        } else {
                            assert(queue@[w - 1]@ == t);
                        }
                    }
                }
            }
            continue ;
        }
        let listing = match fs_lookup(snapshot, path.as_slice()) {
            Some(d) => d,
            None => {
                proof {
                    assert(fs_has(snapshot.dirs@, path@));
                    assert(false);
                }
                continue ;
            },
        };
        // Collect the kept child names and enqueue known subdirectories.
        let mut names: Vec<Vec<u8>> = Vec::new();
        let mut c: usize = 0;
        let ghost pre_queue = queue@;
        let ghost cache0 = *cache;
        while c < listing.children.len()
            invariant
                0 <= c <= listing.children@.len(),
                views_of(names@) == listing.children@.take(c as int).map_values(
                    |ch: FsChild| ch.name@,
                ).filter(|n: Seq<u8>| !spec_should_skip(n, skip)),
                forall|i: int|
                    0 <= i < queue@.len() ==> fs_has(snapshot.dirs@, #[trigger] queue@[i]@),
                forall|i: int|
                    0 <= i < queue@.len() ==> reachable(dirs, skip, root@, #[trigger] queue@[i]@),
                forall|j: int|
                    0 <= j < c && #[trigger] step_edge(dirs, skip, path@, j) ==> in_paths(
                        queue@,
                        edge_target(dirs, path@, j),
                    ),
                forall|j: int|
                    0 <= j < c && spec_should_skip(
                        #[trigger] listing.children@[j].name@,
                        skip,
                    ) ==> crate::cache::stat_count(
                        cache.skip_stats@,
                        listing.children@[j].name@,
                    ) >= 1,
                forall|n: Seq<u8>|
                    #[trigger] crate::cache::stat_count(cache.skip_stats@, n)
                        >= crate::cache::stat_count(cache0.skip_stats@, n),
                queue@.len() >= pre_queue.len(),
                forall|i: int| 0 <= i < pre_queue.len() ==> queue@[i] == pre_queue[i],
                cache.wf(),
                cache.entries == cache0.entries,
                cache.root == cache0.root,
                cache.last_scan == cache0.last_scan,
                cache.last_scanned_root == cache0.last_scanned_root,
                cache.pending_writes == cache0.pending_writes,
                cache.usn_state == cache0.usn_state,
                cache.flush_threshold == cache0.flush_threshold,
                cache.show_hidden == cache0.show_hidden,
            decreases listing.children@.len() - c,
        {
            proof {
                assert(listing.children@.take(c + 1 as int).map_values(|ch: FsChild| ch.name@)
                    =~= listing.children@.take(c as int).map_values(
                    |ch: FsChild| ch.name@,
                ).push(listing.children@[c as int].name@));
            }
            let child = &listing.children[c];
            if should_skip(child.name.as_slice(), skip_dirs) {
                cache.record_skip(child.name.as_slice());
                proof {
                    assert(!step_edge(dirs, skip, path@, c as int));
                }
                c = c + 1;
                continue ;
            }
            let ghost pre_names = names@;
            names.push(clone_bytes(&child.name));
            proof {
                crate::bytestr::lemma_views_of_push(pre_names, names@.last());
            }
            if child.is_dir && !child.is_symlink {
                let child_path = crate::bytestr::join_path(path.as_slice(), child.name.as_slice());
                let known = match fs_lookup(snapshot, child_path.as_slice()) {
                    Some(_) => true,
                    None => false,
                };
                if known {
                    let ghost qpre = queue@;
                    queue.push(child_path);
                    proof {
                        assert(*listing == dirs[fs_at(dirs, path@)]);
                        assert(step_edge(dirs, skip, path@, c as int));
                        let n = choose|n: nat| reaches(dirs, skip, root@, path@, n);
                        lemma_reaches_extend(dirs, skip, root@, path@, n, c as int);
                        assert(queue@.last()@ == edge_target(dirs, path@, c as int));
                        assert(reachable(dirs, skip, root@, queue@.last()@));
                        assert forall|j: int|
                            0 <= j < c + 1 && #[trigger] step_edge(
                                dirs,
                                skip,
                                path@,
                                j,
                            ) implies in_paths(queue@, edge_target(dirs, path@, j)) by {
                            if j < c {
                                let w = choose|w: int|
                                    0 <= w < qpre.len() && qpre[w]@ == edge_target(
                                        dirs,
                                        path@,
                                        j,
                                    );
                                assert(queue@[w]@ == edge_target(dirs, path@, j));
                            } else {
                                assert(queue@[queue@.len() - 1]@ == edge_target(dirs, path@, j));
                            }
                        }
                    }
                } else {
                    proof {
                        assert(!step_edge(dirs, skip, path@, c as int));
                    }
                }
            } else {
                proof {
                    assert(!step_edge(dirs, skip, path@, c as int));
                }
            }
            c = c + 1;
        }
        proof {
            assert(listing.children@.take(listing.children@.len() as int)
                =~= listing.children@);
        }
        let sorted_children = sorted_copy(&names);
        let (_, name) = crate::bytestr::split_path(path.as_slice());
        let symlink_target = match &listing.symlink_target {
            Some(t) => Some(clone_bytes(t)),
            None => None,
        };
        let entry = DirEntry {
            path: clone_bytes(&path),
            name,
            modified: now,
            size: 0,
            children: sorted_children,
            symlink_target,
            is_hidden: listing.is_hidden,
        };
        proof {
            assert(scan_entry_ok(snapshot.dirs@, skip, entry@, now)) by {
                assert(entry@.symlink_target == (match listing.symlink_target {
                    Some(t) => Some(t@),
                    None => None::<Seq<u8>>,
                }));
            }
        }
        let ghost pre_entries = cache.entries@;
        let ghost ge = entry;
        cache.insert_entry(entry);
        let ghost pre_visited = visited@;
        visited.push(path);
        proof {
            if path@ == root@ {
                assert(visited@.last()@ == root@);
                assert(visited@[visited@.len() - 1]@ == root@);
            } else {
                if exists|i: int| 0 <= i < old_visited.len() && old_visited[i]@ == root@ {
                    let w = choose|i: int| 0 <= i < old_visited.len() && old_visited[i]@ == root@;
                    assert(visited@[w]@ == root@);
                } else {
                    let w = choose|i: int| 0 <= i < oldq.len() && oldq[i]@ == root@;
                    assert(queue@[w - 1]@ == root@);
                }
            }
            lemma_visited_grow(snapshot.dirs@, pre_visited, visited@.last()@);
            assert forall|i: int|
                0 <= i < visited@.len() implies has_path(
                cache.entries@,
                #[trigger] visited@[i]@,
            ) && scan_entry_ok(snapshot.dirs@, skip, entry_at(cache.entries@, visited@[i]@), now)
                by {
                if i < visited@.len() - 1 {
                    assert(visited@[i] == pre_visited[i]);
                    assert(ge.path@ != visited@[i]@);
                    lemma_insert_preserves_lookup(pre_entries, ge, visited@[i]@);
                } else {
                    lemma_insert_finds_inserted(pre_entries, ge);
                }
            }
            assert forall|i: int, j: int|
                0 <= i < visited@.len() && #[trigger] step_edge(
                    dirs,
                    skip,
                    visited@[i]@,
                    j,
                ) implies in_paths(visited@, edge_target(dirs, visited@[i]@, j)) || in_paths(
                queue@,
                edge_target(dirs, visited@[i]@, j),
            ) by {
                let t = edge_target(dirs, visited@[i]@, j);
                if i == visited@.len() - 1 {
                    assert(visited@[i]@ == path@);
                    assert(in_paths(queue@, t));
                } else {
                    assert(visited@[i] == pre_visited[i]);
                    if in_paths(pre_visited, t) {
                        let w = choose|w: int| 0 <= w < pre_visited.len() && pre_visited[w]@ == t;
                        assert(visited@[w]@ == t);
                    } else {
                        let w = choose|w: int| 0 <= w < oldq.len() && oldq[w]@ == t;
                        if w == 0 {
                            assert(t == path@);
                            assert(visited@[visited@.len() - 1]@ == t);
                        } else {
                            assert(w - 1 < pre_queue.len());
                            assert(pre_queue[w - 1] == oldq[w]);
                            assert(queue@[w - 1] == pre_queue[w - 1]);
                            assert(queue@[w - 1]@ == t);
                        }
                    }
                }
            }
            assert forall|i: int| 0 <= i < cache.entries@.len() implies has_path(
                old(cache).entries@,
                (#[trigger] cache.entries@[i]).path@,
            ) || in_paths(visited@, cache.entries@[i].path@) by {
                if has_path(pre_entries, ge.path@) {
                    assert(cache.entries@ == pre_entries.update(
                        crate::cache::idx_of(pre_entries, ge.path@),
                        ge,
                    ));
                    if i == crate::cache::idx_of(pre_entries, ge.path@) {
                        assert(visited@[visited@.len() - 1]@ == ge.path@);
                    } else {
                        assert(cache.entries@[i] == pre_entries[i]);
                        if !has_path(old(cache).entries@, pre_entries[i].path@) {
                            let w = choose|w: int|
                                0 <= w < pre_visited.len() && pre_visited[w]@
                                    == pre_entries[i].path@;
                            assert(visited@[w]@ == cache.entries@[i].path@);
                        }
                    }
                } else {
                    if i == cache.entries@.len() - 1 {
                        assert(cache.entries@[i] == ge);
                        assert(visited@[visited@.len() - 1]@ == ge.path@);
                    } else {
                        assert(cache.entries@[i] == pre_entries[i]);
                        if !has_path(old(cache).entries@, pre_entries[i].path@) {
                            let w = choose|w: int|
                                0 <= w < pre_visited.len() && pre_visited[w]@
                                    == pre_entries[i].path@;
                            assert(visited@[w]@ == cache.entries@[i].path@);
                        }
                    }
                }
            }
            assert forall|v: int, j: int|
                0 <= v < visited@.len() && 0 <= j < dirs[fs_at(
                    dirs,
                    visited@[v]@,
                )].children@.len() && spec_should_skip(
                    #[trigger] dirs[fs_at(dirs, visited@[v]@)].children@[j].name@,
                    skip,
                ) implies crate::cache::stat_count(
                cache.skip_stats@,
                dirs[fs_at(dirs, visited@[v]@)].children@[j].name@,
            ) >= 1 by {
                if v == visited@.len() - 1 {
                    assert(visited@[v]@ == path@);
                    assert(dirs[fs_at(dirs, path@)] == *listing);
                } else {
                    assert(visited@[v] == pre_visited[v]);
                }
            }
        }
    }
    proof {
        let ri = choose|i: int| 0 <= i < visited@.len() && visited@[i]@ == root@;
        assert forall|p: Seq<u8>| #[trigger] reachable(dirs, skip, root@, p) implies has_path(
            cache.entries@,
            p,
        ) by {
            let n = choose|n: nat| reaches(dirs, skip, root@, p, n);
            assert forall|i: int, j: int|
                0 <= i < visited@.len() && #[trigger] step_edge(
                    dirs,
                    skip,
                    visited@[i]@,
                    j,
                ) implies in_paths(visited@, edge_target(dirs, visited@[i]@, j)) by {}
            assert(in_paths(visited@, root@));
            lemma_reachable_closed(dirs, skip, visited@, root@, p, n);
            let w = choose|w: int| 0 <= w < visited@.len() && visited@[w]@ == p;
        }
        if old(cache).entries@.len() == 0 {
            assert forall|p: Seq<u8>| #[trigger] has_path(cache.entries@, p) implies reachable(
                dirs,
                skip,
                root@,
                p,
            ) by {
                let i = choose|i: int|
                    0 <= i < cache.entries@.len() && cache.entries@[i].path@ == p;
                assert(!has_path(old(cache).entries@, cache.entries@[i].path@));
                let w = choose|w: int|
                    0 <= w < visited@.len() && visited@[w]@ == cache.entries@[i].path@;
            }
        }
        assert forall|i: int, j: int|
            (0 <= i < cache.entries@.len() && !has_path(
                old(cache).entries@,
                cache.entries@[i].path@,
            ) && 0 <= j < dirs[fs_at(dirs, cache.entries@[i].path@)].children@.len()
                && spec_should_skip(
                #[trigger] dirs[fs_at(dirs, cache.entries@[i].path@)].children@[j].name@,
                skip,
            )) implies crate::cache::stat_count(
            cache.skip_stats@,
            dirs[fs_at(dirs, cache.entries@[i].path@)].children@[j].name@,
        ) >= 1 by {
            let p = cache.entries@[i].path@;
            let w = choose|w: int| 0 <= w < visited@.len() && visited@[w]@ == p;
            assert(dirs[fs_at(dirs, visited@[w]@)].children@[j].name@ == dirs[fs_at(
                dirs,
                p,
            )].children@[j].name@);
        }
    }
    cache.last_scan = now;
    cache.last_scanned_root = crate::bytestr::copy_range(root, 0, root.len());
    proof {
        assert(root@.subrange(0, root@.len() as int) =~= root@);
        let ri = choose|i: int| 0 <= i < visited@.len() && visited@[i]@ == root@;
    }
    Ok(())
}

/// Look the listing of `p` up in the snapshot.
#[verifier::loop_isolation(false)]
fn fs_lookup<'a>(snapshot: &'a FsSnapshot, p: &[u8]) -> (r: Option<&'a FsDir>)
    requires
        snapshot.wf(),
    ensures
        match r {
            Some(d) => fs_has(snapshot.dirs@, p@) && *d == snapshot.dirs@[fs_at(
                snapshot.dirs@,
                p@,
            )] && d.path@ == p@,
            None => !fs_has(snapshot.dirs@, p@),
        },
{
    let mut i: usize = 0;
    while i < snapshot.dirs.len()
        invariant
            0 <= i <= snapshot.dirs@.len(),
            forall|j: int| 0 <= j < i ==> snapshot.dirs@[j].path@ != p@,
        decreases snapshot.dirs@.len() - i,
    {
        if bytes_eq(snapshot.dirs[i].path.as_slice(), p) {
            proof {
                lemma_fs_at_unique(snapshot.dirs@, p@, i as int);
            }
            return Some(&snapshot.dirs[i]);
        }
        i = i + 1;
    }
    None
}

pub proof fn lemma_fs_at_unique(dirs: Seq<FsDir>, p: Seq<u8>, i: int)
    requires
        fs_unique(dirs),
        0 <= i < dirs.len(),
        dirs[i].path@ == p,
    ensures
        fs_at(dirs, p) == i,
        fs_has(dirs, p),
{
    assert(fs_has(dirs, p));
    let k = fs_at(dirs, p);
    if k != i {
        if k < i {
            assert(dirs[k].path@ != dirs[i].path@);
        } else {
            assert(dirs[i].path@ != dirs[k].path@);
        }
    }
}

/// A set of distinct snapshot paths cannot outnumber the snapshot.
proof fn lemma_visited_grow(dirs: Seq<FsDir>, visited: Seq<Vec<u8>>, added: Seq<u8>)
    requires
        forall|i: int, j: int| 0 <= i < j < visited.len() ==> visited[i]@ != visited[j]@,
        forall|i: int| 0 <= i < visited.len() ==> fs_has(dirs, #[trigger] visited[i]@),
        forall|i: int| 0 <= i < visited.len() ==> visited[i]@ != added,
        fs_has(dirs, added),
        fs_unique(dirs),
    ensures
        visited.len() < dirs.len(),
{
    lemma_distinct_paths_bound(dirs, views_of_paths(visited).push(added));
}

spec fn views_of_paths(s: Seq<Vec<u8>>) -> Seq<Seq<u8>> {
    s.map_values(|v: Vec<u8>| v@)
}

/// Pairwise-distinct paths, each carried by some listing, number at most
/// the listings.
proof fn lemma_distinct_paths_bound(dirs: Seq<FsDir>, paths: Seq<Seq<u8>>)
    requires
        forall|i: int, j: int| 0 <= i < j < paths.len() ==> paths[i] != paths[j],
        forall|i: int| 0 <= i < paths.len() ==> fs_has(dirs, #[trigger] paths[i]),
        fs_unique(dirs),
    ensures
        paths.len() <= dirs.len(),
    decreases dirs.len(),
{
    if paths.len() > dirs.len() {
        if dirs.len() == 0 {
            assert(fs_has(dirs, paths[0]));
            assert(false);
        } else {
            // Remove the listing that carries the last path, and the path
            // with it; every remaining path still has a listing.
            let p = paths.last();
            let k = choose|k: int| 0 <= k < dirs.len() && dirs[k].path@ == p;
            let dirs2 = dirs.remove(k);
            let paths2 = paths.drop_last();
            assert(fs_unique(dirs2)) by {
                assert forall|a: int, b: int|
                    0 <= a < b < dirs2.len() implies dirs2[a].path@ != dirs2[b].path@ by {
                    let a0 = if a < k {
                        a
                    } else {
                        a + 1
                    };
                    let b0 = if b < k {
                        b
                    } else {
                        b + 1
                    };
                    assert(dirs2[a] == dirs[a0]);
                    assert(dirs2[b] == dirs[b0]);
                }
            }
            assert forall|i: int| 0 <= i < paths2.len() implies fs_has(
                dirs2,
                #[trigger] paths2[i],
            ) by {
                assert(fs_has(dirs, paths[i]));
                let w = choose|w: int| 0 <= w < dirs.len() && dirs[w].path@ == paths[i];
                assert(paths[i] != p);
                assert(w != k);
                if w < k {
                    assert(dirs2[w] == dirs[w]);
                } else {
                    assert(dirs2[w - 1] == dirs[w]);
                }
            }
            lemma_distinct_paths_bound(dirs2, paths2);
        }
    }
}

/// The child at position `j` of the listing of `from` is one the traversal
/// descends into: a directory, not a symlink, not skipped, and listed.
pub open spec fn step_edge(
    dirs: Seq<FsDir>,
    skip: Seq<Seq<u8>>,
    from: Seq<u8>,
    j: int,
) -> bool {
    &&& fs_has(dirs, from)
    &&& 0 <= j < dirs[fs_at(dirs, from)].children@.len()
    &&& dirs[fs_at(dirs, from)].children@[j].is_dir
    &&& !dirs[fs_at(dirs, from)].children@[j].is_symlink
    &&& !spec_should_skip(dirs[fs_at(dirs, from)].children@[j].name@, skip)
    &&& fs_has(dirs, spec_join(from, dirs[fs_at(dirs, from)].children@[j].name@))
}

/// The path below a step edge.
pub open spec fn edge_target(dirs: Seq<FsDir>, from: Seq<u8>, j: int) -> Seq<u8> {
    spec_join(from, dirs[fs_at(dirs, from)].children@[j].name@)
}

/// `to` lies at most `n` step edges below `from`, every station listed.
pub open spec fn reaches(
    dirs: Seq<FsDir>,
    skip: Seq<Seq<u8>>,
    from: Seq<u8>,
    to: Seq<u8>,
    n: nat,
) -> bool
    decreases n,
{
    if from == to {
        fs_has(dirs, to)
    } else if n == 0 {
        false
    } else {
        exists|j: int|
            #[trigger] step_edge(dirs, skip, from, j) && reaches(
                dirs,
                skip,
                edge_target(dirs, from, j),
                to,
                (n - 1) as nat,
            )
    }
}

/// `to` is reachable from `from` under the skip policy.
pub open spec fn reachable(dirs: Seq<FsDir>, skip: Seq<Seq<u8>>, from: Seq<u8>, to: Seq<u8>) -> bool {
    exists|n: nat| reaches(dirs, skip, from, to, n)
}

/// One more step below a reachable path stays reachable.
pub proof fn lemma_reaches_extend(
    dirs: Seq<FsDir>,
    skip: Seq<Seq<u8>>,
    root: Seq<u8>,
    from: Seq<u8>,
    n: nat,
    j: int,
)
    requires
        reaches(dirs, skip, root, from, n),
        step_edge(dirs, skip, from, j),
    ensures
        reaches(dirs, skip, root, edge_target(dirs, from, j), (n + 1) as nat),
    decreases n,
{
    let child = edge_target(dirs, from, j);
    if root == from {
        if root == child {
        } else {
            assert(step_edge(dirs, skip, root, j) && reaches(dirs, skip, child, child, n));
        }
    } else {
        let j0 = choose|j0: int|
            #[trigger] step_edge(dirs, skip, root, j0) && reaches(
                dirs,
                skip,
                edge_target(dirs, root, j0),
                from,
                (n - 1) as nat,
            );
        lemma_reaches_extend(dirs, skip, edge_target(dirs, root, j0), from, (n - 1) as nat, j);
        assert(step_edge(dirs, skip, root, j0) && reaches(
            dirs,
            skip,
            edge_target(dirs, root, j0),
            child,
            n,
        ));
    }
}

/// Some path carried by `vs` is `p`.
pub open spec fn in_paths(vs: Seq<Vec<u8>>, p: Seq<u8>) -> bool {
    exists|i: int| 0 <= i < vs.len() && vs[i]@ == p
}

/// A set of paths closed under step edges and holding `from` holds
/// everything reachable from it.
pub proof fn lemma_reachable_closed(
    dirs: Seq<FsDir>,
    skip: Seq<Seq<u8>>,
    vs: Seq<Vec<u8>>,
    from: Seq<u8>,
    to: Seq<u8>,
    n: nat,
)
    requires
        forall|i: int, j: int|
            0 <= i < vs.len() && #[trigger] step_edge(dirs, skip, vs[i]@, j) ==> in_paths(
                vs,
                edge_target(dirs, vs[i]@, j),
            ),
        in_paths(vs, from),
        reaches(dirs, skip, from, to, n),
    ensures
        in_paths(vs, to),
    decreases n,
{
    if from != to {
        let j = choose|j: int|
            #[trigger] step_edge(dirs, skip, from, j) && reaches(
                dirs,
                skip,
                edge_target(dirs, from, j),
                to,
                (n - 1) as nat,
            );
        let i = choose|i: int| 0 <= i < vs.len() && vs[i]@ == from;
        assert(step_edge(dirs, skip, vs[i]@, j));
        lemma_reachable_closed(dirs, skip, vs, edge_target(dirs, from, j), to, (n - 1) as nat);
    }
}

/// Each child name appears once in a listing.
pub open spec fn unique_child_names(d: FsDir) -> bool {
    forall|i: int, j: int|
        0 <= i < j < d.children@.len() ==> d.children@[i].name@ != d.children@[j].name@
}

/// What a scan records of one directory obeys the children discipline: the
/// list is ascending, holds no duplicates, and holds no skipped name.
pub proof fn lemma_scan_children_law(
    dirs: Seq<FsDir>,
    skip: Seq<Seq<u8>>,
    m: EntryModel,
    now: i64,
)
    requires
        scan_entry_ok(dirs, skip, m, now),
        unique_child_names(dirs[fs_at(dirs, m.path)]),
    ensures
        crate::bytestr::sorted_views(m.children),
        m.children.no_duplicates(),
        forall|i: int| 0 <= i < m.children.len() ==> !spec_should_skip(#[trigger] m.children[i], skip),
{
    let d = dirs[fs_at(dirs, m.path)];
    let names = d.children@.map_values(|c: FsChild| c.name@);
    let kept = kept_names(d, skip);
    let leq = crate::bytestr::lex_leq_fn();
    crate::bytestr::lemma_lex_total_ordering();
    kept.lemma_sort_by_ensures(leq);

    // Ascending.
    assert forall|i: int, j: int| 0 <= i < j < m.children.len() implies crate::bytestr::lex_le(
        m.children[i],
        m.children[j],
    ) by {
        assert(leq(m.children[i], m.children[j]));
    }

    // No duplicates: the listing's names are distinct, filtering keeps them
    // distinct, and sorting keeps the multiset.
    assert(names.no_duplicates()) by {
        assert(forall|i: int| 0 <= i < names.len() ==> names[i] == d.children@[i].name@);
    }
    lemma_filter_nodup(names, |n: Seq<u8>| !spec_should_skip(n, skip));
    kept.lemma_multiset_has_no_duplicates();
    assert(forall|x: Seq<u8>|
        m.children.to_multiset().contains(x) ==> m.children.to_multiset().count(x) == 1);
    m.children.lemma_multiset_has_no_duplicates_conv();

    // No skipped names: every rendered child is a kept name.
    broadcast use vstd::prelude::Seq::lemma_filter_pred;

    assert forall|i: int| 0 <= i < m.children.len() implies !spec_should_skip(
        #[trigger] m.children[i],
        skip,
    ) by {
        crate::bytestr::lemma_sort_views_elem(kept, i);
        let w = choose|w: int| 0 <= w < kept.len() && kept[w] == m.children[i];
    }
}

/// Every element of a filtered byte-string sequence is an element of the
/// original.
proof fn lemma_filter_subset_names(s: Seq<Seq<u8>>, pred: spec_fn(Seq<u8>) -> bool)
    ensures
        forall|i: int|
            0 <= i < s.filter(pred).len() ==> s.contains(#[trigger] s.filter(pred)[i]),
    decreases s.len(),
{
    reveal(Seq::filter);
    if s.len() > 0 {
        let t = s.drop_last();
        lemma_filter_subset_names(t, pred);
        assert forall|i: int|
            0 <= i < s.filter(pred).len() implies s.contains(#[trigger] s.filter(pred)[i]) by {
            if i < t.filter(pred).len() {
                assert(t.contains(t.filter(pred)[i]));
                let j = choose|j: int| 0 <= j < t.len() && t[j] == t.filter(pred)[i];
                assert(s[j] == s.filter(pred)[i]);
            } else {
                assert(s.filter(pred)[i] == s.last());
                assert(s[s.len() - 1] == s.last());
            }
        }
    }
}

/// Filtering a duplicate-free sequence of byte strings keeps it
/// duplicate-free.
proof fn lemma_filter_nodup(s: Seq<Seq<u8>>, pred: spec_fn(Seq<u8>) -> bool)
    requires
        s.no_duplicates(),
    ensures
        s.filter(pred).no_duplicates(),
    decreases s.len(),
{
    reveal(Seq::filter);
    if s.len() > 0 {
        let t = s.drop_last();
        assert(t.no_duplicates()) by {
            assert(forall|i: int| 0 <= i < t.len() ==> t[i] == s[i]);
        }
        lemma_filter_nodup(t, pred);
        lemma_filter_subset_names(t, pred);
        if pred(s.last()) {
            assert(s.filter(pred) == t.filter(pred).push(s.last()));
            assert forall|a: int, b: int|
                0 <= a < s.filter(pred).len() && 0 <= b < s.filter(pred).len() && a
                    != b implies s.filter(pred)[a] != s.filter(pred)[b] by {
                let lo = if a < b {
                    a
                } else {
                    b
                };
                let hi = if a < b {
                    b
                } else {
                    a
                };
                if hi < s.filter(pred).len() - 1 {
                    assert(s.filter(pred)[lo] == t.filter(pred)[lo]);
                    assert(s.filter(pred)[hi] == t.filter(pred)[hi]);
                } else {
                    assert(s.filter(pred)[hi] == s.last());
                    assert(s.filter(pred)[lo] == t.filter(pred)[lo]);
                    assert(t.contains(t.filter(pred)[lo]));
                    let j = choose|j: int| 0 <= j < t.len() && t[j] == t.filter(pred)[lo];
                    assert(s[j] != s[s.len() - 1]);
                }
            }
        } else {
            assert(s.filter(pred) == t.filter(pred));
        }
    }
}

/// Inserting an entry with another path keeps what `p` resolves to.
pub proof fn lemma_insert_preserves_lookup(s: Seq<DirEntry>, e: DirEntry, p: Seq<u8>)
    requires
        crate::cache::paths_unique(s),
        crate::cache::paths_unique(insert_entry_seq(s, e)),
        has_path(s, p),
        e.path@ != p,
    ensures
        has_path(insert_entry_seq(s, e), p),
        entry_at(insert_entry_seq(s, e), p) == entry_at(s, p),
{
    let s2 = insert_entry_seq(s, e);
    let i = idx_of(s, p);
    crate::cache::lemma_idx_of_unique(s, p, i);
    if has_path(s, e.path@) {
        let j = idx_of(s, e.path@);
        crate::cache::lemma_idx_of_unique(s, e.path@, j);
        assert(s2[i].path@ == p);
        crate::cache::lemma_idx_of_unique(s2, p, i);
        assert(s2[i] == s[i]);
    } else {
        assert(s2[i].path@ == p);
        crate::cache::lemma_idx_of_unique(s2, p, i);
        assert(s2[i] == s[i]);
    }
}

/// After inserting an entry, its path resolves to it.
pub proof fn lemma_insert_finds_inserted(s: Seq<DirEntry>, e: DirEntry)
    requires
        crate::cache::paths_unique(s),
        crate::cache::paths_unique(insert_entry_seq(s, e)),
    ensures
        has_path(insert_entry_seq(s, e), e.path@),
        entry_at(insert_entry_seq(s, e), e.path@) == e@,
{
    let s2 = insert_entry_seq(s, e);
    if has_path(s, e.path@) {
        let j = idx_of(s, e.path@);
        crate::cache::lemma_idx_of_unique(s, e.path@, j);
        assert(s2[j] == e);
        crate::cache::lemma_idx_of_unique(s2, e.path@, j);
    } else {
        assert(s2[s2.len() - 1] == e);
        crate::cache::lemma_idx_of_unique(s2, e.path@, s2.len() - 1);
    }
}

} // verus!
