//! Rendering the cached tree as text.
//!
//! The first line is the root path verbatim. Each child line is
//! `prefix branch name`: the branch is `└── ` for the last child of its
//! parent and `├── ` otherwise, and the prefix concatenates the ancestors'
//! continuation markers — four spaces when that ancestor was a last child,
//! `│   ` otherwise. Symlink names carry a ` (→ target)` suffix, and hidden
//! names a ` [H]` suffix when hidden visibility is on.
//!
//! Output is bytes (UTF-8); the rendering recursion is metered by a fuel
//! counter large enough that any cache this crate can hold renders in full.

use vstd::prelude::*;
use crate::cache::{DiskCache, has_path, entry_at, spec_format_name};
use crate::entry::DirEntry;
use crate::bytestr::{sort_views, spec_join, sorted_copy, views_of};

verus! {

/// `└── ` as UTF-8 bytes.
pub open spec fn branch_last() -> Seq<u8> {
    seq![0xE2u8, 0x94u8, 0x94u8, 0xE2u8, 0x94u8, 0x80u8, 0xE2u8, 0x94u8, 0x80u8, 0x20u8]
}

/// `├── ` as UTF-8 bytes.
pub open spec fn branch_mid() -> Seq<u8> {
    seq![0xE2u8, 0x94u8, 0x9Cu8, 0xE2u8, 0x94u8, 0x80u8, 0xE2u8, 0x94u8, 0x80u8, 0x20u8]
}

/// Four spaces: the continuation marker under a last child.
pub open spec fn pad_last() -> Seq<u8> {
    seq![0x20u8, 0x20u8, 0x20u8, 0x20u8]
}

/// `│   ` as UTF-8 bytes: the continuation marker under other children.
pub open spec fn pad_mid() -> Seq<u8> {
    seq![0xE2u8, 0x94u8, 0x82u8, 0x20u8, 0x20u8, 0x20u8]
}

/// ` (→ ` as UTF-8 bytes: opens a symlink-target suffix.
pub open spec fn arrow_open() -> Seq<u8> {
    seq![0x20u8, 0x28u8, 0xE2u8, 0x86u8, 0x92u8, 0x20u8]
}

/// The name a child line shows: the symlink target when the child's entry
/// carries one, else the hidden marker when asked for, else the bare name.
pub open spec fn spec_display_name(
    s: Seq<DirEntry>,
    name: Seq<u8>,
    child_path: Seq<u8>,
    show_hidden: bool,
) -> Seq<u8> {
    if has_path(s, child_path) {
        match entry_at(s, child_path).symlink_target {
            Some(t) => name + arrow_open() + t + seq![0x29u8],
            None => spec_format_name(s, name, child_path, show_hidden),
        }
    } else {
        name
    }
}

/// The lines for the children of the entry at `path`, each followed by the
/// subtree under it. Recursion is metered by `fuel`; `depth` counts levels
/// below the root against the optional bound.
pub open spec fn spec_render_node(
    s: Seq<DirEntry>,
    path: Seq<u8>,
    prefix: Seq<u8>,
    depth: usize,
    max_depth: Option<usize>,
    show_hidden: bool,
    fuel: nat,
) -> Seq<u8>
    decreases fuel,
{
    if fuel == 0 || (match max_depth {
        Some(m) => depth >= m,
        None => false,
    }) || !has_path(s, path) {
        Seq::empty()
    } else {
        spec_render_children(
            s,
            path,
            sort_views(entry_at(s, path).children),
            0,
            prefix,
            depth,
            max_depth,
            show_hidden,
            (fuel - 1) as nat,
        )
    }
}

pub open spec fn spec_render_children(
    s: Seq<DirEntry>,
    path: Seq<u8>,
    children: Seq<Seq<u8>>,
    i: int,
    prefix: Seq<u8>,
    depth: usize,
    max_depth: Option<usize>,
    show_hidden: bool,
    fuel: nat,
) -> Seq<u8>
    decreases fuel,
{
    if fuel == 0 || !(0 <= i < children.len()) || depth >= usize::MAX {
        Seq::empty()
    } else {
        let name = children[i];
        let is_last_child = i == children.len() - 1;
        let child_path = spec_join(path, name);
        let branch = if is_last_child {
            branch_last()
        } else {
            branch_mid()
        };
        let pad = if is_last_child {
            pad_last()
        } else {
            pad_mid()
        };
        prefix + branch + spec_display_name(s, name, child_path, show_hidden) + seq![0x0Au8]
            + spec_render_node(
            s,
            child_path,
            prefix + pad,
            (depth + 1) as usize,
            max_depth,
            show_hidden,
            (fuel - 1) as nat,
        ) + spec_render_children(
            s,
            path,
            children,
            i + 1,
            prefix,
            depth,
            max_depth,
            show_hidden,
            (fuel - 1) as nat,
        )
    }
}

/// `(empty)` and a newline: the rendering of an empty cache.
pub open spec fn empty_marker() -> Seq<u8> {
    seq![0x28u8, 0x65u8, 0x6Du8, 0x70u8, 0x74u8, 0x79u8, 0x29u8, 0x0Au8]
}

/// The whole tree rendering: the root path verbatim, then its subtree.
pub open spec fn spec_tree_output(c: DiskCache, max_depth: Option<usize>, fuel: nat) -> Seq<u8> {
    if c.entries@.len() == 0 {
        empty_marker()
    } else {
        c.root@ + seq![0x0Au8] + spec_render_node(
            c.entries@,
            c.root@,
            Seq::empty(),
            0,
            max_depth,
            c.show_hidden,
            fuel,
        )
    }
}

impl DiskCache {
    /// Append the rendering of the subtree below `path`.
    #[verifier::loop_isolation(false)]
    #[verifier::rlimit(100)]
    fn render_node(
        &self,
        out: &mut Vec<u8>,
        path: &[u8],
        prefix: &[u8],
        depth: usize,
        max_depth: Option<usize>,
        fuel: usize,
    )
        requires
            self.wf(),
        ensures
            final(out)@ == old(out)@ + spec_render_node(
                self.entries@,
                path@,
                prefix@,
                depth,
                max_depth,
                self.show_hidden,
                fuel as nat,
            ),
        decreases fuel,
    {
        if fuel == 0 {
            proof {
                assert(out@ =~= out@ + Seq::<u8>::empty());
            }
            return ;
        }
        match max_depth {
            Some(m) => {
                if depth >= m {
                    proof {
                        assert(out@ =~= out@ + Seq::<u8>::empty());
                    }
                    return ;
                }
            },
            None => {},
        }
        let entry = match self.get_entry(path) {
            Some(e) => e,
            None => {
                proof {
                    assert(out@ =~= out@ + Seq::<u8>::empty());
                }
                return ;
            },
        };
        let children = sorted_copy(&entry.children);
        let ghost cviews = sort_views(entry_at(self.entries@, path@).children);
        if depth == usize::MAX {
            proof {
                assert(spec_render_node(
                    self.entries@,
                    path@,
                    prefix@,
                    depth,
                    max_depth,
                    self.show_hidden,
                    fuel as nat,
                ) =~= Seq::<u8>::empty());
                assert(out@ =~= out@ + Seq::<u8>::empty());
            }
            return ;
        }
        let mut i: usize = 0;
        let mut f: usize = fuel - 1;
        while i < children.len() && f > 0
            invariant
                0 <= i <= children@.len(),
                views_of(children@) == cviews,
                depth < usize::MAX,
                f < fuel,
                out@ + spec_render_children(
                    self.entries@,
                    path@,
                    cviews,
                    i as int,
                    prefix@,
                    depth,
                    max_depth,
                    self.show_hidden,
                    f as nat,
                ) == old(out)@ + spec_render_node(
                    self.entries@,
                    path@,
                    prefix@,
                    depth,
                    max_depth,
                    self.show_hidden,
                    fuel as nat,
                ),
            decreases children@.len() - i,
        {
            let name = &children[i];
            let is_last_child = i == children.len() - 1;
            let child_path = crate::bytestr::join_path(path, name.as_slice());
            crate::bytestr::append_bytes(out, prefix);
            if is_last_child {
                push_branch_last(out);
            } else {
                push_branch_mid(out);
            }
            let disp = self.display_name(name.as_slice(), child_path.as_slice());
            crate::bytestr::append_bytes(out, disp.as_slice());
            out.push(0x0A);
            let mut child_prefix = crate::bytestr::copy_range(prefix, 0, prefix.len());
            proof {
                assert(prefix@.subrange(0, prefix@.len() as int) =~= prefix@);
            }
            if is_last_child {
                push_pad_last(&mut child_prefix);
            } else {
                push_pad_mid(&mut child_prefix);
            }
            self.render_node(
                out,
                child_path.as_slice(),
                child_prefix.as_slice(),
                depth + 1,
                max_depth,
                f - 1,
            );
            proof {
                assert(cviews[i as int] == name@);
            }
            i = i + 1;
            f = f - 1;
        }
        proof {
            if i < children@.len() {
                assert(spec_render_children(
                    self.entries@,
                    path@,
                    cviews,
                    i as int,
                    prefix@,
                    depth,
                    max_depth,
                    self.show_hidden,
                    f as nat,
                ) =~= Seq::<u8>::empty());
            }
        }
        proof {
            assert(spec_render_children(
                self.entries@,
                path@,
                cviews,
                children@.len() as int,
                prefix@,
                depth,
                max_depth,
                self.show_hidden,
                (fuel - 1) as nat,
            ) =~= Seq::<u8>::empty());
            assert(out@ =~= out@ + Seq::<u8>::empty());
        }
    }

    /// The name a child line shows.
    fn display_name(&self, name: &[u8], child_path: &[u8]) -> (r: Vec<u8>)
        requires
            self.wf(),
        ensures
            r@ == spec_display_name(self.entries@, name@, child_path@, self.show_hidden),
    {
        let show_hidden = self.show_hidden;
        match self.get_entry(child_path) {
            Some(e) => {
                match &e.symlink_target {
                    Some(t) => {
                        let mut r = crate::bytestr::copy_range(name, 0, name.len());
                        proof {
                            assert(name@.subrange(0, name@.len() as int) =~= name@);
                        }
                        r.push(0x20);
                        r.push(0x28);
                        r.push(0xE2);
                        r.push(0x86);
                        r.push(0x92);
                        r.push(0x20);
                        proof {
                            assert(r@ =~= name@ + arrow_open());
                        }
                        crate::bytestr::append_bytes(&mut r, t.as_slice());
                        r.push(0x29);
                        proof {
                            assert(r@ =~= name@ + arrow_open() + entry_at(
                                self.entries@,
                                child_path@,
                            ).symlink_target->0 + seq![0x29u8]);
                        }
                        r
                    },
                    None => self.format_name(name, child_path, show_hidden),
                }
            },
            None => {
                let r = crate::bytestr::copy_range(name, 0, name.len());
                proof {
                    assert(name@.subrange(0, name@.len() as int) =~= name@);
                }
                r
            },
        }
    }

    /// Render the whole tree: the root path, then one line per descendant.
    pub fn build_tree_output(&self) -> (r: Vec<u8>)
        requires
            self.wf(),
        ensures
            r@ == spec_tree_output(*self, None, usize::MAX as nat),
    {
        self.build_tree_output_with_depth(None)
    }

    /// Render the tree, stopping below the given depth.
    pub fn build_tree_output_with_depth(&self, max_depth: Option<usize>) -> (r: Vec<u8>)
        requires
            self.wf(),
        ensures
            r@ == spec_tree_output(*self, max_depth, usize::MAX as nat),
    {
        let mut out: Vec<u8> = Vec::new();
        if self.entries.len() == 0 {
            out.push(0x28);
            out.push(0x65);
            out.push(0x6D);
            out.push(0x70);
            out.push(0x74);
            out.push(0x79);
            out.push(0x29);
            out.push(0x0A);
            proof {
                assert(out@ =~= empty_marker());
            }
            return out;
        }
        crate::bytestr::append_bytes(&mut out, self.root.as_slice());
        out.push(0x0A);
        proof {
            assert(out@ =~= self.root@ + seq![0x0Au8]);
        }
        let root = crate::bytestr::clone_bytes(&self.root);
        let prefix: Vec<u8> = Vec::new();
        self.render_node(&mut out, root.as_slice(), prefix.as_slice(), 0, max_depth, usize::MAX);
        out
    }
}

/// Append `└── `.
fn push_branch_last(out: &mut Vec<u8>)
    ensures
        final(out)@ == old(out)@ + branch_last(),
{
    out.push(0xE2);
    out.push(0x94);
    out.push(0x94);
    out.push(0xE2);
    out.push(0x94);
    out.push(0x80);
    out.push(0xE2);
    out.push(0x94);
    out.push(0x80);
    out.push(0x20);
    proof {
        assert(out@ =~= old(out)@ + branch_last());
    }
}

/// Append `├── `.
fn push_branch_mid(out: &mut Vec<u8>)
    ensures
        final(out)@ == old(out)@ + branch_mid(),
{
    out.push(0xE2);
    out.push(0x94);
    out.push(0x9C);
    out.push(0xE2);
    out.push(0x94);
    out.push(0x80);
    out.push(0xE2);
    out.push(0x94);
    out.push(0x80);
    out.push(0x20);
    proof {
        assert(out@ =~= old(out)@ + branch_mid());
    }
}

/// Append four spaces.
fn push_pad_last(out: &mut Vec<u8>)
    ensures
        final(out)@ == old(out)@ + pad_last(),
{
    out.push(0x20);
    out.push(0x20);
    out.push(0x20);
    out.push(0x20);
    proof {
        assert(out@ =~= old(out)@ + pad_last());
    }
}

/// Append `│   `.
fn push_pad_mid(out: &mut Vec<u8>)
    ensures
        final(out)@ == old(out)@ + pad_mid(),
{
    out.push(0xE2);
    out.push(0x94);
    out.push(0x82);
    out.push(0x20);
    out.push(0x20);
    out.push(0x20);
    proof {
        assert(out@ =~= old(out)@ + pad_mid());
    }
}

} // verus!
