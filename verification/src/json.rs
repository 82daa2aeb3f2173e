//! Rendering the cached tree as JSON.
//!
//! The object shape: `{"path": <root>, "children": [ {"name", "path",
//! "children": [...]}, ... ]}`. Children arrays are ascending; recursion
//! stops at the optional depth bound, and truncated or unknown nodes keep an
//! empty `children`. Strings are escaped byte-wise: quote and backslash get
//! a backslash, control bytes become `\u00..`; all other bytes pass through.

use vstd::prelude::*;
use crate::cache::{DiskCache, has_path, entry_at};
use crate::entry::DirEntry;
use crate::bytestr::{sort_views, spec_join, sorted_copy, views_of};

verus! {

/// The lower-case hex digit of `n`.
pub open spec fn hex_digit(n: u8) -> u8 {
    if n < 10 {
        (48 + n) as u8
    } else {
        (87 + n) as u8
    }
}

/// The escape of one byte inside a JSON string.
pub open spec fn json_escape_byte(b: u8) -> Seq<u8> {
    if b == 0x22 || b == 0x5C {
        seq![0x5Cu8, b]
    } else if b < 0x20 {
        seq![0x5Cu8, 0x75u8, 0x30u8, 0x30u8, hex_digit(b / 16), hex_digit(b % 16)]
    } else {
        seq![b]
    }
}

/// A byte string escaped for a JSON string literal.
pub open spec fn json_escaped(s: Seq<u8>) -> Seq<u8>
    decreases s.len(),
{
    if s.len() == 0 {
        Seq::empty()
    } else {
        json_escape_byte(s[0]) + json_escaped(s.skip(1))
    }
}

/// Escaping one more byte appends its escape.
proof fn lemma_json_escaped_snoc(s: Seq<u8>, b: u8)
    ensures
        json_escaped(s.push(b)) == json_escaped(s) + json_escape_byte(b),
    decreases s.len(),
{
    let p = s.push(b);
    if s.len() == 0 {
        assert(p[0] == b);
        assert(p.skip(1) =~= Seq::<u8>::empty());
        assert(json_escaped(p.skip(1)) =~= Seq::<u8>::empty());
        assert(json_escaped(p) =~= json_escape_byte(b) + json_escaped(p.skip(1)));
        assert(json_escaped(p) =~= json_escape_byte(b));
        assert(json_escaped(s) + json_escape_byte(b) =~= json_escape_byte(b));
    } else {
        lemma_json_escaped_snoc(s.skip(1), b);
        assert(s.skip(1).push(b) =~= p.skip(1));
        assert(p[0] == s[0]);
        assert(json_escaped(p) =~= json_escaped(s) + json_escape_byte(b));
    }
}

/// `"name":"` as bytes.
pub open spec fn key_name() -> Seq<u8> {
    seq![0x22u8, 0x6Eu8, 0x61u8, 0x6Du8, 0x65u8, 0x22u8, 0x3Au8, 0x22u8]
}

/// `"path":"` as bytes: opens the root's path string.
pub open spec fn key_path() -> Seq<u8> {
    seq![0x22u8, 0x70u8, 0x61u8, 0x74u8, 0x68u8, 0x22u8, 0x3Au8, 0x22u8]
}

/// `","path":"` as bytes: closes the name string and opens the path string.
pub open spec fn key_path_next() -> Seq<u8> {
    seq![0x22u8, 0x2Cu8, 0x22u8, 0x70u8, 0x61u8, 0x74u8, 0x68u8, 0x22u8, 0x3Au8, 0x22u8]
}

/// `","children":[` as bytes.
pub open spec fn key_children() -> Seq<u8> {
    seq![
        0x22u8, 0x2Cu8, 0x22u8, 0x63u8, 0x68u8, 0x69u8, 0x6Cu8, 0x64u8, 0x72u8, 0x65u8, 0x6Eu8,
        0x22u8, 0x3Au8, 0x5Bu8,
    ]
}

/// The children array contents of the node at `path`: one object per child,
/// comma-separated, empty when the node is unknown, truncated or out of
/// fuel.
pub open spec fn spec_json_node(
    s: Seq<DirEntry>,
    path: Seq<u8>,
    depth: usize,
    max_depth: Option<usize>,
    fuel: nat,
) -> Seq<u8>
    decreases fuel,
{
    if fuel == 0 || (match max_depth {
        Some(m) => depth >= m,
        None => false,
    }) || !has_path(s, path) {
        Seq::empty()
    } else {
        spec_json_children(
            s,
            path,
            sort_views(entry_at(s, path).children),
            0,
            depth,
            max_depth,
            (fuel - 1) as nat,
        )
    }
}

pub open spec fn spec_json_children(
    s: Seq<DirEntry>,
    path: Seq<u8>,
    children: Seq<Seq<u8>>,
    i: int,
    depth: usize,
    max_depth: Option<usize>,
    fuel: nat,
) -> Seq<u8>
    decreases fuel,
{
    if fuel == 0 || !(0 <= i < children.len()) || depth >= usize::MAX {
        Seq::empty()
    } else {
        let name = children[i];
        let child_path = spec_join(path, name);
        let comma: Seq<u8> = if i < children.len() - 1 {
            seq![0x2Cu8]
        } else {
            Seq::empty()
        };
        seq![0x7Bu8] + key_name() + json_escaped(name) + key_path_next() + json_escaped(
            child_path,
        ) + key_children() + spec_json_node(
            s,
            child_path,
            (depth + 1) as usize,
            max_depth,
            (fuel - 1) as nat,
        ) + seq![0x5Du8, 0x7Du8] + comma + spec_json_children(
            s,
            path,
            children,
            i + 1,
            depth,
            max_depth,
            (fuel - 1) as nat,
        )
    }
}

/// The whole JSON rendering: the root object with its `path` and the nested
/// `children` arrays.
pub open spec fn spec_json_output(c: DiskCache, max_depth: Option<usize>, fuel: nat) -> Seq<u8> {
    seq![0x7Bu8] + key_path() + json_escaped(c.root@) + key_children() + (if c.entries@.len()
        == 0 {
        Seq::<u8>::empty()
    } else {
        spec_json_node(c.entries@, c.root@, 0, max_depth, fuel)
    }) + seq![0x5Du8, 0x7Du8]
}

/// Append `s`, escaped for a JSON string literal.
#[verifier::loop_isolation(false)]
fn push_escaped(out: &mut Vec<u8>, s: &[u8])
    ensures
        final(out)@ == old(out)@ + json_escaped(s@),
{
    let mut i: usize = 0;
    while i < s.len()
        invariant
            0 <= i <= s@.len(),
            out@ == old(out)@ + json_escaped(s@.take(i as int)),
        decreases s@.len() - i,
    {
        let ghost pre = out@;
        let b = s[i];
        if b == 0x22 || b == 0x5C {
            out.push(0x5C);
            out.push(b);
        } else if b < 0x20 {
            out.push(0x5C);
            out.push(0x75);
            out.push(0x30);
            out.push(0x30);
            out.push(if b / 16 < 10 {
                48 + b / 16
            } else {
                87 + b / 16
            });
            out.push(if b % 16 < 10 {
                48 + b % 16
            } else {
                87 + b % 16
            });
        } else {
            out.push(b);
        }
        proof {
            assert(out@ =~= pre + json_escape_byte(s@[i as int]));
            lemma_json_escaped_snoc(s@.take(i as int), s@[i as int]);
            assert(s@.take(i + 1 as int) =~= s@.take(i as int).push(s@[i as int]));
        }
        i = i + 1;
    }
    proof {
        assert(s@.take(s@.len() as int) =~= s@);
    }
}

/// Append `"name":"`.
fn push_key_name(out: &mut Vec<u8>)
    ensures
        final(out)@ == old(out)@ + key_name(),
{
    out.push(0x22);
    out.push(0x6E);
    out.push(0x61);
    out.push(0x6D);
    out.push(0x65);
    out.push(0x22);
    out.push(0x3A);
    out.push(0x22);
    proof {
        assert(out@ =~= old(out)@ + key_name());
    }
}

/// Append `"path":"`.
fn push_key_path(out: &mut Vec<u8>)
    ensures
        final(out)@ == old(out)@ + key_path(),
{
    out.push(0x22);
    out.push(0x70);
    out.push(0x61);
    out.push(0x74);
    out.push(0x68);
    out.push(0x22);
    out.push(0x3A);
    out.push(0x22);
    proof {
        assert(out@ =~= old(out)@ + key_path());
    }
}

/// Append `","path":"`.
fn push_key_path_next(out: &mut Vec<u8>)
    ensures
        final(out)@ == old(out)@ + key_path_next(),
{
    out.push(0x22);
    out.push(0x2C);
    out.push(0x22);
    out.push(0x70);
    out.push(0x61);
    out.push(0x74);
    out.push(0x68);
    out.push(0x22);
    out.push(0x3A);
    out.push(0x22);
    proof {
        assert(out@ =~= old(out)@ + key_path_next());
    }
}

/// Append `","children":[`.
fn push_key_children(out: &mut Vec<u8>)
    ensures
        final(out)@ == old(out)@ + key_children(),
{
    out.push(0x22);
    out.push(0x2C);
    out.push(0x22);
    out.push(0x63);
    out.push(0x68);
    out.push(0x69);
    out.push(0x6C);
    out.push(0x64);
    out.push(0x72);
    out.push(0x65);
    out.push(0x6E);
    out.push(0x22);
    out.push(0x3A);
    out.push(0x5B);
    proof {
        assert(out@ =~= old(out)@ + key_children());
    }
}

impl DiskCache {
    /// Append the children objects of the node at `path`.
    #[verifier::loop_isolation(false)]
    #[verifier::rlimit(100)]
    fn json_node(
        &self,
        out: &mut Vec<u8>,
        path: &[u8],
        depth: usize,
        max_depth: Option<usize>,
        fuel: usize,
    )
        requires
            self.wf(),
        ensures
            final(out)@ == old(out)@ + spec_json_node(
                self.entries@,
                path@,
                depth,
                max_depth,
                fuel as nat,
            ),
        decreases fuel,
    {
        if fuel == 0 {
            proof {
                assert(out@ =~= out@ + Seq::<u8>::empty());
            }
            return ;
        }
        match max_depth {
            Some(m) => {
                if depth >= m {
                    proof {
                        assert(out@ =~= out@ + Seq::<u8>::empty());
                    }
                    return ;
                }
            },
            None => {},
        }
        let entry = match self.get_entry(path) {
            Some(e) => e,
            None => {
                proof {
                    assert(out@ =~= out@ + Seq::<u8>::empty());
                }
                return ;
            },
        };
        let children = sorted_copy(&entry.children);
        let ghost cviews = sort_views(entry_at(self.entries@, path@).children);
        if depth == usize::MAX {
            proof {
                assert(spec_json_node(
                    self.entries@,
                    path@,
                    depth,
                    max_depth,
                    fuel as nat,
                ) =~= Seq::<u8>::empty());
                assert(out@ =~= out@ + Seq::<u8>::empty());
            }
            return ;
        }
        let mut i: usize = 0;
        let mut f: usize = fuel - 1;
        while i < children.len() && f > 0
            invariant
                0 <= i <= children@.len(),
                views_of(children@) == cviews,
                depth < usize::MAX,
                f < fuel,
                out@ + spec_json_children(
                    self.entries@,
                    path@,
                    cviews,
                    i as int,
                    depth,
                    max_depth,
                    f as nat,
                ) == old(out)@ + spec_json_node(
                    self.entries@,
                    path@,
                    depth,
                    max_depth,
                    fuel as nat,
                ),
            decreases children@.len() - i,
        {
            let name = &children[i];
            let child_path = crate::bytestr::join_path(path, name.as_slice());
            out.push(0x7B);
            push_key_name(out);
            push_escaped(out, name.as_slice());
            push_key_path_next(out);
            push_escaped(out, child_path.as_slice());
            push_key_children(out);
            self.json_node(out, child_path.as_slice(), depth + 1, max_depth, f - 1);
            out.push(0x5D);
            out.push(0x7D);
            if i < children.len() - 1 {
                out.push(0x2C);
            }
            proof {
                assert(cviews[i as int] == name@);
            }
            i = i + 1;
            f = f - 1;
        }
        proof {
            if i < children@.len() {
                assert(spec_json_children(
                    self.entries@,
                    path@,
                    cviews,
                    i as int,
                    depth,
                    max_depth,
                    f as nat,
                ) =~= Seq::<u8>::empty());
            }
        }
    }

    /// Render the tree as one JSON object.
    pub fn build_json_output(&self) -> (r: Vec<u8>)
        requires
            self.wf(),
        ensures
            r@ == spec_json_output(*self, None, usize::MAX as nat),
    {
        self.build_json_output_with_depth(None)
    }

    /// Render the tree as one JSON object, stopping below the given depth.
    pub fn build_json_output_with_depth(&self, max_depth: Option<usize>) -> (r: Vec<u8>)
        requires
            self.wf(),
        ensures
            r@ == spec_json_output(*self, max_depth, usize::MAX as nat),
    {
        let mut out: Vec<u8> = Vec::new();
        out.push(0x7B);
        push_key_path(&mut out);
        push_escaped(&mut out, self.root.as_slice());
        push_key_children(&mut out);
        if self.entries.len() > 0 {
            let root = crate::bytestr::clone_bytes(&self.root);
            self.json_node(&mut out, root.as_slice(), 0, max_depth, usize::MAX);
        }
        out.push(0x5D);
        out.push(0x7D);
        proof {
            assert(out@ =~= spec_json_output(*self, max_depth, usize::MAX as nat));
        }
        out
    }
}

} // verus!
