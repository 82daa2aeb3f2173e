//! The shared data type for a directory node and its immediate child names.

use vstd::prelude::*;
use crate::bytestr::{views_of, sorted_names, lex_le};

verus! {

/// One record per directory node.
///
/// `path` is the absolute path, `name` its terminal component, `modified` the
/// last-modification instant in UTC seconds, `children` the immediate child
/// names (not paths). `size` is reserved and always 0 for directories.
pub struct DirEntry {
    pub path: Vec<u8>,
    pub name: Vec<u8>,
    pub modified: i64,
    pub size: u64,
    pub children: Vec<Vec<u8>>,
    pub symlink_target: Option<Vec<u8>>,
    pub is_hidden: bool,
}

/// The mathematical value of a `DirEntry`.
pub ghost struct EntryModel {
    pub path: Seq<u8>,
    pub name: Seq<u8>,
    pub modified: i64,
    pub size: u64,
    pub children: Seq<Seq<u8>>,
    pub symlink_target: Option<Seq<u8>>,
    pub is_hidden: bool,
}

impl View for DirEntry {
    type V = EntryModel;

    open spec fn view(&self) -> EntryModel {
        EntryModel {
            path: self.path@,
            name: self.name@,
            modified: self.modified,
            size: self.size,
            children: views_of(self.children@),
            symlink_target: match self.symlink_target {
                Some(t) => Some(t@),
                None => None,
            },
            is_hidden: self.is_hidden,
        }
    }
}

impl DirEntry {
    /// A deep copy; the clone has the same mathematical value.
    pub fn duplicate(&self) -> (r: DirEntry)
        ensures
            r@ == self@,
    {
        let mut children: Vec<Vec<u8>> = Vec::new();
        let mut i: usize = 0;
        while i < self.children.len()
            invariant
                0 <= i <= self.children@.len(),
                views_of(children@) == views_of(self.children@).subrange(0, i as int),
            decreases self.children@.len() - i,
        {
            let ghost pre = children@;
            children.push(crate::bytestr::clone_bytes(&self.children[i]));
            proof {
                assert(views_of(pre).len() == pre.len());
                assert(pre.len() == i);
                assert(children@ == pre.push(children@[i as int]));
                assert forall|k: int| 0 <= k <= i implies views_of(children@)[k]
                    == self.children@[k]@ by {
                    assert(views_of(children@)[k] == children@[k]@);
                    if k < i {
                        assert(children@[k] == pre[k]);
                        assert(views_of(pre)[k] == pre[k]@);
                        assert(views_of(pre)[k] == views_of(self.children@).subrange(0, i as int)[k]);
                    } else {
                        assert(children@[k]@ == self.children@[i as int]@);
                    }
                }
                assert(views_of(children@) =~= views_of(self.children@).subrange(0, i + 1 as int));
            }
            i = i + 1;
        }
        assert(views_of(self.children@).subrange(0, self.children@.len() as int) =~= views_of(
            self.children@,
        ));
        let symlink_target = match &self.symlink_target {
            Some(t) => Some(crate::bytestr::clone_bytes(t)),
            None => None,
        };
        let r = DirEntry {
            path: crate::bytestr::clone_bytes(&self.path),
            name: crate::bytestr::clone_bytes(&self.name),
            modified: self.modified,
            size: self.size,
            children,
            symlink_target,
            is_hidden: self.is_hidden,
        };
        assert(r@.children =~= self@.children);
        r
    }

    /// The children list is in ascending order.
    pub open spec fn children_sorted(&self) -> bool {
        sorted_names(self.children@)
    }

    /// No child name occurs twice.
    pub open spec fn children_unique(&self) -> bool {
        forall|i: int, j: int|
            0 <= i < j < self.children@.len() ==> self.children@[i]@ != self.children@[j]@
    }

    /// True when some child is named `name`.
    pub open spec fn spec_has_child(&self, name: Seq<u8>) -> bool {
        exists|i: int| 0 <= i < self.children@.len() && self.children@[i]@ == name
    }

    /// Whether `name` occurs in the children list.
    pub fn has_child(&self, name: &[u8]) -> (r: bool)
        ensures
            r == self.spec_has_child(name@),
    {
        let mut i: usize = 0;
        while i < self.children.len()
            invariant
                0 <= i <= self.children@.len(),
                forall|j: int| 0 <= j < i ==> self.children@[j]@ != name@,
            decreases self.children@.len() - i,
        {
            if crate::bytestr::bytes_eq(self.children[i].as_slice(), name) {
                return true;
            }
            i = i + 1;
        }
        false
    }
}

} // verus!
