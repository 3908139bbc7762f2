//! Sorted lists of relative paths.

use crate::path::{lemma_lt_transitive, path_lt, Comparison, RelPath};
use crate::tree::{sorted_strict, FileTree};
use vstd::prelude::*;

verus! {

/// The relative paths of some files of one tree, in ascending order.
#[derive(Debug, PartialEq, Eq)]
pub struct FileList {
    paths: Vec<RelPath>,
}

impl View for FileList {
    type V = Seq<Seq<u8>>;

    /// The paths, in their order.
    closed spec fn view(&self) -> Seq<Seq<u8>> {
        Seq::new(self.paths@.len(), |i: int| self.paths@[i]@)
    }
}

impl FileList {
    /// The paths are in strictly ascending order, so none occurs twice.
    pub open spec fn wf(&self) -> bool {
        sorted_strict(self@)
    }

    /// The empty list.
    pub fn new() -> (r: Self)
        ensures
            r.wf(),
            r@.len() == 0,
    {
        FileList { paths: Vec::new() }
    }

    /// Wraps `paths` if they are in strictly ascending order.
    pub fn from_sorted(paths: Vec<RelPath>) -> (r: Option<Self>)
        ensures
            r.is_some() == sorted_strict(Seq::new(paths@.len(), |i: int| paths@[i]@)),
            r.is_some() ==> r.unwrap().wf() && r.unwrap()@ == Seq::new(
                paths@.len(),
                |i: int| paths@[i]@,
            ),
    {
        let ghost s = Seq::new(paths@.len(), |i: int| paths@[i]@);
        let mut i: usize = 1;
        while i < paths.len()
            invariant
                1 <= i,
                s == Seq::new(paths@.len(), |i: int| paths@[i]@),
                forall|a: int, b: int| 0 <= a < b < i && b < s.len() ==> path_lt(s[a], s[b]),
            decreases paths.len() - i,
        {
            if paths[i - 1].compare(&paths[i]) != Comparison::Less {
                assert(!path_lt(s[i - 1], s[i as int]));
                return None;
            }
            proof {
                assert forall|a: int, b: int| 0 <= a < b < i + 1 && b < s.len() implies path_lt(
                    s[a],
                    s[b],
                ) by {
                    if b == i && a < i - 1 {
                        lemma_lt_transitive(s[a], s[i - 1], s[b]);
                    }
                }
            }
            i += 1;
        }
        Some(FileList { paths })
    }

    /// Number of paths.
    pub fn len(&self) -> (n: usize)
        ensures
            n == self@.len(),
    {
        self.paths.len()
    }

    /// The path at position `i`.
    pub fn get(&self, i: usize) -> (p: &RelPath)
        requires
            i < self@.len(),
        ensures
            p@ == self@[i as int],
    {
        &self.paths[i]
    }

    /// Adds `path`, which sorts after the last path, at the end.
    pub(crate) fn push(&mut self, path: RelPath)
        requires
            old(self).wf(),
            old(self)@.len() > 0 ==> path_lt(old(self)@.last(), path@),
        ensures
            final(self).wf(),
            final(self)@ == old(self)@.push(path@),
    {
        let ghost pre = self@;
        let ghost p = path@;
        self.paths.push(path);
        proof {
            assert(self@ =~= pre.push(p));
            assert forall|i: int, j: int| 0 <= i < j < self@.len() implies path_lt(
                #[trigger] self@[i],
                #[trigger] self@[j],
            ) by {
                if j == pre.len() && i < pre.len() - 1 {
                    lemma_lt_transitive(pre[i], pre.last(), p);
                }
            }
        }
    }
}

impl FileTree {
    /// The paths of all files of the tree.
    pub fn list(&self) -> (r: FileList)
        requires
            self.wf(),
        ensures
            r.wf(),
            r@ == self.paths(),
    {
        let mut r = FileList::new();
        let mut i: usize = 0;
        while i < self.len()
            invariant
                self.wf(),
                r.wf(),
                i <= self.paths().len(),
                r@ == self.paths().take(i as int),
            decreases self.paths().len() - i,
        {
            r.push(self.path_at(i).clone());
            assert(r@ =~= self.paths().take(i + 1));
            i += 1;
        }
        assert(self.paths().take(i as int) =~= self.paths());
        r
    }
}

} // verus!
