//! File trees held in memory: a finite map from relative path to content,
//! stored as a vector of entries in ascending path order.
//!
//! A tree holds regular files only. Directories are not stored: a path
//! stands for the directories above it, which exist as long as it does.

use crate::path::{lemma_lt_irreflexive, lemma_lt_transitive, path_lt, Comparison, RelPath};
use vstd::prelude::*;

verus! {

/// `s` is in strictly ascending path order, hence free of duplicates.
pub open spec fn sorted_strict(s: Seq<Seq<u8>>) -> bool {
    forall|i: int, j: int| 0 <= i < j < s.len() ==> path_lt(#[trigger] s[i], #[trigger] s[j])
}

/// In a strictly ascending sequence a path stands at one position only.
pub proof fn lemma_sorted_unique(s: Seq<Seq<u8>>, i: int, j: int)
    requires
        sorted_strict(s),
        0 <= i < s.len(),
        0 <= j < s.len(),
        s[i] == s[j],
    ensures
        i == j,
{
    lemma_lt_irreflexive(s[i]);
}

/// A regular file: where it is, and what it holds.
#[derive(Debug, PartialEq, Eq)]
struct FileEntry {
    path: RelPath,
    content: Vec<u8>,
}

/// The regular files below one root.
#[derive(Debug, PartialEq, Eq)]
pub struct FileTree {
    entries: Vec<FileEntry>,
}

impl View for FileTree {
    type V = Map<Seq<u8>, Seq<u8>>;

    /// The tree as a map from path to content.
    open spec fn view(&self) -> Map<Seq<u8>, Seq<u8>> {
        Map::new(
            |p: Seq<u8>| self.paths().contains(p),
            |p: Seq<u8>| self.contents()[self.paths().index_of(p)],
        )
    }
}

impl FileTree {
    /// The paths of the tree, in the order in which they are stored.
    pub closed spec fn paths(&self) -> Seq<Seq<u8>> {
        Seq::new(self.entries@.len(), |i: int| self.entries@[i].path@)
    }

    /// The contents of the files, in the order of [`Self::paths`].
    pub closed spec fn contents(&self) -> Seq<Seq<u8>> {
        Seq::new(self.entries@.len(), |i: int| self.entries@[i].content@)
    }

    /// The entries are in strictly ascending path order.
    pub open spec fn wf(&self) -> bool {
        &&& sorted_strict(self.paths())
        &&& self.paths().len() == self.contents().len()
    }

    /// The file stored at position `i` is the one the map holds for its path.
    pub proof fn lemma_entry(&self, i: int)
        requires
            self.wf(),
            0 <= i < self.paths().len(),
        ensures
            self@.dom().contains(self.paths()[i]),
            self@[self.paths()[i]] == self.contents()[i],
    {
        let p = self.paths()[i];
        assert(self.paths().contains(p));
        let j = self.paths().index_of(p);
        lemma_sorted_unique(self.paths(), i, j);
    }

    /// Every path of the map stands at some position.
    pub proof fn lemma_position(&self, p: Seq<u8>) -> (i: int)
        requires
            self.wf(),
            self@.dom().contains(p),
        ensures
            0 <= i < self.paths().len(),
            self.paths()[i] == p,
            self.contents()[i] == self@[p],
    {
        let i = self.paths().index_of(p);
        self.lemma_entry(i);
        i
    }

    /// The empty tree.
    pub fn new() -> (r: Self)
        ensures
            r.wf(),
            r@ == Map::<Seq<u8>, Seq<u8>>::empty(),
            r.paths().len() == 0,
    {
        let r = FileTree { entries: Vec::new() };
        assert(r@ =~= Map::<Seq<u8>, Seq<u8>>::empty());
        r
    }

    /// Number of files.
    pub fn len(&self) -> (n: usize)
        ensures
            n == self.paths().len(),
            n == self.contents().len(),
    {
        self.entries.len()
    }

    /// Path of the file at position `i`.
    pub fn path_at(&self, i: usize) -> (p: &RelPath)
        requires
            i < self.paths().len(),
        ensures
            p@ == self.paths()[i as int],
    {
        &self.entries[i].path
    }

    /// Content of the file at position `i`.
    pub fn content_at(&self, i: usize) -> (c: &Vec<u8>)
        requires
            i < self.paths().len(),
        ensures
            c@ == self.contents()[i as int],
    {
        &self.entries[i].content
    }

    /// Binary search for `path`. Returns whether it is present, and the
    /// position at which it stands or at which it would have to be inserted.
    pub fn search(&self, path: &RelPath) -> (r: (bool, usize))
        requires
            self.wf(),
        ensures
            r.1 <= self.paths().len() <= usize::MAX,
            r.0 == self@.dom().contains(path@),
            r.0 ==> r.1 < self.paths().len() && self.paths()[r.1 as int] == path@,
            forall|i: int| 0 <= i < r.1 ==> path_lt(#[trigger] self.paths()[i], path@),
            forall|i: int|
                r.1 + (if r.0 { 1int } else { 0int }) <= i < self.paths().len() ==> path_lt(
                    path@,
                    #[trigger] self.paths()[i],
                ),
    {
        let mut lo: usize = 0;
        let mut hi: usize = self.entries.len();
        while lo < hi
            invariant
                self.wf(),
                lo <= hi <= self.paths().len(),
                self.paths().len() == self.entries.len(),
                forall|i: int| 0 <= i < lo ==> path_lt(#[trigger] self.paths()[i], path@),
                forall|i: int|
                    hi <= i < self.paths().len() ==> path_lt(path@, #[trigger] self.paths()[i]),
            decreases hi - lo,
        {
            let mid = lo + (hi - lo) / 2;
            match self.entries[mid].path.compare(path) {
                Comparison::Less => {
                    proof {
                        assert forall|i: int| 0 <= i < mid + 1 implies path_lt(
                            #[trigger] self.paths()[i],
                            path@,
                        ) by {
                            if i < mid {
                                lemma_lt_transitive(self.paths()[i], self.paths()[mid as int], path@);
                            }
                        }
                    }
                    lo = mid + 1;
                },
                Comparison::Greater => {
                    proof {
                        assert forall|i: int| mid <= i < self.paths().len() implies path_lt(
                            path@,
                            #[trigger] self.paths()[i],
                        ) by {
                            if i > mid {
                                lemma_lt_transitive(path@, self.paths()[mid as int], self.paths()[i]);
                            }
                        }
                    }
                    hi = mid;
                },
                Comparison::Equal => {
                    proof {
                        self.lemma_entry(mid as int);
                        assert forall|i: int| 0 <= i < mid implies path_lt(
                            #[trigger] self.paths()[i],
                            path@,
                        ) by {}
                        assert forall|i: int| mid + 1 <= i < self.paths().len() implies path_lt(
                            path@,
                            #[trigger] self.paths()[i],
                        ) by {}
                    }
                    return (true, mid);
                },
            }
        }
        proof {
            if self@.dom().contains(path@) {
                let i = self.lemma_position(path@);
                lemma_lt_irreflexive(path@);
            }
        }
        (false, lo)
    }

    /// Whether a file is stored at `path`.
    pub fn contains(&self, path: &RelPath) -> (r: bool)
        requires
            self.wf(),
        ensures
            r == self@.dom().contains(path@),
    {
        self.search(path).0
    }

    /// The content stored at `path`, if any.
    pub fn get(&self, path: &RelPath) -> (r: Option<&Vec<u8>>)
        requires
            self.wf(),
        ensures
            r.is_some() == self@.dom().contains(path@),
            r.is_some() ==> r.unwrap()@ == self@[path@],
    {
        let (found, pos) = self.search(path);
        if found {
            proof {
                self.lemma_entry(pos as int);
            }
            Some(&self.entries[pos].content)
        } else {
            None
        }
    }

    /// A tree whose entries are the pairs of `m`, and no others, views as `m`.
    proof fn lemma_view_is(&self, m: Map<Seq<u8>, Seq<u8>>)
        requires
            self.wf(),
            forall|i: int|
                0 <= i < self.paths().len() ==> m.dom().contains(#[trigger] self.paths()[i])
                    && m[self.paths()[i]] == self.contents()[i],
            forall|q: Seq<u8>| #[trigger] m.dom().contains(q) ==> self.paths().contains(q),
        ensures
            self@ == m,
    {
        assert forall|q: Seq<u8>| #[trigger] self@.dom().contains(q) implies m.dom().contains(q)
            && m[q] == self@[q] by {
            let i = self.lemma_position(q);
            assert(m.dom().contains(self.paths()[i]));
        }
        assert(self@ =~= m);
    }

    /// Stores `content` at `path`, replacing what was there.
    pub fn put(&mut self, path: RelPath, content: Vec<u8>)
        requires
            old(self).wf(),
        ensures
            final(self).wf(),
            final(self)@ == old(self)@.insert(path@, content@),
    {
        let ghost pre = *self;
        let ghost p = path@;
        let ghost c = content@;
        let (found, pos) = self.search(&path);
        if found {
            self.entries.set(pos, FileEntry { path, content });
            proof {
                assert(self.paths() =~= pre.paths());
                assert(self.contents() =~= pre.contents().update(pos as int, c));
                assert forall|i: int| 0 <= i < self.paths().len() implies pre@.insert(
                    p,
                    c,
                ).dom().contains(#[trigger] self.paths()[i]) && pre@.insert(p, c)[self.paths()[i]]
                    == self.contents()[i] by {
                    pre.lemma_entry(i);
                    if i != pos {
                        lemma_sorted_unique(pre.paths(), i, i);
                        if pre.paths()[i] == p {
                            lemma_sorted_unique(pre.paths(), i, pos as int);
                        }
                    }
                }
                assert forall|q: Seq<u8>| #[trigger]
                    pre@.insert(p, c).dom().contains(q) implies self.paths().contains(q) by {
                    if q == p {
                        assert(self.paths()[pos as int] == q);
                    } else {
                        let i = pre.lemma_position(q);
                        assert(self.paths()[i] == q);
                    }
                }
                self.lemma_view_is(pre@.insert(p, c));
            }
        } else {
            self.entries.insert(pos, FileEntry { path, content });
            proof {
                assert(self.paths() =~= pre.paths().insert(pos as int, p));
                assert(self.contents() =~= pre.contents().insert(pos as int, c));
                assert forall|i: int, j: int| 0 <= i < j < self.paths().len() implies path_lt(
                    #[trigger] self.paths()[i],
                    #[trigger] self.paths()[j],
                ) by {
                    if i < pos && j > pos {
                        assert(self.paths()[i] == pre.paths()[i]);
                        assert(self.paths()[j] == pre.paths()[j - 1]);
                    }
                }
                assert forall|i: int| 0 <= i < self.paths().len() implies pre@.insert(
                    p,
                    c,
                ).dom().contains(#[trigger] self.paths()[i]) && pre@.insert(p, c)[self.paths()[i]]
                    == self.contents()[i] by {
                    if i < pos {
                        pre.lemma_entry(i);
                    } else if i > pos {
                        pre.lemma_entry(i - 1);
                    }
                }
                assert forall|q: Seq<u8>| #[trigger]
                    pre@.insert(p, c).dom().contains(q) implies self.paths().contains(q) by {
                    if q == p {
                        assert(self.paths()[pos as int] == q);
                    } else {
                        let i = pre.lemma_position(q);
                        if i < pos {
                            assert(self.paths()[i] == q);
                        } else {
                            assert(self.paths()[i + 1] == q);
                        }
                    }
                }
                self.lemma_view_is(pre@.insert(p, c));
            }
        }
    }

    /// Creates a file at `path` unless one is there already. Returns whether
    /// it was created; if not, the tree is unchanged.
    pub fn create_new(&mut self, path: RelPath, content: Vec<u8>) -> (created: bool)
        requires
            old(self).wf(),
        ensures
            final(self).wf(),
            created == !old(self)@.dom().contains(path@),
            created ==> final(self)@ == old(self)@.insert(path@, content@),
            !created ==> final(self)@ == old(self)@,
    {
        if self.contains(&path) {
            false
        } else {
            self.put(path, content);
            true
        }
    }

    /// Takes the file at `path` out of the tree and returns its content.
    pub fn remove(&mut self, path: &RelPath) -> (r: Option<Vec<u8>>)
        requires
            old(self).wf(),
        ensures
            final(self).wf(),
            r.is_some() == old(self)@.dom().contains(path@),
            r.is_some() ==> r.unwrap()@ == old(self)@[path@],
            final(self)@ == old(self)@.remove(path@),
    {
        let ghost pre = *self;
        let ghost p = path@;
        let (found, pos) = self.search(path);
        if !found {
            assert(pre@.remove(p) =~= pre@);
            return None;
        }
        let entry = self.entries.remove(pos);
        proof {
            pre.lemma_entry(pos as int);
            assert(self.paths() =~= pre.paths().remove(pos as int));
            assert(self.contents() =~= pre.contents().remove(pos as int));
            assert forall|i: int, j: int| 0 <= i < j < self.paths().len() implies path_lt(
                #[trigger] self.paths()[i],
                #[trigger] self.paths()[j],
            ) by {
                let i0 = if i < pos { i } else { i + 1 };
                let j0 = if j < pos { j } else { j + 1 };
                assert(self.paths()[i] == pre.paths()[i0]);
                assert(self.paths()[j] == pre.paths()[j0]);
            }
            assert forall|i: int| 0 <= i < self.paths().len() implies pre@.remove(
                p,
            ).dom().contains(#[trigger] self.paths()[i]) && pre@.remove(p)[self.paths()[i]]
                == self.contents()[i] by {
                let i0 = if i < pos { i } else { i + 1 };
                pre.lemma_entry(i0);
                if pre.paths()[i0] == p {
                    lemma_sorted_unique(pre.paths(), i0, pos as int);
                }
            }
            assert forall|q: Seq<u8>| #[trigger]
                pre@.remove(p).dom().contains(q) implies self.paths().contains(q) by {
                let i = pre.lemma_position(q);
                if i < pos {
                    assert(self.paths()[i] == q);
                } else {
                    assert(self.paths()[i - 1] == q);
                }
            }
            self.lemma_view_is(pre@.remove(p));
        }
        Some(entry.content)
    }

    /// Moves the file at `from` to `to`, replacing what was there. Returns
    /// whether there was a file at `from`; if not, the tree is unchanged.
    pub fn rename(&mut self, from: &RelPath, to: RelPath) -> (moved: bool)
        requires
            old(self).wf(),
        ensures
            final(self).wf(),
            moved == old(self)@.dom().contains(from@),
            moved ==> final(self)@ == old(self)@.remove(from@).insert(to@, old(self)@[from@]),
            !moved ==> final(self)@ == old(self)@,
    {
        match self.remove(from) {
            Some(content) => {
                self.put(to, content);
                true
            },
            None => {
                assert(self@ =~= old(self)@);
                false
            },
        }
    }

    /// Appends to the file at `path` the bytes of `data` from position
    /// `offset` to its end. Returns whether there was a file at `path`; if
    /// not, the tree is unchanged.
    pub fn append(&mut self, path: &RelPath, data: &Vec<u8>, offset: usize) -> (done: bool)
        requires
            old(self).wf(),
        ensures
            final(self).wf(),
            done == old(self)@.dom().contains(path@),
            done ==> final(self)@ == old(self)@.insert(
                path@,
                old(self)@[path@] + tail_from(data@, offset as int),
            ),
            !done ==> final(self)@ == old(self)@,
    {
        match self.remove(path) {
            Some(content) => {
                let mut content = content;
                let ghost grown = content@ + tail_from(data@, offset as int);
                if offset < data.len() {
                    let tail = vstd::slice::slice_subrange(data.as_slice(), offset, data.len());
                    assert(tail@ =~= tail_from(data@, offset as int));
                    content.extend_from_slice(tail);
                } else {
                    assert(content@ =~= grown);
                }
                assert(content@ == grown);
                self.put(path.clone(), content);
                assert(old(self)@.remove(path@).insert(
                    path@,
                    old(self)@[path@] + tail_from(data@, offset as int),
                ) =~= old(self)@.insert(
                    path@,
                    old(self)@[path@] + tail_from(data@, offset as int),
                ));
                true
            },
            None => {
                assert(self@ =~= old(self)@);
                false
            },
        }
    }
}

/// What `data` holds from position `offset` on; nothing if it is shorter.
pub open spec fn tail_from(data: Seq<u8>, offset: int) -> Seq<u8> {
    if 0 <= offset <= data.len() {
        data.skip(offset)
    } else {
        Seq::empty()
    }
}

} // verus!
