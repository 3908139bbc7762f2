//! The pruner: a walk through both trees in path order.

use crate::aosync::{Aosync, Pruned};
use crate::append_checker::lemma_prefix_equal_length;
use crate::error::SyncError;
use crate::file_list::FileList;
use crate::model::{
    corrupted, detected, fails_at, is_unchanged, passes, pruned, same_size, unchanged_paths,
};
use crate::path::{lemma_lt_irreflexive, lemma_lt_transitive, path_lt, Comparison};
use crate::random::{drawn, lemma_drawn_more, lemma_drawn_nothing, selected, selects};
use crate::tree::{sorted_strict, FileTree};
use vstd::prelude::*;

verus! {

impl Aosync {
    /// What a call of [`Self::quick_pruning`] returns when its random source
    /// hands out `draws`: what pruning leaves over, if no draw selects an
    /// unchanged file that differs, and otherwise the first file so selected.
    pub open spec fn pruning_post(&self, draws: Seq<u32>, r: Result<Pruned, SyncError>) -> bool {
        match r {
            Ok(p) => {
                &&& pruned(
                    self.source(),
                    self.destination(),
                    p.unmatched_src@,
                    p.unmatched_dst@,
                    p.same_count as int,
                )
                &&& passes(self.source(), self.destination(), self.check_level(), draws)
            },
            Err(SyncError::Corrupted(p)) => fails_at(
                self.source(),
                self.destination(),
                self.check_level(),
                draws,
                p@,
            ),
            Err(_) => false,
        }
    }

    /// Separates the files that count as unchanged from those that need
    /// content analysis.
    ///
    /// Both trees are walked in path order. A path that only one of them has
    /// is unmatched. A path that both have is unmatched in both if the two
    /// files differ in length, and counts as unchanged if not. For each
    /// unchanged file a number is drawn; if the draw selects the file at the
    /// verification level of the run, source and destination are compared in
    /// full, and a difference ends the run.
    pub fn quick_pruning(&mut self) -> (r: Result<Pruned, SyncError>)
        requires
            old(self).wf(),
        ensures
            final(self).wf(),
            final(self).destination() == old(self).destination(),
            exists|draws: Seq<u32>|
                old(self).drew(*final(self), draws) && #[trigger] old(self).pruning_post(draws, r),
    {
        let ghost before = *self;
        let ghost mut draws: Seq<u32> = Seq::empty();
        let src = &self.src;
        let dst = &self.dst;
        let n = src.len();
        let m = dst.len();
        let mut list_src = FileList::new();
        let mut list_dst = FileList::new();
        let mut same_count: usize = 0;
        let mut i: usize = 0;
        let mut j: usize = 0;
        proof {
            lemma_drawn_nothing(before.random.script());
            lemma_verified_nothing(*src, *dst, self.check);
        }
        while i < n && j < m
            invariant
                self.wf(),
                before == *old(self),
                *src == before.src,
                *dst == before.dst,
                self.src == before.src,
                self.dst == before.dst,
                self.dry == before.dry,
                self.check == before.check,
                self.limit == before.limit,
                self.append_checker == before.append_checker,
                drawn(before.random.script(), draws, self.random.script()),
                verified_upto(*src, *dst, self.check, draws, i as int),
                draws.len() == same_count,
                n == src.paths().len(),
                m == dst.paths().len(),
                i <= n,
                j <= m,
                list_src.wf(),
                list_dst.wf(),
                listed_upto(list_src@, src.paths(), i as int, *src, *dst),
                listed_upto(list_dst@, dst.paths(), j as int, *src, *dst),
                same_count + list_src@.len() == i,
                same_count + list_dst@.len() == j,
                forall|k: int| 0 <= k < j && i < n ==> path_lt(#[trigger] dst.paths()[k], src.paths()[i as int]),
                forall|k: int| 0 <= k < i && j < m ==> path_lt(#[trigger] src.paths()[k], dst.paths()[j as int]),
            decreases (n - i) + (m - j),
        {
            let p_src = src.path_at(i);
            let p_dst = dst.path_at(j);
            match p_src.compare(p_dst) {
                Comparison::Less => {
                    proof {
                        lemma_absent(*dst, j as int, p_src@);
                        lemma_listed_push(list_src@, src.paths(), i as int, *src, *dst);
                        lemma_push_ordered(list_src@, src.paths(), i as int, *src, *dst);
                        lemma_advance(src.paths(), dst.paths(), i as int, j as int);
                        lemma_verified_skip(*src, *dst, self.check, draws, i as int);
                    }
                    list_src.push(p_src.clone());
                    i += 1;
                },
                Comparison::Greater => {
                    proof {
                        lemma_absent(*src, i as int, p_dst@);
                        lemma_listed_push(list_dst@, dst.paths(), j as int, *src, *dst);
                        lemma_push_ordered(list_dst@, dst.paths(), j as int, *src, *dst);
                        lemma_advance(dst.paths(), src.paths(), j as int, i as int);
                    }
                    list_dst.push(p_dst.clone());
                    j += 1;
                },
                Comparison::Equal => {
                    let c_src = src.content_at(i);
                    let c_dst = dst.content_at(j);
                    proof {
                        src.lemma_entry(i as int);
                        dst.lemma_entry(j as int);
                        lemma_advance_both(src.paths(), dst.paths(), i as int, j as int);
                        lemma_advance_both(dst.paths(), src.paths(), j as int, i as int);
                    }
                    if c_src.len() != c_dst.len() {
                        proof {
                            lemma_listed_push(list_src@, src.paths(), i as int, *src, *dst);
                            lemma_push_ordered(list_src@, src.paths(), i as int, *src, *dst);
                            lemma_listed_push(list_dst@, dst.paths(), j as int, *src, *dst);
                            lemma_push_ordered(list_dst@, dst.paths(), j as int, *src, *dst);
                            lemma_verified_skip(*src, *dst, self.check, draws, i as int);
                        }
                        list_src.push(p_src.clone());
                        list_dst.push(p_dst.clone());
                    } else {
                        proof {
                            lemma_prefix_equal_length(c_dst@, c_src@);
                            lemma_listed_skip(list_src@, src.paths(), i as int, *src, *dst);
                            lemma_listed_skip(list_dst@, dst.paths(), j as int, *src, *dst);
                        }
                        let ghost state = self.random.script();
                        let draw = self.random.draw();
                        proof {
                            lemma_drawn_more(
                                before.random.script(),
                                draws,
                                state,
                                draw,
                                self.random.script(),
                            );
                        }
                        if selected(draw, self.check) {
                            if !self.append_checker.is_append_of(c_src, c_dst) {
                                proof {
                                    lemma_verified_fail(
                                        *src,
                                        *dst,
                                        self.check,
                                        draws,
                                        draw,
                                        i as int,
                                    );
                                    draws = draws.push(draw);
                                }
                                let r = Err(SyncError::Corrupted(p_dst.clone()));
                                assert(before.pruning_post(draws, r));
                                return r;
                            }
                        }
                        proof {
                            lemma_verified_pass(*src, *dst, self.check, draws, draw, i as int);
                            draws = draws.push(draw);
                        }
                        same_count += 1;
                    }
                    i += 1;
                    j += 1;
                },
            }
        }
        while i < n
            invariant
                *src == before.src,
                *dst == before.dst,
                src.wf(),
                dst.wf(),
                verified_upto(*src, *dst, self.check, draws, i as int),
                n == src.paths().len(),
                m == dst.paths().len(),
                i <= n,
                j <= m,
                i < n ==> j == m,
                list_src.wf(),
                listed_upto(list_src@, src.paths(), i as int, *src, *dst),
                same_count + list_src@.len() == i,
                forall|k: int| 0 <= k < j && i < n ==> path_lt(#[trigger] dst.paths()[k], src.paths()[i as int]),
            decreases n - i,
        {
            let p_src = src.path_at(i);
            proof {
                lemma_absent(*dst, j as int, p_src@);
                lemma_listed_push(list_src@, src.paths(), i as int, *src, *dst);
                lemma_push_ordered(list_src@, src.paths(), i as int, *src, *dst);
                lemma_advance(src.paths(), dst.paths(), i as int, j as int);
                lemma_verified_skip(*src, *dst, self.check, draws, i as int);
            }
            list_src.push(p_src.clone());
            i += 1;
        }
        while j < m
            invariant
                *src == before.src,
                *dst == before.dst,
                src.wf(),
                dst.wf(),
                n == src.paths().len(),
                m == dst.paths().len(),
                i == n,
                j <= m,
                list_dst.wf(),
                listed_upto(list_dst@, dst.paths(), j as int, *src, *dst),
                same_count + list_dst@.len() == j,
                forall|k: int| 0 <= k < i && j < m ==> path_lt(#[trigger] src.paths()[k], dst.paths()[j as int]),
            decreases m - j,
        {
            let p_dst = dst.path_at(j);
            proof {
                lemma_absent(*src, i as int, p_dst@);
                lemma_listed_push(list_dst@, dst.paths(), j as int, *src, *dst);
                lemma_push_ordered(list_dst@, dst.paths(), j as int, *src, *dst);
                lemma_advance(dst.paths(), src.paths(), j as int, i as int);
            }
            list_dst.push(p_dst.clone());
            j += 1;
        }
        proof {
            lemma_listed_all(list_src@, *src, *src, *dst);
            lemma_listed_all(list_dst@, *dst, *src, *dst);
            lemma_verified_all(*src, *dst, self.check, draws);
        }
        let r = Ok(Pruned { unmatched_src: list_src, unmatched_dst: list_dst, same_count });
        assert(before.pruning_post(draws, r));
        r
    }
}

/// With one draw for each unchanged file among the first `i` of the source,
/// no file that differs was selected for verification.
spec fn verified_upto(src: FileTree, dst: FileTree, check: u32, draws: Seq<u32>, i: int) -> bool {
    let seen = src.paths().take(i).filter(is_unchanged(src, dst));
    &&& draws.len() == seen.len()
    &&& seen.is_prefix_of(unchanged_paths(src, dst))
    &&& forall|k: int| 0 <= k < draws.len() ==> !detected(src, dst, check, draws, k)
}

/// The unchanged files among the first `i + 1` of the source are those among
/// the first `i`, and the file at `i` if it is unchanged.
proof fn lemma_seen_next(src: FileTree, dst: FileTree, i: int)
    requires
        0 <= i < src.paths().len(),
    ensures
        src.paths().take(i + 1).filter(is_unchanged(src, dst)) == if same_size(
            src,
            dst,
            src.paths()[i],
        ) {
            src.paths().take(i).filter(is_unchanged(src, dst)).push(src.paths()[i])
        } else {
            src.paths().take(i).filter(is_unchanged(src, dst))
        },
        src.paths().take(i + 1).filter(is_unchanged(src, dst)).is_prefix_of(
            unchanged_paths(src, dst),
        ),
{
    let paths = src.paths();
    assert(paths.take(i + 1) =~= paths.take(i).push(paths[i]));
    paths.take(i).lemma_filter_push(paths[i], is_unchanged(src, dst));
    paths.take(i + 1).lemma_filter_monotone(paths, is_unchanged(src, dst));
}

/// Before the walk nothing is drawn and nothing seen.
proof fn lemma_verified_nothing(src: FileTree, dst: FileTree, check: u32)
    ensures
        verified_upto(src, dst, check, Seq::empty(), 0),
{
    let paths = src.paths();
    assert(paths.take(0) =~= Seq::<Seq<u8>>::empty());
    paths.take(0).lemma_filter_monotone(paths, is_unchanged(src, dst));
    paths.take(0).lemma_filter_len(is_unchanged(src, dst));
}

/// A file that does not count as unchanged takes no draw.
proof fn lemma_verified_skip(src: FileTree, dst: FileTree, check: u32, draws: Seq<u32>, i: int)
    requires
        0 <= i < src.paths().len(),
        verified_upto(src, dst, check, draws, i),
        !same_size(src, dst, src.paths()[i]),
    ensures
        verified_upto(src, dst, check, draws, i + 1),
{
    lemma_seen_next(src, dst, i);
}

/// An unchanged file whose draw does not select it, or which does not
/// differ, passes.
proof fn lemma_verified_pass(
    src: FileTree,
    dst: FileTree,
    check: u32,
    draws: Seq<u32>,
    d: u32,
    i: int,
)
    requires
        0 <= i < src.paths().len(),
        verified_upto(src, dst, check, draws, i),
        same_size(src, dst, src.paths()[i]),
        !(selects(d, check) && corrupted(src, dst, src.paths()[i])),
    ensures
        verified_upto(src, dst, check, draws.push(d), i + 1),
{
    lemma_seen_next(src, dst, i);
    let more = draws.push(d);
    let seen = src.paths().take(i + 1).filter(is_unchanged(src, dst));
    assert(unchanged_paths(src, dst)[draws.len() as int] == seen[draws.len() as int]);
    assert forall|k: int| 0 <= k < more.len() implies !detected(src, dst, check, more, k) by {
        if k < draws.len() {
            assert(more[k] == draws[k]);
            assert(!detected(src, dst, check, draws, k));
        }
    }
}

/// An unchanged file that its draw selects and that differs ends the walk.
proof fn lemma_verified_fail(
    src: FileTree,
    dst: FileTree,
    check: u32,
    draws: Seq<u32>,
    d: u32,
    i: int,
)
    requires
        0 <= i < src.paths().len(),
        verified_upto(src, dst, check, draws, i),
        same_size(src, dst, src.paths()[i]),
        selects(d, check),
        corrupted(src, dst, src.paths()[i]),
    ensures
        fails_at(src, dst, check, draws.push(d), src.paths()[i]),
{
    lemma_seen_next(src, dst, i);
    let more = draws.push(d);
    let seen = src.paths().take(i + 1).filter(is_unchanged(src, dst));
    assert(unchanged_paths(src, dst)[draws.len() as int] == seen[draws.len() as int]);
    assert forall|k: int| 0 <= k < more.len() - 1 implies !detected(src, dst, check, more, k) by {
        assert(more[k] == draws[k]);
        assert(!detected(src, dst, check, draws, k));
    }
}

/// At the end of the source every unchanged file has passed.
proof fn lemma_verified_all(src: FileTree, dst: FileTree, check: u32, draws: Seq<u32>)
    requires
        verified_upto(src, dst, check, draws, src.paths().len() as int),
    ensures
        passes(src, dst, check, draws),
{
    assert(src.paths().take(src.paths().len() as int) =~= src.paths());
}

/// `list` holds exactly those of the first `upto` paths of `paths` that do
/// not count as unchanged.
spec fn listed_upto(
    list: Seq<Seq<u8>>,
    paths: Seq<Seq<u8>>,
    upto: int,
    src: FileTree,
    dst: FileTree,
) -> bool {
    forall|p: Seq<u8>|
        list.contains(p) <==> (exists|k: int|
            0 <= k < upto && #[trigger] paths[k] == p && !same_size(src, dst, p))
}

/// A path that does not count as unchanged joins the list.
proof fn lemma_listed_push(
    list: Seq<Seq<u8>>,
    paths: Seq<Seq<u8>>,
    upto: int,
    src: FileTree,
    dst: FileTree,
)
    requires
        0 <= upto < paths.len(),
        listed_upto(list, paths, upto, src, dst),
        !same_size(src, dst, paths[upto]),
    ensures
        listed_upto(list.push(paths[upto]), paths, upto + 1, src, dst),
{
    let grown = list.push(paths[upto]);
    assert forall|p: Seq<u8>| grown.contains(p) <==> (exists|k: int|
        0 <= k < upto + 1 && #[trigger] paths[k] == p && !same_size(src, dst, p)) by {
        if grown.contains(p) {
            let idx = choose|idx: int| 0 <= idx < grown.len() && grown[idx] == p;
            if idx < list.len() {
                assert(list[idx] == p);
                assert(list.contains(p));
                let k = choose|k: int|
                    0 <= k < upto && #[trigger] paths[k] == p && !same_size(src, dst, p);
                assert(0 <= k < upto + 1 && paths[k] == p);
            } else {
                assert(paths[upto] == p);
            }
        }
        if exists|k: int| 0 <= k < upto + 1 && #[trigger] paths[k] == p && !same_size(src, dst, p) {
            let k = choose|k: int|
                0 <= k < upto + 1 && #[trigger] paths[k] == p && !same_size(src, dst, p);
            if k < upto {
                assert(list.contains(p));
                let idx = choose|idx: int| 0 <= idx < list.len() && list[idx] == p;
                assert(grown[idx] == p);
            } else {
                assert(grown[list.len() as int] == p);
            }
        }
    }
}

/// A path that counts as unchanged stays off the list.
proof fn lemma_listed_skip(
    list: Seq<Seq<u8>>,
    paths: Seq<Seq<u8>>,
    upto: int,
    src: FileTree,
    dst: FileTree,
)
    requires
        0 <= upto < paths.len(),
        listed_upto(list, paths, upto, src, dst),
        same_size(src, dst, paths[upto]),
    ensures
        listed_upto(list, paths, upto + 1, src, dst),
{
    assert forall|p: Seq<u8>| list.contains(p) <==> (exists|k: int|
        0 <= k < upto + 1 && #[trigger] paths[k] == p && !same_size(src, dst, p)) by {
        if list.contains(p) {
            let k = choose|k: int|
                0 <= k < upto && #[trigger] paths[k] == p && !same_size(src, dst, p);
            assert(0 <= k < upto + 1 && paths[k] == p);
        }
    }
}

/// A path that sorts after the first `upto` paths of a tree and before all
/// the others is not in the tree.
proof fn lemma_absent(tree: FileTree, upto: int, p: Seq<u8>)
    requires
        tree.wf(),
        0 <= upto <= tree.paths().len(),
        forall|k: int| 0 <= k < upto ==> path_lt(#[trigger] tree.paths()[k], p),
        upto < tree.paths().len() ==> path_lt(p, tree.paths()[upto]),
    ensures
        !tree@.dom().contains(p),
{
    if tree@.dom().contains(p) {
        let t = tree.lemma_position(p);
        lemma_lt_irreflexive(p);
        if t > upto {
            lemma_lt_transitive(p, tree.paths()[upto], tree.paths()[t]);
        }
    }
}

/// The path at `upto` sorts after everything listed so far.
proof fn lemma_push_ordered(
    list: Seq<Seq<u8>>,
    paths: Seq<Seq<u8>>,
    upto: int,
    src: FileTree,
    dst: FileTree,
)
    requires
        0 <= upto < paths.len(),
        sorted_strict(paths),
        listed_upto(list, paths, upto, src, dst),
    ensures
        list.len() > 0 ==> path_lt(list.last(), paths[upto]),
{
    if list.len() > 0 {
        assert(list.contains(list.last()));
        let k = choose|k: int|
            0 <= k < upto && #[trigger] paths[k] == list.last() && !same_size(src, dst, list.last());
        assert(path_lt(paths[k], paths[upto]));
    }
}

/// After `a[i]` was found to sort before `b[j]`, the walk may go on to
/// `a[i + 1]`.
proof fn lemma_advance(a: Seq<Seq<u8>>, b: Seq<Seq<u8>>, i: int, j: int)
    requires
        sorted_strict(a),
        0 <= i < a.len(),
        0 <= j <= b.len(),
        forall|k: int| 0 <= k < j ==> path_lt(#[trigger] b[k], a[i]),
        forall|k: int| 0 <= k < i && j < b.len() ==> path_lt(#[trigger] a[k], b[j]),
        j < b.len() ==> path_lt(a[i], b[j]),
    ensures
        forall|k: int| 0 <= k < j && i + 1 < a.len() ==> path_lt(#[trigger] b[k], a[i + 1]),
        forall|k: int| 0 <= k < i + 1 && j < b.len() ==> path_lt(#[trigger] a[k], b[j]),
{
    assert forall|k: int| 0 <= k < j && i + 1 < a.len() implies path_lt(
        #[trigger] b[k],
        a[i + 1],
    ) by {
        lemma_lt_transitive(b[k], a[i], a[i + 1]);
    }
}

/// After `a[i]` and `b[j]` were found equal, the walk may go on in both.
proof fn lemma_advance_both(a: Seq<Seq<u8>>, b: Seq<Seq<u8>>, i: int, j: int)
    requires
        sorted_strict(a),
        sorted_strict(b),
        0 <= i < a.len(),
        0 <= j < b.len(),
        a[i] == b[j],
        forall|k: int| 0 <= k < j ==> path_lt(#[trigger] b[k], a[i]),
    ensures
        forall|k: int|
            0 <= k < j + 1 && i + 1 < a.len() ==> path_lt(#[trigger] b[k], a[i + 1]),
{
    assert forall|k: int| 0 <= k < j + 1 && i + 1 < a.len() implies path_lt(
        #[trigger] b[k],
        a[i + 1],
    ) by {
        if k < j {
            lemma_lt_transitive(b[k], a[i], a[i + 1]);
        }
    }
}

/// Once every path of a tree was looked at, the list holds what the whole
/// tree has of files that do not count as unchanged.
proof fn lemma_listed_all(list: Seq<Seq<u8>>, tree: FileTree, src: FileTree, dst: FileTree)
    requires
        tree.wf(),
        listed_upto(list, tree.paths(), tree.paths().len() as int, src, dst),
    ensures
        forall|p: Seq<u8>| list.contains(p) <==> tree@.dom().contains(p) && !same_size(src, dst, p),
{
    assert forall|p: Seq<u8>| list.contains(p) <==> tree@.dom().contains(p) && !same_size(
        src,
        dst,
        p,
    ) by {
        if list.contains(p) {
            let k = choose|k: int|
                0 <= k < tree.paths().len() && #[trigger] tree.paths()[k] == p && !same_size(
                    src,
                    dst,
                    p,
                );
            tree.lemma_entry(k);
        }
        if tree@.dom().contains(p) && !same_size(src, dst, p) {
            let k = tree.lemma_position(p);
            assert(tree.paths()[k] == p);
        }
    }
}

} // verus!
