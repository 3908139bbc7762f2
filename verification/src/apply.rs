//! The model of applying a plan: temporary names, the three phases, and the
//! state of the destination tree between their steps.

use crate::model::{append_items, new_items, pruned, same_size};
use crate::path::{lemma_lt_extension, lemma_lt_transitive, path_lt, suffix, RelPath};
use crate::sync_item::SyncItem;
use crate::tree::FileTree;
use vstd::prelude::*;

verus! {

/// `p` with the suffix appended `k` times.
pub open spec fn suffixed(p: Seq<u8>, k: nat) -> Seq<u8>
    decreases k,
{
    if k == 0 {
        p
    } else {
        suffixed(p, (k - 1) as nat) + suffix()
    }
}

/// Appending the suffix `k` times, once at least, gives the first name for
/// `p` that is not occupied.
pub open spec fn free_at(occupied: Set<Seq<u8>>, p: Seq<u8>, k: nat) -> bool {
    &&& k >= 1
    &&& !occupied.contains(suffixed(p, k))
    &&& forall|j: nat| 1 <= j < k ==> occupied.contains(#[trigger] suffixed(p, j))
}

/// `t` is the temporary name for `p`: the first of `p.abakt`,
/// `p.abakt.abakt`, and so on, that is not occupied.
pub open spec fn is_temporary(occupied: Set<Seq<u8>>, p: Seq<u8>, t: Seq<u8>) -> bool {
    exists|k: nat| free_at(occupied, p, k) && t == suffixed(p, k)
}

/// A path sorts before each of its temporary names.
pub proof fn lemma_suffixed_greater(p: Seq<u8>, k: nat)
    requires
        k >= 1,
    ensures
        path_lt(p, suffixed(p, k)),
    decreases k,
{
    let before = suffixed(p, (k - 1) as nat);
    lemma_lt_extension(before, suffix());
    if k > 1 {
        lemma_suffixed_greater(p, (k - 1) as nat);
        lemma_lt_transitive(p, before, suffixed(p, k));
    }
}

/// There is one temporary name for a path at most.
pub proof fn lemma_temporary_unique(occupied: Set<Seq<u8>>, p: Seq<u8>, t: Seq<u8>, u: Seq<u8>)
    requires
        is_temporary(occupied, p, t),
        is_temporary(occupied, p, u),
    ensures
        t == u,
{
    let k = choose|k: nat| free_at(occupied, p, k) && t == suffixed(p, k);
    let j = choose|j: nat| free_at(occupied, p, j) && u == suffixed(p, j);
    if k < j {
        assert(occupied.contains(suffixed(p, k)));
    } else if j < k {
        assert(occupied.contains(suffixed(p, j)));
    }
}

/// One of the first `n` items moves the destination file at `q` away.
pub open spec fn moved_away(items: Seq<SyncItem>, n: int, q: Seq<u8>) -> bool {
    exists|a: int| 0 <= a < n && a < items.len() && (#[trigger] items[a]).dst@ == q
}

/// `q` is one of the temporary names from position `lo` up to `hi`.
pub open spec fn temporary_in(tmps: Seq<Seq<u8>>, lo: int, hi: int, q: Seq<u8>) -> bool {
    exists|a: int| 0 <= lo <= a < hi && a < tmps.len() && #[trigger] tmps[a] == q
}

/// One of the first `n` items has the file at `q` as its source.
pub open spec fn source_in(items: Seq<SyncItem>, n: int, q: Seq<u8>) -> bool {
    exists|a: int| 0 <= a < n && a < items.len() && (#[trigger] items[a]).src@ == q
}

/// The paths that are occupied when the temporary name of item `a` is
/// chosen: the destination files that no earlier item moved away, and the
/// temporary names of the earlier items.
pub open spec fn occupied_before(
    dst: Map<Seq<u8>, Seq<u8>>,
    items: Seq<SyncItem>,
    tmps: Seq<Seq<u8>>,
    a: int,
) -> Set<Seq<u8>> {
    Set::new(
        |q: Seq<u8>|
            (dst.dom().contains(q) && !moved_away(items, a, q)) || temporary_in(tmps, 0, a, q),
    )
}

/// The first `n` of `tmps` are the temporary names of the first `n` append
/// items, chosen one after the other.
pub open spec fn temporaries(
    dst: Map<Seq<u8>, Seq<u8>>,
    items: Seq<SyncItem>,
    tmps: Seq<Seq<u8>>,
    n: int,
) -> bool {
    &&& 0 <= n <= tmps.len()
    &&& n <= items.len()
    &&& forall|a: int|
        0 <= a < n ==> is_temporary(
            occupied_before(dst, items, tmps, a),
            items[a].src@,
            #[trigger] tmps[a],
        )
}

/// What the destination tree holds at `q` once the first `moved` append
/// items have their files extended under temporary names, the first `made`
/// new files are created, and the first `done` temporary files have their
/// final names; nothing if there is no file at `q` then.
pub open spec fn expected(
    dst: Map<Seq<u8>, Seq<u8>>,
    src: Map<Seq<u8>, Seq<u8>>,
    items: Seq<SyncItem>,
    tmps: Seq<Seq<u8>>,
    news: Seq<SyncItem>,
    moved: int,
    made: int,
    done: int,
    q: Seq<u8>,
) -> Option<Seq<u8>> {
    if temporary_in(tmps, done, moved, q) {
        let a = choose|a: int| 0 <= done <= a < moved && a < tmps.len() && #[trigger] tmps[a] == q;
        Some(src[items[a].src@])
    } else if source_in(items, done, q) || source_in(news, made, q) {
        Some(src[q])
    } else if dst.dom().contains(q) && !moved_away(items, moved, q) {
        Some(dst[q])
    } else {
        None
    }
}

/// `now` is the destination tree in the state that [`expected`] describes.
pub open spec fn applied(
    now: Map<Seq<u8>, Seq<u8>>,
    dst: Map<Seq<u8>, Seq<u8>>,
    src: Map<Seq<u8>, Seq<u8>>,
    items: Seq<SyncItem>,
    tmps: Seq<Seq<u8>>,
    news: Seq<SyncItem>,
    moved: int,
    made: int,
    done: int,
) -> bool {
    forall|q: Seq<u8>|
        {
            let e = #[trigger] expected(dst, src, items, tmps, news, moved, made, done, q);
            &&& now.dom().contains(q) == e.is_some()
            &&& now.dom().contains(q) ==> now[q] == e.unwrap()
        }
}

/// The destination tree after a complete run: it holds a file at every
/// source path and nowhere else; a file that counts as unchanged is what it
/// was, and every other file is a copy of its source.
pub open spec fn mirrored(src: FileTree, dst: FileTree) -> Map<Seq<u8>, Seq<u8>> {
    Map::new(
        |p: Seq<u8>| src@.dom().contains(p),
        |p: Seq<u8>|
            if same_size(src, dst, p) {
                dst@[p]
            } else {
                src@[p]
            },
    )
}

/// The plan that the phases work on.
pub open spec fn plan_context(
    src: FileTree,
    dst: FileTree,
    unmatched_src: Seq<Seq<u8>>,
    unmatched_dst: Seq<Seq<u8>>,
    same_count: int,
    items: Seq<SyncItem>,
    news: Seq<SyncItem>,
) -> bool {
    &&& pruned(src, dst, unmatched_src, unmatched_dst, same_count)
    &&& append_items(src, dst, unmatched_src, unmatched_dst, items)
    &&& new_items(src, unmatched_src, items, news)
}

/// No new file is to be created under a temporary name.
pub open spec fn no_collision(news: Seq<SyncItem>, made: int, tmps: Seq<Seq<u8>>) -> bool {
    forall|b: int, a: int|
        0 <= b < made && b < news.len() && 0 <= a < tmps.len() ==> (#[trigger] news[b]).src@
            != #[trigger] tmps[a]
}

/// A new file is to be created at a path that is occupied once the files of
/// the append items stand under their temporary names and the new files
/// before this one are created.
pub open spec fn collides_at(
    dst: Map<Seq<u8>, Seq<u8>>,
    src: Map<Seq<u8>, Seq<u8>>,
    items: Seq<SyncItem>,
    tmps: Seq<Seq<u8>>,
    news: Seq<SyncItem>,
    b: int,
) -> bool {
    expected(dst, src, items, tmps, news, items.len() as int, b, 0, news[b].src@).is_some()
}

/// Applying ended at the new item at position `b`, whose path `p` was
/// occupied while those of the new items before it were free, and left the
/// destination tree as `now`.
pub open spec fn stopped(
    now: Map<Seq<u8>, Seq<u8>>,
    dst: Map<Seq<u8>, Seq<u8>>,
    src: Map<Seq<u8>, Seq<u8>>,
    items: Seq<SyncItem>,
    tmps: Seq<Seq<u8>>,
    news: Seq<SyncItem>,
    p: Seq<u8>,
    b: int,
) -> bool {
    &&& 0 <= b < news.len()
    &&& p == news[b].src@
    &&& collides_at(dst, src, items, tmps, news, b)
    &&& forall|c: int| 0 <= c < b ==> !collides_at(dst, src, items, tmps, news, c)
    &&& applied(now, dst, src, items, tmps, news, items.len() as int, b, 0)
}

/// The temporary names that a list of moves records.
pub open spec fn temporary_names(moves: Seq<(RelPath, RelPath)>) -> Seq<Seq<u8>> {
    Seq::new(moves.len(), |a: int| moves[a].0@)
}

/// Chooses the temporary name for `path`: appends `.abakt` until the name
/// is that of no file of `tree`.
///
/// Each name tried sorts after the one before, so each is found further
/// along the tree, which ends the search.
pub fn build_tmp_path(tree: &FileTree, path: &RelPath) -> (tmp: RelPath)
    requires
        tree.wf(),
    ensures
        is_temporary(tree@.dom(), path@, tmp@),
{
    let mut tmp = path.with_suffix();
    let mut below: usize = 0;
    let ghost mut k: nat = 1;
    assert(suffixed(path@, 1) == suffixed(path@, 0) + suffix());
    loop
        invariant
            tree.wf(),
            k >= 1,
            tmp@ == suffixed(path@, k),
            forall|j: nat| 1 <= j < k ==> tree@.dom().contains(#[trigger] suffixed(path@, j)),
            below <= tree.paths().len(),
            forall|i: int| 0 <= i < below ==> path_lt(#[trigger] tree.paths()[i], tmp@),
        decreases tree.paths().len() - below,
    {
        let (found, pos) = tree.search(&tmp);
        if !found {
            assert(free_at(tree@.dom(), path@, k));
            return tmp;
        }
        let longer = tmp.with_suffix();
        proof {
            lemma_lt_extension(tmp@, suffix());
            if pos < below {
                crate::path::lemma_lt_irreflexive(tmp@);
            }
            assert forall|i: int| 0 <= i < pos + 1 implies path_lt(
                #[trigger] tree.paths()[i],
                longer@,
            ) by {
                if i < pos {
                    lemma_lt_transitive(tree.paths()[i], tmp@, longer@);
                }
            }
            k = k + 1;
        }
        tmp = longer;
        below = pos + 1;
    }
}

} // verus!
