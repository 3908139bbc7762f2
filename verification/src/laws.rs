//! What holds of every run.

use crate::aosync::{Aosync, Pruned, SyncPlan, SyncReport};
use crate::append_checker::is_prefix;
use crate::apply::mirrored;
use crate::error::SyncError;
use crate::model::{
    append_item, appends, corrupted, detected, explained, fails_at, first_corrupted,
    is_unchanged, matches_only, matches_several, no_corruption, passes, pruned, resolved,
    same_size, total_len, unchanged_paths,
};
use crate::path::{path_lt, RelPath};
use crate::random::{selects, CHECK_ALWAYS};
use crate::sync_item::SyncItem;
use crate::tree::{sorted_strict, FileTree};
use vstd::prelude::*;

verus! {

/// Filtering keeps a sorted sequence sorted.
proof fn lemma_filter_sorted(s: Seq<Seq<u8>>, keep: spec_fn(Seq<u8>) -> bool)
    requires
        sorted_strict(s),
    ensures
        sorted_strict(s.filter(keep)),
        forall|k: int| 0 <= k < s.filter(keep).len() ==> s.contains(#[trigger] s.filter(keep)[k]),
    decreases s.len(),
{
    reveal(Seq::filter);
    if s.len() > 0 {
        let front = s.drop_last();
        lemma_filter_sorted(front, keep);
        let kept = front.filter(keep);
        assert forall|k: int| 0 <= k < kept.len() implies s.contains(#[trigger] kept[k])
            && path_lt(kept[k], s.last()) by {
            assert(front.contains(kept[k]));
            let i = choose|i: int| 0 <= i < front.len() && front[i] == kept[k];
            assert(s[i] == kept[k]);
        }
        assert(s[s.len() - 1] == s.last());
    }
}

/// The unchanged files are listed in ascending order, and every file that
/// counts as unchanged is among them.
pub proof fn lemma_unchanged_paths(src: FileTree, dst: FileTree)
    requires
        src.wf(),
    ensures
        sorted_strict(unchanged_paths(src, dst)),
        forall|p: Seq<u8>|
            same_size(src, dst, p) <==> #[trigger] unchanged_paths(src, dst).contains(p),
{
    let keep = is_unchanged(src, dst);
    lemma_filter_sorted(src.paths(), keep);
    assert forall|p: Seq<u8>| same_size(src, dst, p) <==> #[trigger] unchanged_paths(
        src,
        dst,
    ).contains(p) by {
        if same_size(src, dst, p) {
            let i = src.lemma_position(p);
            assert(src.paths().contains(p));
            src.paths().lemma_filter_contains_rev(keep, p);
        }
        if unchanged_paths(src, dst).contains(p) {
            let k = choose|k: int|
                0 <= k < unchanged_paths(src, dst).len() && unchanged_paths(src, dst)[k] == p;
            src.paths().lemma_filter_pred(keep, k);
        }
    }
}

/// A run in which no file that differs is selected for verification, at a
/// level at which every file is selected, finds the trees free of such
/// files.
pub proof fn lemma_verified_sound(src: FileTree, dst: FileTree, check: u32, draws: Seq<u32>)
    requires
        src.wf(),
        passes(src, dst, check, draws),
        check >= CHECK_ALWAYS,
    ensures
        no_corruption(src, dst),
{
    lemma_unchanged_paths(src, dst);
    assert forall|p: Seq<u8>| !corrupted(src, dst, p) by {
        if corrupted(src, dst, p) {
            assert(unchanged_paths(src, dst).contains(p));
            let k = choose|k: int|
                0 <= k < unchanged_paths(src, dst).len() && unchanged_paths(src, dst)[k] == p;
            assert(selects(draws[k], check));
            assert(detected(src, dst, check, draws, k));
        }
    }
}

/// The file at which verification fails differs between the trees, at a
/// level above zero; at a level at which every file is selected it is the
/// first file that differs.
pub proof fn lemma_failure(src: FileTree, dst: FileTree, check: u32, draws: Seq<u32>, p: Seq<u8>)
    requires
        src.wf(),
        fails_at(src, dst, check, draws, p),
    ensures
        corrupted(src, dst, p),
        check > 0,
        check >= CHECK_ALWAYS ==> first_corrupted(src, dst, p),
{
    lemma_unchanged_paths(src, dst);
    let paths = unchanged_paths(src, dst);
    let last = draws.len() - 1;
    if check >= CHECK_ALWAYS {
        assert forall|q: Seq<u8>| corrupted(src, dst, q) implies q == p || path_lt(p, q) by {
            assert(paths.contains(q));
            let k = choose|k: int| 0 <= k < paths.len() && paths[k] == q;
            if k < last {
                assert(selects(draws[k], check));
                assert(detected(src, dst, check, draws, k));
            } else if k > last {
                assert(path_lt(paths[last], paths[k]));
            }
        }
    }
}

/// Verification cannot fail where no file that counts as unchanged
/// differs, nor at level zero.
pub proof fn lemma_no_failure(src: FileTree, dst: FileTree, check: u32, draws: Seq<u32>, p: Seq<u8>)
    requires
        no_corruption(src, dst) || check == 0,
    ensures
        !fails_at(src, dst, check, draws, p),
{
    if fails_at(src, dst, check, draws, p) {
        assert(detected(src, dst, check, draws, draws.len() - 1));
        assert(corrupted(src, dst, p));
    }
}

/// At a level at which every file is selected, pruning two trees of which
/// a file counts as unchanged but differs fails, whatever is drawn, and
/// reports the first such file.
pub proof fn lemma_corruption_detected(
    run: Aosync,
    draws: Seq<u32>,
    r: Result<Pruned, SyncError>,
    p: Seq<u8>,
)
    requires
        run.source().wf(),
        run.pruning_post(draws, r),
        run.check_level() >= CHECK_ALWAYS,
        corrupted(run.source(), run.destination(), p),
    ensures
        r matches Err(SyncError::Corrupted(q)) && first_corrupted(
            run.source(),
            run.destination(),
            q@,
        ),
{
    match r {
        Ok(_) => {
            lemma_verified_sound(run.source(), run.destination(), run.check_level(), draws);
        },
        Err(SyncError::Corrupted(q)) => {
            lemma_failure(run.source(), run.destination(), run.check_level(), draws, q@);
        },
        Err(_) => {},
    }
}

/// A destination file that is the prefix of more than one listed source
/// file keeps the moves from being resolved.
pub proof fn lemma_ambiguity_detected(
    src: FileTree,
    dst: FileTree,
    list_src: Seq<Seq<u8>>,
    list_dst: Seq<Seq<u8>>,
    r: Result<Vec<SyncItem>, SyncError>,
    t: int,
)
    requires
        resolved(src, dst, list_src, list_dst, r),
        0 <= t < list_dst.len(),
        matches_several(src, dst, list_src, list_dst[t]),
    ensures
        r is Err,
{
    if r is Ok {
        assert(explained(src, dst, list_src, list_dst[t]));
        let k = choose|k: int| matches_only(src, dst, list_src, list_dst[t], k);
        let (i, j) = choose|i: int, j: int|
            0 <= i < j < list_src.len() && appends(src, dst, #[trigger] list_src[i], list_dst[t])
                && appends(src, dst, #[trigger] list_src[j], list_dst[t]);
        if i != k {
            assert(!appends(src, dst, list_src[i], list_dst[t]));
        } else {
            assert(!appends(src, dst, list_src[j], list_dst[t]));
        }
    }
}

/// Every plan partitions the source files: each one is unchanged, the
/// target of an append item, or the subject of a new item, so the three
/// counts add up to the number of source files.
pub proof fn lemma_partition(run: Aosync, draws: Seq<u32>, plan: SyncPlan)
    requires
        run.planning_post(draws, Ok(plan)),
    ensures
        plan.same_count + plan.append_items@.len() + plan.new_items@.len()
            == run.source().paths().len(),
{
}

/// The append items of a plan pair destination files with source files one
/// to one: no two of them have the same destination file, and no two the
/// same source file.
pub proof fn lemma_one_to_one(run: Aosync, draws: Seq<u32>, plan: SyncPlan, a: int, b: int)
    requires
        run.planning_post(draws, Ok(plan)),
        0 <= a < plan.append_items@.len(),
        0 <= b < plan.append_items@.len(),
        a != b,
    ensures
        plan.append_items@[a].src@ != plan.append_items@[b].src@,
        plan.append_items@[a].dst@ != plan.append_items@[b].dst@,
{
    let items = plan.append_items@;
    if a < b {
        assert(path_lt(items[a].src@, items[b].src@));
        crate::path::lemma_lt_irreflexive(items[a].src@);
        assert(items[a].dst@ != items[b].dst@);
    } else {
        assert(path_lt(items[b].src@, items[a].src@));
        crate::path::lemma_lt_irreflexive(items[a].src@);
        assert(items[b].dst@ != items[a].dst@);
    }
}

/// After a run that applied its plan, the destination tree holds at every
/// source path what the source tree holds there, and holds nothing else,
/// provided that no file that counts as unchanged differed before the run.
/// That is so in particular when every such file was verified.
pub proof fn lemma_mirror(
    run: Aosync,
    draws: Seq<u32>,
    after: FileTree,
    r: Result<SyncReport, SyncError>,
)
    requires
        run.source().wf(),
        run.run_post(draws, after, r),
        r is Ok,
        !run.is_dry(),
        run.check_level() >= CHECK_ALWAYS || no_corruption(run.source(), run.destination()),
    ensures
        after@ == run.source()@,
{
    let src = run.source();
    let dst = run.destination();
    if run.check_level() >= CHECK_ALWAYS {
        lemma_verified_sound(src, dst, run.check_level(), draws);
    }
    assert forall|p: Seq<u8>| src@.dom().contains(p) implies #[trigger] mirrored(src, dst)[p]
        == src@[p] by {
        assert(!corrupted(src, dst, p));
    }
    assert(mirrored(src, dst) =~= src@);
}

/// An append item of a run that applied its plan starts where its
/// destination file ended, that file was a prefix of the source file, and
/// afterwards the destination holds the whole source file under the source's
/// path.
pub proof fn lemma_append(
    run: Aosync,
    draws: Seq<u32>,
    after: FileTree,
    r: Result<SyncReport, SyncError>,
    item: SyncItem,
)
    requires
        run.run_post(draws, after, r),
        r is Ok,
        !run.is_dry(),
        r->Ok_0.plan.append_items@.contains(item),
    ensures
        run.destination()@.dom().contains(item.dst@),
        run.source()@.dom().contains(item.src@),
        is_prefix(run.destination()@[item.dst@], run.source()@[item.src@]),
        item.offset == run.destination()@[item.dst@].len(),
        item.offset + item.len == run.source()@[item.src@].len(),
        after@.dom().contains(item.src@),
        after@[item.src@] == run.source()@[item.src@],
{
    let plan = r->Ok_0.plan;
    let (unmatched_src, unmatched_dst) = choose|
        unmatched_src: Seq<Seq<u8>>,
        unmatched_dst: Seq<Seq<u8>>,
    | run.planned(unmatched_src, unmatched_dst, plan);
    let a = choose|a: int| 0 <= a < plan.append_items@.len() && plan.append_items@[a] == item;
    assert(append_item(run.source(), run.destination(), plan.append_items@[a]));
    assert(unmatched_src.contains(plan.append_items@[a].src@));
}

/// A second run finds nothing to do: when a run has applied its plan, and
/// no file that counted as unchanged differed, another run on the same
/// source counts every source file as unchanged, plans no item and no byte,
/// and leaves the destination as it is, whatever its random source hands
/// out. The limit has to be positive: a limit of zero is reached by a run
/// that transfers nothing.
pub proof fn lemma_second_run(
    first: Aosync,
    draws1: Seq<u32>,
    r1: Result<SyncReport, SyncError>,
    second: Aosync,
    draws2: Seq<u32>,
    last: FileTree,
    r2: Result<SyncReport, SyncError>,
)
    requires
        first.source().wf(),
        first.run_post(draws1, second.destination(), r1),
        r1 is Ok,
        !first.is_dry(),
        first.check_level() >= CHECK_ALWAYS || no_corruption(first.source(), first.destination()),
        second.source() == first.source(),
        second.transfer_limit() > 0,
        second.run_post(draws2, last, r2),
    ensures
        r2 is Ok,
        r2->Ok_0.plan.same_count == first.source().paths().len(),
        r2->Ok_0.plan.append_items@.len() == 0,
        r2->Ok_0.plan.new_items@.len() == 0,
        r2->Ok_0.plan.new_len == 0,
        r2->Ok_0.plan.move_len == 0,
        last@ == second.destination()@,
{
    lemma_mirror(first, draws1, second.destination(), r1);
    let src = second.source();
    let dst = second.destination();
    assert(dst@ == src@);
    assert(no_corruption(src, dst));
    assert forall|p: Seq<u8>| src@.dom().contains(p) implies same_size(src, dst, p) by {}
    match r2 {
        Ok(report) => {
            let plan = report.plan;
            let (unmatched_src, unmatched_dst) = choose|
                unmatched_src: Seq<Seq<u8>>,
                unmatched_dst: Seq<Seq<u8>>,
            | second.planned(unmatched_src, unmatched_dst, plan);
            lemma_nothing_unmatched(src, dst, unmatched_src, unmatched_dst, plan.same_count as int);
            if plan.new_items@.len() > 0 {
                assert(unmatched_src.contains(plan.new_items@[0].src@));
            }
            assert(plan.new_items@.len() == 0);
            assert(plan.append_items@.len() == 0);
            assert(total_len(plan.new_items@) == 0);
            assert(total_len(plan.append_items@) == 0);
            if !second.is_dry() {
                assert(mirrored(src, dst) =~= dst@);
            }
        },
        Err(SyncError::Corrupted(p)) => {
            lemma_no_failure(src, dst, second.check_level(), draws2, p@);
        },
        Err(SyncError::AlreadyExists(p)) => {
            let (plan, moves, b) = choose|plan: SyncPlan, moves: Seq<(RelPath, RelPath)>, b: int|
                #[trigger] second.stopped_at(draws2, last, p@, plan, moves, b);
            let (unmatched_src, unmatched_dst) = choose|
                unmatched_src: Seq<Seq<u8>>,
                unmatched_dst: Seq<Seq<u8>>,
            | second.planned(unmatched_src, unmatched_dst, plan);
            lemma_nothing_unmatched(src, dst, unmatched_src, unmatched_dst, plan.same_count as int);
            assert(unmatched_src.contains(plan.new_items@[b].src@));
        },
        Err(SyncError::LimitExceeded) => {
            let (unmatched_src, unmatched_dst, plan) = choose|
                unmatched_src: Seq<Seq<u8>>,
                unmatched_dst: Seq<Seq<u8>>,
                plan: SyncPlan,
            |
                second.planned(unmatched_src, unmatched_dst, plan) && total_len(
                    plan.new_items@,
                ) + total_len(plan.append_items@) >= second.transfer_limit();
            lemma_nothing_unmatched(src, dst, unmatched_src, unmatched_dst, plan.same_count as int);
            if plan.new_items@.len() > 0 {
                assert(unmatched_src.contains(plan.new_items@[0].src@));
            }
            assert(total_len(plan.new_items@) == 0);
            assert(total_len(plan.append_items@) == 0);
        },
        Err(e) => {
            let (unmatched_src, unmatched_dst, same_count) = choose|
                unmatched_src: Seq<Seq<u8>>,
                unmatched_dst: Seq<Seq<u8>>,
                same_count: int,
            |
                pruned(src, dst, unmatched_src, unmatched_dst, same_count) && resolved(
                    src,
                    dst,
                    unmatched_src,
                    unmatched_dst,
                    Err(e),
                );
            lemma_nothing_unmatched(src, dst, unmatched_src, unmatched_dst, same_count);
        },
    }
}

/// Between two trees that hold the same files nothing is left unmatched.
proof fn lemma_nothing_unmatched(
    src: FileTree,
    dst: FileTree,
    unmatched_src: Seq<Seq<u8>>,
    unmatched_dst: Seq<Seq<u8>>,
    same_count: int,
)
    requires
        dst@ == src@,
        pruned(src, dst, unmatched_src, unmatched_dst, same_count),
    ensures
        unmatched_src.len() == 0,
        unmatched_dst.len() == 0,
        same_count == src.paths().len(),
{
    if unmatched_src.len() > 0 {
        assert(unmatched_src.contains(unmatched_src[0]));
    }
    if unmatched_dst.len() > 0 {
        assert(unmatched_dst.contains(unmatched_dst[0]));
    }
}

} // verus!
