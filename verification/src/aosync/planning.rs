//! The planner: the complete plan, its counts and its size.

use crate::aosync::{Aosync, SyncPlan};
use crate::error::SyncError;
use crate::file_list::FileList;
use crate::model::{
    all_present, capped, claimed, fails_at, lemma_total_len_nonnegative, new_item, new_items,
    passes, pruned, resolved, total_len,
};
use crate::tree::FileTree;
use crate::path::{lemma_lt_irreflexive, lemma_lt_transitive, path_lt};
use crate::sync_item::SyncItem;
use crate::tree::sorted_strict;
use vstd::prelude::*;

verus! {

impl Aosync {
    /// `plan` is the plan for the two trees, given what pruning left over.
    pub open spec fn planned(
        &self,
        unmatched_src: Seq<Seq<u8>>,
        unmatched_dst: Seq<Seq<u8>>,
        plan: SyncPlan,
    ) -> bool {
        &&& pruned(
            self.source(),
            self.destination(),
            unmatched_src,
            unmatched_dst,
            plan.same_count as int,
        )
        &&& resolved(
            self.source(),
            self.destination(),
            unmatched_src,
            unmatched_dst,
            Ok(plan.append_items),
        )
        &&& new_items(self.source(), unmatched_src, plan.append_items@, plan.new_items@)
        &&& plan.same_count + plan.append_items@.len() + plan.new_items@.len()
            == self.source().paths().len()
        &&& plan.new_len == capped(total_len(plan.new_items@))
        &&& plan.move_len == capped(total_len(plan.append_items@))
    }

    /// What a call of [`Self::plan`] returns when its random source hands
    /// out `draws`.
    ///
    /// A plan comes back when pruning and resolution succeed and the bytes
    /// to transfer stay below the limit. Otherwise the error is that of
    /// pruning, else that of resolution, else that the limit is reached.
    pub open spec fn planning_post(&self, draws: Seq<u32>, r: Result<SyncPlan, SyncError>) -> bool {
        match r {
            Ok(plan) => {
                &&& passes(self.source(), self.destination(), self.check_level(), draws)
                &&& exists|unmatched_src: Seq<Seq<u8>>, unmatched_dst: Seq<Seq<u8>>|
                    self.planned(unmatched_src, unmatched_dst, plan)
                &&& total_len(plan.new_items@) + total_len(plan.append_items@)
                    < self.transfer_limit()
            },
            Err(SyncError::Corrupted(p)) => fails_at(
                self.source(),
                self.destination(),
                self.check_level(),
                draws,
                p@,
            ),
            Err(SyncError::LimitExceeded) => {
                &&& passes(self.source(), self.destination(), self.check_level(), draws)
                &&& exists|unmatched_src: Seq<Seq<u8>>, unmatched_dst: Seq<Seq<u8>>, plan: SyncPlan|
                    self.planned(unmatched_src, unmatched_dst, plan) && total_len(plan.new_items@)
                        + total_len(plan.append_items@) >= self.transfer_limit()
            },
            Err(e) => {
                &&& passes(self.source(), self.destination(), self.check_level(), draws)
                &&& exists|
                    unmatched_src: Seq<Seq<u8>>,
                    unmatched_dst: Seq<Seq<u8>>,
                    same_count: int,
                |
                    pruned(
                        self.source(),
                        self.destination(),
                        unmatched_src,
                        unmatched_dst,
                        same_count,
                    ) && resolved(
                        self.source(),
                        self.destination(),
                        unmatched_src,
                        unmatched_dst,
                        Err(e),
                    )
            },
        }
    }

    /// Number of bytes that `items` transfer, capped at the largest 64-bit
    /// number.
    fn sum_len(items: &Vec<SyncItem>) -> (sum: u64)
        ensures
            sum == capped(total_len(items@)),
    {
        let mut sum: u64 = 0;
        let mut a: usize = 0;
        while a < items.len()
            invariant
                a <= items@.len(),
                sum == capped(total_len(items@.take(a as int))),
            decreases items.len() - a,
        {
            proof {
                lemma_total_len_nonnegative(items@.take(a as int));
                assert(items@.take(a + 1).drop_last() =~= items@.take(a as int));
            }
            sum = sum.saturating_add(items[a].len);
            a += 1;
        }
        assert(items@.take(a as int) =~= items@);
        sum
    }

    /// Makes a new item of every listed source file that no append item
    /// claims. Both the list and the append items are in ascending order of
    /// the source paths, so one walk through both finds them.
    fn unclaimed_items(&self, list_src: &FileList, append: &Vec<SyncItem>) -> (fresh: Vec<SyncItem>)
        requires
            self.wf(),
            list_src.wf(),
            all_present(self.src, list_src@),
            claims_within(list_src@, append@),
        ensures
            new_items(self.src, list_src@, append@, fresh@),
            fresh@.len() + append@.len() == list_src@.len(),
    {
        let mut fresh: Vec<SyncItem> = Vec::new();
        let mut i: usize = 0;
        let mut j: usize = 0;
        while i < list_src.len()
            invariant
                self.wf(),
                list_src.wf(),
                all_present(self.src, list_src@),
                claims_within(list_src@, append@),
                walked(self.src, list_src@, append@, fresh@, i as int, j as int),
            decreases list_src@.len() - i,
        {
            let path = list_src.get(i);
            let mut taken = false;
            if j < append.len() {
                taken = append[j].src.equals(path);
            }
            if taken {
                proof {
                    lemma_walk_claimed(self.src, list_src@, append@, fresh@, i as int, j as int);
                }
                j += 1;
            } else {
                let content = self.src.get(path).unwrap();
                let item = SyncItem {
                    src: path.clone(),
                    dst: path.clone(),
                    offset: 0,
                    len: content.len() as u64,
                };
                proof {
                    lemma_walk_unclaimed(
                        self.src,
                        list_src@,
                        append@,
                        fresh@,
                        item,
                        i as int,
                        j as int,
                    );
                }
                fresh.push(item);
            }
            i += 1;
        }
        proof {
            lemma_walk_done(self.src, list_src@, append@, fresh@, j as int);
        }
        fresh
    }

    /// Plans the run: prunes, resolves the moves, and makes a new item of
    /// every unmatched source file that no append item claims.
    pub fn plan(&mut self) -> (r: Result<SyncPlan, SyncError>)
        requires
            old(self).wf(),
        ensures
            final(self).wf(),
            final(self).destination() == old(self).destination(),
            exists|draws: Seq<u32>|
                old(self).drew(*final(self), draws) && #[trigger] old(self).planning_post(draws, r),
    {
        let ghost before = *self;
        let pruning = self.quick_pruning();
        let ghost draws = choose|draws: Seq<u32>|
            before.drew(*self, draws) && #[trigger] before.pruning_post(draws, pruning);
        let pruning = match pruning {
            Ok(p) => p,
            Err(e) => {
                assert(before.planning_post(draws, Err(e)));
                return Err(e);
            },
        };
        let list_src = &pruning.unmatched_src;
        let list_dst = &pruning.unmatched_dst;
        let append = match self.compute_append_items(list_src, list_dst) {
            Ok(items) => items,
            Err(e) => {
                assert(before.planning_post(draws, Err(e)));
                return Err(e);
            },
        };
        proof {
            assert forall|k: int| 0 <= k < list_src@.len() implies self.src@.dom().contains(
                #[trigger] list_src@[k],
            ) by {
                assert(list_src@.contains(list_src@[k]));
            }
        }
        let fresh = self.unclaimed_items(list_src, &append);
        let move_len = Self::sum_len(&append);
        let new_len = Self::sum_len(&fresh);
        let plan = SyncPlan {
            append_items: append,
            new_items: fresh,
            same_count: pruning.same_count,
            new_len,
            move_len,
        };
        assert(before.planned(list_src@, list_dst@, plan));
        proof {
            lemma_total_len_nonnegative(plan.new_items@);
            lemma_total_len_nonnegative(plan.append_items@);
        }
        if new_len.saturating_add(move_len) >= self.limit {
            assert(before.planning_post(draws, Err(SyncError::LimitExceeded)));
            return Err(SyncError::LimitExceeded);
        }
        assert(before.planning_post(draws, Ok(plan)));
        Ok(plan)
    }
}

/// The append items are in ascending order of their source paths, which are
/// all listed.
spec fn claims_within(list: Seq<Seq<u8>>, append: Seq<SyncItem>) -> bool {
    &&& forall|a: int| 0 <= a < append.len() ==> list.contains((#[trigger] append[a]).src@)
    &&& forall|a: int, b: int|
        0 <= a < b < append.len() ==> path_lt((#[trigger] append[a]).src@, (#[trigger] append[b]).src@)
}

/// One of the first `upto` listed paths is `p`.
spec fn listed_before(list: Seq<Seq<u8>>, upto: int, p: Seq<u8>) -> bool {
    exists|k: int| 0 <= k < upto && #[trigger] list[k] == p
}

/// The walk has come to position `i` of the list and position `j` of the
/// append items: the append items before `j` claim listed paths before `i`,
/// the others do not, and `fresh` holds a new item for every path before `i`
/// that is not claimed.
spec fn walked(
    src: FileTree,
    list: Seq<Seq<u8>>,
    append: Seq<SyncItem>,
    fresh: Seq<SyncItem>,
    i: int,
    j: int,
) -> bool {
    &&& 0 <= i <= list.len()
    &&& 0 <= j <= append.len()
    &&& fresh.len() + j == i
    &&& forall|a: int, k: int|
        j <= a < append.len() && 0 <= k < i ==> (#[trigger] append[a]).src@ != #[trigger] list[k]
    &&& forall|a: int, k: int|
        0 <= a < j && i <= k < list.len() ==> (#[trigger] append[a]).src@ != #[trigger] list[k]
    &&& forall|b: int|
        0 <= b < fresh.len() ==> {
            &&& new_item(src, #[trigger] fresh[b])
            &&& !claimed(append, fresh[b].src@)
            &&& listed_before(list, i, fresh[b].src@)
        }
    &&& forall|k: int|
        0 <= k < i && !claimed(append, #[trigger] list[k]) ==> claimed(fresh, list[k])
    &&& forall|a: int, b: int|
        0 <= a < b < fresh.len() ==> path_lt((#[trigger] fresh[a]).src@, (#[trigger] fresh[b]).src@)
}

/// The walk goes on past a path that the next append item claims.
proof fn lemma_walk_claimed(
    src: FileTree,
    list: Seq<Seq<u8>>,
    append: Seq<SyncItem>,
    fresh: Seq<SyncItem>,
    i: int,
    j: int,
)
    requires
        sorted_strict(list),
        claims_within(list, append),
        walked(src, list, append, fresh, i, j),
        i < list.len(),
        j < append.len(),
        append[j].src@ == list[i],
    ensures
        walked(src, list, append, fresh, i + 1, j + 1),
{
    assert forall|a: int, k: int| 0 <= a < j + 1 && i + 1 <= k < list.len() implies (
    #[trigger] append[a]).src@ != #[trigger] list[k] by {
        if a == j {
            assert(path_lt(list[i], list[k]));
            lemma_lt_irreflexive(list[k]);
        }
    }
    assert forall|a: int, k: int| j + 1 <= a < append.len() && 0 <= k < i + 1 implies (
    #[trigger] append[a]).src@ != #[trigger] list[k] by {
        if k == i {
            assert(path_lt(append[j].src@, append[a].src@));
            lemma_lt_irreflexive(append[a].src@);
        }
    }
    assert(claimed(append, list[i]));
    assert forall|b: int| 0 <= b < fresh.len() implies listed_before(
        list,
        i + 1,
        (#[trigger] fresh[b]).src@,
    ) by {
        let k = choose|k: int| 0 <= k < i && #[trigger] list[k] == fresh[b].src@;
        assert(0 <= k < i + 1 && list[k] == fresh[b].src@);
    }
}

/// The walk goes on past a path that no append item claims, with a new item
/// for it.
proof fn lemma_walk_unclaimed(
    src: FileTree,
    list: Seq<Seq<u8>>,
    append: Seq<SyncItem>,
    fresh: Seq<SyncItem>,
    item: SyncItem,
    i: int,
    j: int,
)
    requires
        sorted_strict(list),
        claims_within(list, append),
        walked(src, list, append, fresh, i, j),
        i < list.len(),
        j < append.len() ==> append[j].src@ != list[i],
        new_item(src, item),
        item.src@ == list[i],
    ensures
        walked(src, list, append, fresh.push(item), i + 1, j),
{
    let grown = fresh.push(item);
    lemma_unclaimed(list, append, i, j);
    assert forall|b: int| 0 <= b < grown.len() implies {
        &&& new_item(src, #[trigger] grown[b])
        &&& !claimed(append, grown[b].src@)
        &&& listed_before(list, i + 1, grown[b].src@)
    } by {
        if b < fresh.len() {
            assert(grown[b] == fresh[b]);
            let k = choose|k: int| 0 <= k < i && #[trigger] list[k] == fresh[b].src@;
            assert(0 <= k < i + 1 && list[k] == grown[b].src@);
        } else {
            assert(list[i] == grown[b].src@);
        }
    }
    assert forall|a: int, b: int| 0 <= a < b < grown.len() implies path_lt(
        (#[trigger] grown[a]).src@,
        (#[trigger] grown[b]).src@,
    ) by {
        assert(grown[a] == fresh[a]);
        if b < fresh.len() {
            assert(grown[b] == fresh[b]);
        } else {
            let k = choose|k: int| 0 <= k < i && #[trigger] list[k] == fresh[a].src@;
            assert(path_lt(list[k], list[i]));
        }
    }
    assert forall|k: int| 0 <= k < i + 1 && !claimed(append, #[trigger] list[k]) implies claimed(
        grown,
        list[k],
    ) by {
        if k < i {
            assert(claimed(fresh, list[k]));
            let b = choose|b: int| 0 <= b < fresh.len() && (#[trigger] fresh[b]).src@ == list[k];
            assert(grown[b] == fresh[b]);
        } else {
            assert(grown[fresh.len() as int].src@ == list[k]);
        }
    }
}

/// At the end of the list every append item is used up, and the new items
/// are complete.
proof fn lemma_walk_done(
    src: FileTree,
    list: Seq<Seq<u8>>,
    append: Seq<SyncItem>,
    fresh: Seq<SyncItem>,
    j: int,
)
    requires
        claims_within(list, append),
        walked(src, list, append, fresh, list.len() as int, j),
    ensures
        j == append.len(),
        new_items(src, list, append, fresh),
{
    if j < append.len() {
        assert(list.contains(append[j].src@));
        let k = choose|k: int| 0 <= k < list.len() && list[k] == append[j].src@;
        assert(append[j].src@ != list[k]);
    }
    assert forall|b: int| 0 <= b < fresh.len() implies list.contains((#[trigger] fresh[b]).src@) by {
        let k = choose|k: int| 0 <= k < list.len() && #[trigger] list[k] == fresh[b].src@;
        assert(list[k] == fresh[b].src@);
    }
}

/// With the append items below position `j` used up on the paths below
/// position `i`, and the item at `j` not for the path at `i`, no append item
/// claims that path.
proof fn lemma_unclaimed(list: Seq<Seq<u8>>, append: Seq<SyncItem>, i: int, j: int)
    requires
        sorted_strict(list),
        0 <= i < list.len(),
        0 <= j <= append.len(),
        forall|a: int| 0 <= a < append.len() ==> list.contains((#[trigger] append[a]).src@),
        forall|a: int, b: int|
            0 <= a < b < append.len() ==> path_lt((#[trigger] append[a]).src@, (#[trigger] append[b]).src@),
        forall|a: int, k: int|
            j <= a < append.len() && 0 <= k < i ==> (#[trigger] append[a]).src@
                != #[trigger] list[k],
        forall|a: int, k: int|
            0 <= a < j && i <= k < list.len() ==> (#[trigger] append[a]).src@ != #[trigger] list[k],
        j < append.len() ==> append[j].src@ != list[i],
    ensures
        !claimed(append, list[i]),
        forall|a: int, k: int|
            j <= a < append.len() && 0 <= k < i + 1 ==> (#[trigger] append[a]).src@
                != #[trigger] list[k],
{
    assert forall|a: int| j <= a < append.len() implies (#[trigger] append[a]).src@ != list[i] by {
        if a > j && append[a].src@ == list[i] {
            let k = choose|k: int| 0 <= k < list.len() && list[k] == append[j].src@;
            assert(path_lt(append[j].src@, append[a].src@));
            if k > i {
                lemma_lt_transitive(list[i], list[k], list[i]);
                lemma_lt_irreflexive(list[i]);
            }
            assert(append[j].src@ != list[k]);
        }
    }
    if claimed(append, list[i]) {
        let a = choose|a: int| 0 <= a < append.len() && (#[trigger] append[a]).src@ == list[i];
        if a < j {
            assert(append[a].src@ != list[i]);
        }
    }
}

} // verus!
