//! The applier: the append phase, the new phase and the final renaming on
//! the destination tree.

use super::steps::{
    lemma_final_state, lemma_occupied, lemma_step_final, lemma_step_move, lemma_step_new,
    lemma_temporaries_push,
};
use crate::aosync::{Aosync, SyncPlan, SyncReport};
use crate::append_checker::lemma_prefix_completed;
use crate::apply::{
    applied, build_tmp_path, collides_at, expected, mirrored, no_collision, plan_context, stopped,
    temporaries, temporary_names,
};
use crate::error::SyncError;
use crate::model::{append_item, append_items, new_item};
use crate::path::RelPath;
use crate::sync_item::SyncItem;
use crate::tree::{tail_from, FileTree};
use vstd::prelude::*;

verus! {

/// A position in a file as an index; a position that no index can hold is
/// beyond the end of every file, as the largest index is.
fn as_index(offset: u64) -> (r: usize)
    ensures
        r == offset || (r == usize::MAX && offset > usize::MAX),
{
    if offset > usize::MAX as u64 {
        usize::MAX
    } else {
        offset as usize
    }
}

impl Aosync {
    /// The append phase: moves each destination file that grew to a
    /// temporary name and appends what its source holds beyond it. The final
    /// names are given only once every phase is through, and are recorded
    /// here. In a dry run nothing happens.
    fn perform_move_append(
        &mut self,
        append_items: &Vec<SyncItem>,
        Ghost(unmatched_src): Ghost<Seq<Seq<u8>>>,
        Ghost(unmatched_dst): Ghost<Seq<Seq<u8>>>,
        Ghost(news): Ghost<Seq<SyncItem>>,
    ) -> (moves: Vec<(RelPath, RelPath)>)
        requires
            old(self).wf(),
            crate::model::append_items(
                old(self).src,
                old(self).dst,
                unmatched_src,
                unmatched_dst,
                append_items@,
            ),
        ensures
            final(self).wf(),
            final(self).src == old(self).src,
            final(self).random == old(self).random,
            final(self).dry == old(self).dry,
            final(self).check == old(self).check,
            final(self).limit == old(self).limit,
            old(self).dry ==> final(self).dst == old(self).dst && moves@.len() == 0,
            !old(self).dry ==> {
                &&& moves@.len() == append_items@.len()
                &&& forall|a: int|
                    0 <= a < moves@.len() ==> (#[trigger] moves@[a]).1@ == append_items@[a].src@
                &&& temporaries(
                    old(self).dst@,
                    append_items@,
                    temporary_names(moves@),
                    append_items@.len() as int,
                )
                &&& applied(
                    final(self).dst@,
                    old(self).dst@,
                    old(self).src@,
                    append_items@,
                    temporary_names(moves@),
                    news,
                    append_items@.len() as int,
                    0,
                    0,
                )
            },
    {
        let ghost dst0 = self.dst;
        let mut moves: Vec<(RelPath, RelPath)> = Vec::new();
        if self.dry {
            return moves;
        }
        proof {
            assert(temporary_names(moves@) =~= Seq::<Seq<u8>>::empty());
            assert forall|q: Seq<u8>|
                {
                    let e = #[trigger] expected(
                        dst0@,
                        self.src@,
                        append_items@,
                        temporary_names(moves@),
                        news,
                        0,
                        0,
                        0,
                        q,
                    );
                    &&& self.dst@.dom().contains(q) == e.is_some()
                    &&& self.dst@.dom().contains(q) ==> self.dst@[q] == e.unwrap()
                } by {}
        }
        let mut a: usize = 0;
        while a < append_items.len()
            invariant
                self.wf(),
                self.src == old(self).src,
                self.random == old(self).random,
                self.dry == old(self).dry,
                self.check == old(self).check,
                self.limit == old(self).limit,
                dst0 == old(self).dst,
                crate::model::append_items(
                    self.src,
                    dst0,
                    unmatched_src,
                    unmatched_dst,
                    append_items@,
                ),
                a <= append_items@.len(),
                moves@.len() == a,
                forall|c: int| 0 <= c < a ==> (#[trigger] moves@[c]).1@ == append_items@[c].src@,
                temporaries(dst0@, append_items@, temporary_names(moves@), a as int),
                applied(
                    self.dst@,
                    dst0@,
                    self.src@,
                    append_items@,
                    temporary_names(moves@),
                    news,
                    a as int,
                    0,
                    0,
                ),
            decreases append_items.len() - a,
        {
            let item = &append_items[a];
            let ghost tmps = temporary_names(moves@);
            let ghost now = self.dst@;
            let target = item.src.clone();
            let tmp = build_tmp_path(&self.dst, &target);
            proof {
                lemma_occupied(now, dst0@, self.src@, append_items@, tmps, news, a as int);
                lemma_temporaries_push(dst0@, append_items@, tmps, tmp@);
                lemma_step_move(
                    now,
                    self.src,
                    dst0,
                    unmatched_src,
                    unmatched_dst,
                    append_items@,
                    tmps,
                    news,
                    tmp@,
                );
                assert(append_item(self.src, dst0, append_items@[a as int]));
                lemma_prefix_completed(dst0@[item.dst@], self.src@[item.src@]);
            }
            self.dst.rename(&item.dst, tmp.clone());
            let content = self.src.get(&item.src).unwrap();
            let offset = as_index(item.offset);
            self.dst.append(&tmp, content, offset);
            proof {
                assert(item.offset == dst0@[item.dst@].len());
                assert(content@ == self.src@[item.src@]);
                assert(dst0@[item.dst@].len() <= content@.len() == content.len());
                assert(offset == item.offset);
                assert(tail_from(content@, offset as int) == content@.skip(
                    dst0@[item.dst@].len() as int,
                ));
                assert(self.dst@ =~= now.remove(item.dst@).insert(tmp@, self.src@[item.src@]));
            }
            moves.push((tmp, target));
            assert(temporary_names(moves@) =~= tmps.push(tmp@));
            a += 1;
        }
        moves
    }

    /// The new phase: creates each new file and copies its source into it.
    /// A path that is occupied ends the run. In a dry run nothing happens.
    fn perform_new(
        &mut self,
        new_items: &Vec<SyncItem>,
        Ghost(dst0): Ghost<FileTree>,
        Ghost(items): Ghost<Seq<SyncItem>>,
        Ghost(tmps): Ghost<Seq<Seq<u8>>>,
    ) -> (r: Result<(), SyncError>)
        requires
            old(self).wf(),
            forall|b: int| 0 <= b < new_items@.len() ==> new_item(old(self).src, #[trigger] new_items@[b]),
            !old(self).dry ==> tmps.len() == items.len(),
            !old(self).dry ==> applied(
                old(self).dst@,
                dst0@,
                old(self).src@,
                items,
                tmps,
                new_items@,
                items.len() as int,
                0,
                0,
            ),
        ensures
            final(self).wf(),
            final(self).src == old(self).src,
            final(self).random == old(self).random,
            final(self).dry == old(self).dry,
            final(self).check == old(self).check,
            final(self).limit == old(self).limit,
            old(self).dry ==> final(self).dst == old(self).dst && r is Ok,
            !old(self).dry && r is Ok ==> {
                &&& applied(
                    final(self).dst@,
                    dst0@,
                    old(self).src@,
                    items,
                    tmps,
                    new_items@,
                    items.len() as int,
                    new_items@.len() as int,
                    0,
                )
                &&& no_collision(new_items@, new_items@.len() as int, tmps)
                &&& forall|b: int|
                    0 <= b < new_items@.len() ==> !collides_at(
                        dst0@,
                        old(self).src@,
                        items,
                        tmps,
                        new_items@,
                        b,
                    )
            },
            r matches Err(e) ==> {
                &&& e is AlreadyExists
                &&& exists|b: int|
                    #[trigger] stopped(
                        final(self).dst@,
                        dst0@,
                        old(self).src@,
                        items,
                        tmps,
                        new_items@,
                        e->AlreadyExists_0@,
                        b,
                    )
            },
    {
        if self.dry {
            return Ok(());
        }
        let mut b: usize = 0;
        while b < new_items.len()
            invariant
                self.wf(),
                self.src == old(self).src,
                self.random == old(self).random,
                self.dry == old(self).dry,
                self.check == old(self).check,
                self.limit == old(self).limit,
                !self.dry,
                tmps.len() == items.len(),
                forall|c: int|
                    0 <= c < new_items@.len() ==> new_item(self.src, #[trigger] new_items@[c]),
                b <= new_items@.len(),
                applied(
                    self.dst@,
                    dst0@,
                    self.src@,
                    items,
                    tmps,
                    new_items@,
                    items.len() as int,
                    b as int,
                    0,
                ),
                no_collision(new_items@, b as int, tmps),
                forall|c: int|
                    0 <= c < b ==> !collides_at(dst0@, self.src@, items, tmps, new_items@, c),
            decreases new_items.len() - b,
        {
            let item = &new_items[b];
            let ghost now = self.dst@;
            assert(new_item(self.src, new_items@[b as int]));
            assert(now.dom().contains(item.src@) == collides_at(
                dst0@,
                self.src@,
                items,
                tmps,
                new_items@,
                b as int,
            ));
            if !self.dst.create_new(item.dst.clone(), Vec::new()) {
                let r: Result<(), SyncError> = Err(SyncError::AlreadyExists(item.dst.clone()));
                assert(stopped(
                    self.dst@,
                    dst0@,
                    self.src@,
                    items,
                    tmps,
                    new_items@,
                    r->Err_0->AlreadyExists_0@,
                    b as int,
                ));
                return r;
            }
            let content = self.src.get(&item.src).unwrap();
            self.dst.append(&item.dst, content, as_index(item.offset));
            proof {
                assert(Seq::<u8>::empty() + tail_from(content@, 0) =~= content@);
                assert(self.dst@ =~= now.insert(item.src@, self.src@[item.src@]));
                lemma_step_new(now, dst0@, self.src@, items, tmps, new_items@, b as int);
            }
            b += 1;
        }
        Ok(())
    }

    /// What a call of [`Self::aosync`] comes to, with `after` the
    /// destination tree that it leaves.
    ///
    /// The run fails as planning fails, and then leaves the destination as
    /// it was. A dry run that plans successfully leaves it so too. Otherwise
    /// the plan is applied: if a new file is to be created at an occupied
    /// path, the run ends there, with the append phase and the earlier new
    /// files done; if not, the destination mirrors the source.
    pub open spec fn run_post(
        &self,
        draws: Seq<u32>,
        after: FileTree,
        r: Result<SyncReport, SyncError>,
    ) -> bool {
        match r {
            Ok(report) => {
                &&& self.planning_post(draws, Ok(report.plan))
                &&& if self.is_dry() {
                    &&& after == self.destination()
                    &&& report.moves@.len() == 0
                } else {
                    &&& after@ == mirrored(self.source(), self.destination())
                    &&& self.moves_post(report.plan, report.moves@)
                    &&& forall|b: int|
                        0 <= b < report.plan.new_items@.len() ==> !collides_at(
                            self.destination()@,
                            self.source()@,
                            report.plan.append_items@,
                            temporary_names(report.moves@),
                            report.plan.new_items@,
                            b,
                        )
                }
            },
            Err(SyncError::AlreadyExists(p)) => {
                &&& !self.is_dry()
                &&& exists|plan: SyncPlan, moves: Seq<(RelPath, RelPath)>, b: int|
                    #[trigger] self.stopped_at(draws, after, p@, plan, moves, b)
            },
            Err(e) => {
                &&& self.planning_post(draws, Err(e))
                &&& after == self.destination()
            },
        }
    }

    /// With `draws` from its random source the run planned `plan`, went through the append phase with `moves`,
    /// and ended in the new phase at the item at position `b`, the first
    /// whose path `p` was occupied, leaving the destination tree `after`.
    pub open spec fn stopped_at(
        &self,
        draws: Seq<u32>,
        after: FileTree,
        p: Seq<u8>,
        plan: SyncPlan,
        moves: Seq<(RelPath, RelPath)>,
        b: int,
    ) -> bool {
        &&& self.planning_post(draws, Ok(plan))
        &&& self.moves_post(plan, moves)
        &&& stopped(
            after@,
            self.destination()@,
            self.source()@,
            plan.append_items@,
            temporary_names(moves),
            plan.new_items@,
            p,
            b,
        )
    }

    /// `moves` records, for each append item of `plan`, its temporary name
    /// and its final name.
    pub open spec fn moves_post(&self, plan: SyncPlan, moves: Seq<(RelPath, RelPath)>) -> bool {
        &&& moves.len() == plan.append_items@.len()
        &&& forall|a: int|
            0 <= a < moves.len() ==> (#[trigger] moves[a]).1@ == plan.append_items@[a].src@
        &&& temporaries(
            self.destination()@,
            plan.append_items@,
            temporary_names(moves),
            plan.append_items@.len() as int,
        )
    }

    /// Synchronises the destination tree with the source tree: plans, and
    /// unless the run is dry applies the plan in three steps. First every
    /// append item has its destination file moved to a temporary name and
    /// extended; then every new file is created; last the temporary files
    /// are given their final names.
    pub fn aosync(&mut self) -> (r: Result<SyncReport, SyncError>)
        requires
            old(self).wf(),
        ensures
            final(self).wf(),
            exists|draws: Seq<u32>|
                old(self).drew(*final(self), draws) && #[trigger] old(self).run_post(
                    draws,
                    final(self).destination(),
                    r,
                ),
    {
        let ghost before = *self;
        let planned = self.plan();
        let ghost draws = choose|draws: Seq<u32>|
            before.drew(*self, draws) && #[trigger] before.planning_post(draws, planned);
        let ghost drawn = *self;
        let plan = match planned {
            Ok(plan) => plan,
            Err(e) => {
                assert(before.run_post(draws, self.destination(), Err(e)));
                return Err(e);
            },
        };
        let ghost (unmatched_src, unmatched_dst) = choose|
            unmatched_src: Seq<Seq<u8>>,
            unmatched_dst: Seq<Seq<u8>>,
        | before.planned(unmatched_src, unmatched_dst, plan);
        let ghost items = plan.append_items@;
        let ghost news = plan.new_items@;
        assert(plan_context(
            before.src,
            before.dst,
            unmatched_src,
            unmatched_dst,
            plan.same_count as int,
            items,
            news,
        ));
        let moves = self.perform_move_append(
            &plan.append_items,
            Ghost(unmatched_src),
            Ghost(unmatched_dst),
            Ghost(news),
        );
        let ghost tmps = temporary_names(moves@);
        match self.perform_new(&plan.new_items, Ghost(before.dst), Ghost(items), Ghost(tmps)) {
            Ok(_) => {},
            Err(e) => {
                proof {
                    let p = e->AlreadyExists_0@;
                    let b = choose|b: int|
                        #[trigger] stopped(self.dst@, before.dst@, before.src@, items, tmps, news, p, b);
                    assert(before.stopped_at(draws, self.dst, p, plan, moves@, b));
                    assert(before.drew(*self, draws));
                    assert(before.run_post(draws, self.destination(), Err(e)));
                }
                return Err(e);
            },
        }
        let mut a: usize = 0;
        while a < moves.len()
            invariant
                self.wf(),
                before.wf(),
                self.src == before.src,
                self.random == drawn.random,
                self.dry == before.dry,
                self.check == before.check,
                self.limit == before.limit,
                items == plan.append_items@,
                news == plan.new_items@,
                tmps == temporary_names(moves@),
                append_items(before.src, before.dst, unmatched_src, unmatched_dst, items),
                self.dry ==> moves@.len() == 0 && self.dst == before.dst,
                !self.dry ==> {
                    &&& moves@.len() == items.len()
                    &&& forall|c: int|
                        0 <= c < moves@.len() ==> (#[trigger] moves@[c]).1@ == items[c].src@
                    &&& temporaries(before.dst@, items, tmps, items.len() as int)
                    &&& no_collision(news, news.len() as int, tmps)
                    &&& applied(
                        self.dst@,
                        before.dst@,
                        before.src@,
                        items,
                        tmps,
                        news,
                        items.len() as int,
                        news.len() as int,
                        a as int,
                    )
                },
                a <= moves@.len(),
            decreases moves.len() - a,
        {
            let ghost now = self.dst@;
            proof {
                lemma_step_final(
                    now,
                    before.src,
                    before.dst,
                    unmatched_src,
                    unmatched_dst,
                    items,
                    tmps,
                    news,
                    a as int,
                );
                assert(tmps[a as int] == moves@[a as int].0@);
            }
            self.dst.rename(&moves[a].0, moves[a].1.clone());
            a += 1;
        }
        proof {
            if !self.dry {
                lemma_final_state(
                    self.dst@,
                    before.src,
                    before.dst,
                    unmatched_src,
                    unmatched_dst,
                    plan.same_count as int,
                    items,
                    tmps,
                    news,
                );
            }
        }
        let r = Ok(SyncReport { plan, moves });
        assert(before.drew(*self, draws));
        assert(before.run_post(draws, self.destination(), r));
        r
    }
}

} // verus!
