//! The synchroniser: pruning, move resolution, planning and application.

mod applying;
mod planning;
mod pruning;
mod resolving;
mod steps;

use crate::append_checker::AppendChecker;
use crate::file_list::FileList;
use crate::path::RelPath;
use crate::random::{RandomSource, CHECK_DEFAULT};
use crate::sync_item::SyncItem;
use crate::tree::FileTree;
use vstd::prelude::*;

verus! {

/// What pruning leaves for content analysis.
#[derive(Debug, PartialEq, Eq)]
pub struct Pruned {
    /// Source files without an unchanged counterpart.
    pub unmatched_src: FileList,
    /// Destination files without an unchanged counterpart.
    pub unmatched_dst: FileList,
    /// Number of files that count as unchanged.
    pub same_count: usize,
}

/// A complete plan: every source file is unchanged, the target of an append
/// item, or the subject of a new item.
#[derive(Debug, PartialEq, Eq)]
pub struct SyncPlan {
    /// Destination files to extend and move, in ascending order of their
    /// source paths.
    pub append_items: Vec<SyncItem>,
    /// Source files to copy in full, in ascending order of their paths.
    pub new_items: Vec<SyncItem>,
    /// Number of files that count as unchanged.
    pub same_count: usize,
    /// Bytes that the new items copy, capped at the largest 64-bit number.
    pub new_len: u64,
    /// Bytes that the append items copy, capped alike.
    pub move_len: u64,
}

/// What a run did, or in a dry run would do.
#[derive(Debug, PartialEq, Eq)]
pub struct SyncReport {
    /// The plan of the run.
    pub plan: SyncPlan,
    /// For each append item, in their order, the temporary path under which
    /// the destination file was extended and the final path it was then
    /// given. Empty after a dry run.
    pub moves: Vec<(RelPath, RelPath)>,
}

/// A synchronisation of the tree `src` into the tree `dst`.
pub struct Aosync {
    src: FileTree,
    dst: FileTree,
    append_checker: AppendChecker,
    random: RandomSource,
    dry: bool,
    check: u32,
    limit: u64,
}

impl Aosync {
    /// The source tree.
    pub closed spec fn source(&self) -> FileTree {
        self.src
    }

    /// The destination tree.
    pub closed spec fn destination(&self) -> FileTree {
        self.dst
    }

    /// The state of the random source: what is left of its script, if it
    /// has one.
    pub closed spec fn random_state(&self) -> Option<Seq<u32>> {
        self.random.script()
    }

    /// Whether a run only plans.
    pub closed spec fn is_dry(&self) -> bool {
        self.dry
    }

    /// The verification level, in chances out of `CHECK_ALWAYS`.
    pub closed spec fn check_level(&self) -> u32 {
        self.check
    }

    /// The number of bytes that a run must stay below.
    pub closed spec fn transfer_limit(&self) -> u64 {
        self.limit
    }

    /// Both trees are well formed, and so is the checker.
    pub closed spec fn wf(&self) -> bool {
        &&& self.src.wf()
        &&& self.dst.wf()
        &&& self.append_checker.wf()
    }

    /// `after` is this synchroniser once its random source has handed out
    /// `draws`: nothing else differs but, possibly, the destination tree.
    pub open spec fn drew(&self, after: Aosync, draws: Seq<u32>) -> bool {
        &&& crate::random::drawn(self.random_state(), draws, after.random_state())
        &&& after.source() == self.source()
        &&& after.is_dry() == self.is_dry()
        &&& after.check_level() == self.check_level()
        &&& after.transfer_limit() == self.transfer_limit()
    }

    /// The trees of a well-formed synchroniser are well formed.
    pub proof fn lemma_wf(&self)
        requires
            self.wf(),
        ensures
            self.source().wf(),
            self.destination().wf(),
    {
    }

    /// A synchronisation of `src` into `dst` with the settings that a run
    /// has unless others are chosen: it applies its plan, verifies about three
    /// of a hundred unchanged files in full, chosen by the calling thread's
    /// random generator, and has the largest limit.
    pub fn new(src: FileTree, dst: FileTree) -> (r: Self)
        requires
            src.wf(),
            dst.wf(),
        ensures
            r.wf(),
            r.source() == src,
            r.destination() == dst,
            r.random_state() is None,
            !r.is_dry(),
            r.check_level() == CHECK_DEFAULT,
            r.transfer_limit() == u64::MAX,
    {
        Aosync {
            src,
            dst,
            append_checker: AppendChecker::default(),
            random: RandomSource::thread(),
            dry: false,
            check: CHECK_DEFAULT,
            limit: u64::MAX,
        }
    }

    /// Makes the run dry: it plans, and leaves the destination as it is.
    pub fn set_dry_run(&mut self)
        ensures
            final(self).is_dry(),
            final(self).source() == old(self).source(),
            final(self).destination() == old(self).destination(),
            final(self).check_level() == old(self).check_level(),
            final(self).transfer_limit() == old(self).transfer_limit(),
            final(self).random_state() == old(self).random_state(),
            old(self).wf() ==> final(self).wf(),
    {
        self.dry = true;
    }

    /// Sets the verification level: the chances, out of `CHECK_ALWAYS`, that
    /// an unchanged file is compared in full.
    pub fn set_check(&mut self, check: u32)
        ensures
            final(self).check_level() == check,
            final(self).source() == old(self).source(),
            final(self).destination() == old(self).destination(),
            final(self).is_dry() == old(self).is_dry(),
            final(self).transfer_limit() == old(self).transfer_limit(),
            final(self).random_state() == old(self).random_state(),
            old(self).wf() ==> final(self).wf(),
    {
        self.check = check;
    }

    /// Sets the limit, in bytes: a run that would transfer as many bytes or
    /// more is abandoned before it changes anything.
    pub fn set_limit(&mut self, limit: u64)
        ensures
            final(self).transfer_limit() == limit,
            final(self).source() == old(self).source(),
            final(self).destination() == old(self).destination(),
            final(self).is_dry() == old(self).is_dry(),
            final(self).check_level() == old(self).check_level(),
            final(self).random_state() == old(self).random_state(),
            old(self).wf() ==> final(self).wf(),
    {
        self.limit = limit;
    }

    /// Sets where the run takes its draws from.
    pub fn set_random_source(&mut self, source: RandomSource)
        ensures
            final(self).random_state() == source.script(),
            final(self).source() == old(self).source(),
            final(self).destination() == old(self).destination(),
            final(self).is_dry() == old(self).is_dry(),
            final(self).check_level() == old(self).check_level(),
            final(self).transfer_limit() == old(self).transfer_limit(),
            old(self).wf() ==> final(self).wf(),
    {
        self.random = source;
    }

    /// The source tree.
    pub fn src(&self) -> (r: &FileTree)
        ensures
            *r == self.source(),
    {
        &self.src
    }

    /// The destination tree.
    pub fn dst(&self) -> (r: &FileTree)
        ensures
            *r == self.destination(),
    {
        &self.dst
    }

    /// Gives the two trees back, source first.
    pub fn into_trees(self) -> (r: (FileTree, FileTree))
        ensures
            r.0 == self.source(),
            r.1 == self.destination(),
    {
        (self.src, self.dst)
    }
}

} // verus!
