//! Incremental, content-aware synchronisation of one file tree into another.
//!
//! The library works on trees held in memory: a [`tree::FileTree`] maps each
//! relative path to the bytes of the file stored there. A run classifies every
//! source file as unchanged, grown by appending (possibly under another
//! name) or new, and then applies that plan to the destination tree.
//!
//! [`aosync::Aosync`] is the synchroniser. Its steps are
//!
//! - pruning ([`aosync::Aosync::quick_pruning`]): files at the same path and
//!   of the same length count as unchanged, and some of them, chosen by the
//!   draws of a [`random::RandomSource`], are compared in full;
//! - move resolution ([`aosync::Aosync::compute_append_items`]): every other
//!   destination file has to be the prefix of exactly one source file, found
//!   by [`ord_test::sample_objects`] and [`append_checker::AppendChecker`];
//! - planning ([`aosync::Aosync::plan`]): the remaining source files are new;
//! - application ([`aosync::Aosync::aosync`]): files that grew are extended
//!   under temporary names, new files are created, and the temporary files
//!   get their final names.
//!
//! The contracts are stated in the vocabulary of [`model`] and [`apply`];
//! [`laws`] holds what follows from them for every run.

pub mod aosync;
pub mod apply;
pub mod append_checker;
pub mod components;
pub mod error;
pub mod file_list;
pub mod laws;
pub mod model;
pub mod ord_test;
pub mod path;
pub mod random;
pub mod sorting;
pub mod sync_item;
pub mod tree;

use crate::aosync::{Aosync, SyncReport};
use crate::error::SyncError;
use crate::tree::FileTree;
use vstd::prelude::*;

verus! {

/// Synchronises the tree `dst` with the tree `src` in one call, without
/// verifying unchanged files and with the largest limit, and gives back the
/// destination tree as the run left it.
pub fn aosync(src: FileTree, dst: FileTree, dry_run: bool) -> (r: (
    FileTree,
    Result<SyncReport, SyncError>,
))
    requires
        src.wf(),
        dst.wf(),
    ensures
        r.0.wf(),
        exists|run: Aosync, draws: Seq<u32>|
            {
                &&& run.wf()
                &&& run.source() == src
                &&& run.destination() == dst
                &&& run.is_dry() == dry_run
                &&& run.check_level() == 0
                &&& run.transfer_limit() == u64::MAX
                &&& #[trigger] run.run_post(draws, r.0, r.1)
            },
{
    let mut run = Aosync::new(src, dst);
    if dry_run {
        run.set_dry_run();
    }
    run.set_check(0);
    let ghost before = run;
    let result = run.aosync();
    let ghost draws = choose|draws: Seq<u32>|
        before.drew(run, draws) && #[trigger] before.run_post(draws, run.destination(), result);
    proof {
        run.lemma_wf();
    }
    let (_, after) = run.into_trees();
    let r = (after, result);
    assert(before.run_post(draws, r.0, r.1));
    r
}

} // verus!
