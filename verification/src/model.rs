//! The vocabulary in which the contracts of a run are stated.

use crate::append_checker::is_prefix;
use crate::error::SyncError;
use crate::ord_test::{first_missing, sample_of};
use crate::path::path_lt;
use crate::random::selects;
use crate::sync_item::SyncItem;
use crate::tree::FileTree;
use vstd::prelude::*;

verus! {

/// Both trees hold a file at `p`, and the two are equally long: the file
/// counts as unchanged.
pub open spec fn same_size(src: FileTree, dst: FileTree, p: Seq<u8>) -> bool {
    &&& src@.dom().contains(p)
    &&& dst@.dom().contains(p)
    &&& src@[p].len() == dst@[p].len()
}

/// The file at `p` counts as unchanged although the two trees differ in
/// what it holds.
pub open spec fn corrupted(src: FileTree, dst: FileTree, p: Seq<u8>) -> bool {
    &&& same_size(src, dst, p)
    &&& src@[p] != dst@[p]
}

/// Whether a file counts as unchanged, as a property of its path.
pub open spec fn is_unchanged(src: FileTree, dst: FileTree) -> spec_fn(Seq<u8>) -> bool {
    |p: Seq<u8>| same_size(src, dst, p)
}

/// The paths of the files that count as unchanged, in ascending order.
pub open spec fn unchanged_paths(src: FileTree, dst: FileTree) -> Seq<Seq<u8>> {
    src.paths().filter(is_unchanged(src, dst))
}

/// The unchanged file at position `k` is selected for verification by the
/// draw at that position, and differs between the two trees.
pub open spec fn detected(src: FileTree, dst: FileTree, check: u32, draws: Seq<u32>, k: int) -> bool {
    &&& selects(draws[k], check)
    &&& corrupted(src, dst, unchanged_paths(src, dst)[k])
}

/// With one draw for each unchanged file, in path order, no file that
/// differs is selected for verification.
pub open spec fn passes(src: FileTree, dst: FileTree, check: u32, draws: Seq<u32>) -> bool {
    &&& draws.len() == unchanged_paths(src, dst).len()
    &&& forall|k: int| 0 <= k < draws.len() ==> !detected(src, dst, check, draws, k)
}

/// The last of `draws` selects the unchanged file at `p`, which differs,
/// and no draw before it selected a file that differs.
pub open spec fn fails_at(
    src: FileTree,
    dst: FileTree,
    check: u32,
    draws: Seq<u32>,
    p: Seq<u8>,
) -> bool {
    &&& 1 <= draws.len() <= unchanged_paths(src, dst).len()
    &&& p == unchanged_paths(src, dst)[draws.len() - 1]
    &&& detected(src, dst, check, draws, draws.len() - 1)
    &&& forall|k: int| 0 <= k < draws.len() - 1 ==> !detected(src, dst, check, draws, k)
}

/// No file that counts as unchanged differs between the two trees.
pub open spec fn no_corruption(src: FileTree, dst: FileTree) -> bool {
    forall|p: Seq<u8>| !corrupted(src, dst, p)
}

/// What pruning two trees leaves over.
///
/// `unmatched_src` and `unmatched_dst` hold, in ascending order, the paths of
/// the source and destination files that do not count as unchanged;
/// `same_count` is the number of those that do.
pub open spec fn pruned(
    src: FileTree,
    dst: FileTree,
    unmatched_src: Seq<Seq<u8>>,
    unmatched_dst: Seq<Seq<u8>>,
    same_count: int,
) -> bool {
    &&& crate::tree::sorted_strict(unmatched_src)
    &&& crate::tree::sorted_strict(unmatched_dst)
    &&& forall|p: Seq<u8>|
        unmatched_src.contains(p) <==> src@.dom().contains(p) && !same_size(src, dst, p)
    &&& forall|p: Seq<u8>|
        unmatched_dst.contains(p) <==> dst@.dom().contains(p) && !same_size(src, dst, p)
    &&& same_count + unmatched_src.len() == src.paths().len()
    &&& same_count + unmatched_dst.len() == dst.paths().len()
}

/// `p` is the first, in path order, of the files that count as unchanged
/// but differ.
pub open spec fn first_corrupted(src: FileTree, dst: FileTree, p: Seq<u8>) -> bool {
    &&& corrupted(src, dst, p)
    &&& forall|q: Seq<u8>| corrupted(src, dst, q) ==> q == p || path_lt(p, q)
}

/// The destination file at `d` is a prefix of the source file at `s`: the
/// source may be the destination file after it grew.
pub open spec fn appends(src: FileTree, dst: FileTree, s: Seq<u8>, d: Seq<u8>) -> bool {
    &&& src@.dom().contains(s)
    &&& dst@.dom().contains(d)
    &&& is_prefix(dst@[d], src@[s])
}

/// No listed source file may be the destination file at `d` grown.
pub open spec fn matches_none(
    src: FileTree,
    dst: FileTree,
    list_src: Seq<Seq<u8>>,
    d: Seq<u8>,
) -> bool {
    forall|k: int| 0 <= k < list_src.len() ==> !appends(src, dst, #[trigger] list_src[k], d)
}

/// The listed source file at position `k`, and no other, may be the
/// destination file at `d` grown.
pub open spec fn matches_only(
    src: FileTree,
    dst: FileTree,
    list_src: Seq<Seq<u8>>,
    d: Seq<u8>,
    k: int,
) -> bool {
    &&& 0 <= k < list_src.len()
    &&& appends(src, dst, list_src[k], d)
    &&& forall|j: int|
        0 <= j < list_src.len() && j != k ==> !appends(src, dst, #[trigger] list_src[j], d)
}

/// More than one listed source file may be the destination file at `d`
/// grown.
pub open spec fn matches_several(
    src: FileTree,
    dst: FileTree,
    list_src: Seq<Seq<u8>>,
    d: Seq<u8>,
) -> bool {
    exists|j: int, k: int|
        0 <= j < k < list_src.len() && appends(src, dst, #[trigger] list_src[j], d) && appends(
            src,
            dst,
            #[trigger] list_src[k],
            d,
        )
}

/// Exactly one listed source file may be the destination file at `d` grown.
pub open spec fn explained(
    src: FileTree,
    dst: FileTree,
    list_src: Seq<Seq<u8>>,
    d: Seq<u8>,
) -> bool {
    exists|k: int| matches_only(src, dst, list_src, d, k)
}

/// One of `items` is for the destination file at `d`.
pub open spec fn has_item_for(items: Seq<SyncItem>, d: Seq<u8>) -> bool {
    exists|a: int| 0 <= a < items.len() && (#[trigger] items[a]).dst@ == d
}

/// Every listed path has a file in the tree.
pub open spec fn all_present(tree: FileTree, list: Seq<Seq<u8>>) -> bool {
    forall|k: int| 0 <= k < list.len() ==> tree@.dom().contains(#[trigger] list[k])
}

/// Every listed destination file is explained by exactly one listed source
/// file.
pub open spec fn all_explained(
    src: FileTree,
    dst: FileTree,
    list_src: Seq<Seq<u8>>,
    list_dst: Seq<Seq<u8>>,
) -> bool {
    forall|t: int| 0 <= t < list_dst.len() ==> explained(src, dst, list_src, #[trigger] list_dst[t])
}

/// The rank of a listed destination file in the order of processing: files
/// with longer samples come first, and of two with equally long samples the
/// one listed later.
pub open spec fn dst_key(dst: FileTree, list_dst: Seq<Seq<u8>>, t: int) -> (int, int) {
    (sample_of(dst@[list_dst[t]]).len() as int, t)
}

/// The order on ranks: by sample length, then by position.
pub open spec fn key_le(a: (int, int), b: (int, int)) -> bool {
    a.0 < b.0 || (a.0 == b.0 && a.1 <= b.1)
}

/// The listed destination file at position `t` is not explained by exactly
/// one source file, and is the first such file in the order of processing.
pub open spec fn first_unexplained(
    src: FileTree,
    dst: FileTree,
    list_src: Seq<Seq<u8>>,
    list_dst: Seq<Seq<u8>>,
    t: int,
) -> bool {
    &&& 0 <= t < list_dst.len()
    &&& !explained(src, dst, list_src, list_dst[t])
    &&& forall|u: int|
        0 <= u < list_dst.len() && !explained(src, dst, list_src, #[trigger] list_dst[u])
            ==> key_le(dst_key(dst, list_dst, u), dst_key(dst, list_dst, t))
}

/// Two listed destination files are prefixes of the listed source file at
/// position `k`.
pub open spec fn claimed_twice(
    src: FileTree,
    dst: FileTree,
    list_src: Seq<Seq<u8>>,
    list_dst: Seq<Seq<u8>>,
    k: int,
) -> bool {
    &&& 0 <= k < list_src.len()
    &&& exists|t: int, u: int|
        0 <= t < u < list_dst.len() && appends(src, dst, list_src[k], #[trigger] list_dst[t])
            && appends(src, dst, list_src[k], #[trigger] list_dst[u])
}

/// The source file at position `k` is the first in the list that two
/// destination files claim.
pub open spec fn first_claimed_twice(
    src: FileTree,
    dst: FileTree,
    list_src: Seq<Seq<u8>>,
    list_dst: Seq<Seq<u8>>,
    k: int,
) -> bool {
    &&& claimed_twice(src, dst, list_src, list_dst, k)
    &&& forall|j: int| claimed_twice(src, dst, list_src, list_dst, j) ==> k <= j
}

/// `item` appends to a destination file what its source holds beyond it.
pub open spec fn append_item(src: FileTree, dst: FileTree, item: SyncItem) -> bool {
    &&& appends(src, dst, item.src@, item.dst@)
    &&& item.offset == dst@[item.dst@].len()
    &&& item.len == src@[item.src@].len() - dst@[item.dst@].len()
}

/// `items` are the append items for the listed files: one for each listed
/// destination file, from a listed source file, in ascending order of the
/// source paths.
pub open spec fn append_items(
    src: FileTree,
    dst: FileTree,
    list_src: Seq<Seq<u8>>,
    list_dst: Seq<Seq<u8>>,
    items: Seq<SyncItem>,
) -> bool {
    &&& items.len() == list_dst.len()
    &&& forall|a: int|
        0 <= a < items.len() ==> {
            &&& append_item(src, dst, #[trigger] items[a])
            &&& list_src.contains(items[a].src@)
            &&& list_dst.contains(items[a].dst@)
        }
    &&& forall|a: int, b: int|
        0 <= a < b < items.len() ==> path_lt((#[trigger] items[a]).src@, (#[trigger] items[b]).src@)
    &&& forall|a: int, b: int|
        0 <= a < b < items.len() ==> (#[trigger] items[a]).dst@ != (#[trigger] items[b]).dst@
    &&& forall|t: int| 0 <= t < list_dst.len() ==> has_item_for(items, #[trigger] list_dst[t])
}

/// What resolving the moves of the listed files comes to.
///
/// Without destination files there is nothing to resolve. Otherwise the
/// listed files are looked up, destination first, and the first one missing
/// ends the run. Then every destination file has to be the prefix of exactly
/// one source file; the first that is not, in the order of processing, ends
/// the run. Last, no source file may be claimed twice.
pub open spec fn resolved(
    src: FileTree,
    dst: FileTree,
    list_src: Seq<Seq<u8>>,
    list_dst: Seq<Seq<u8>>,
    r: Result<Vec<SyncItem>, SyncError>,
) -> bool {
    match r {
        Ok(items) => {
            &&& all_explained(src, dst, list_src, list_dst)
            &&& forall|k: int| !claimed_twice(src, dst, list_src, list_dst, k)
            &&& append_items(src, dst, list_src, list_dst, items@)
        },
        Err(SyncError::MissingFile(p)) => {
            &&& list_dst.len() > 0
            &&& {
                ||| exists|k: int| first_missing(dst, list_dst, k) && p@ == list_dst[k]
                ||| all_present(dst, list_dst) && exists|k: int|
                    first_missing(src, list_src, k) && p@ == list_src[k]
            }
        },
        Err(SyncError::NoSourceMatch(p)) => {
            &&& all_present(dst, list_dst)
            &&& all_present(src, list_src)
            &&& exists|t: int|
                first_unexplained(src, dst, list_src, list_dst, t) && p@ == list_dst[t]
                    && matches_none(src, dst, list_src, list_dst[t])
        },
        Err(SyncError::AmbiguousMatch(p)) => {
            &&& all_present(dst, list_dst)
            &&& all_present(src, list_src)
            &&& exists|t: int|
                first_unexplained(src, dst, list_src, list_dst, t) && p@ == list_dst[t]
                    && matches_several(src, dst, list_src, list_dst[t])
        },
        Err(SyncError::DuplicateSource(p)) => {
            &&& all_present(dst, list_dst)
            &&& all_present(src, list_src)
            &&& all_explained(src, dst, list_src, list_dst)
            &&& exists|k: int|
                first_claimed_twice(src, dst, list_src, list_dst, k) && p@ == list_src[k]
        },
        Err(_) => false,
    }
}

/// A prefix relation between two files shows in their samples.
pub proof fn lemma_sample_prefix(d: Seq<u8>, s: Seq<u8>)
    requires
        is_prefix(d, s),
    ensures
        is_prefix(sample_of(d), sample_of(s)),
{
}

/// One of `items` has the file at `p` as its source.
pub open spec fn claimed(items: Seq<SyncItem>, p: Seq<u8>) -> bool {
    exists|a: int| 0 <= a < items.len() && (#[trigger] items[a]).src@ == p
}

/// `item` copies the whole source file at its path to the same path of the
/// destination.
pub open spec fn new_item(src: FileTree, item: SyncItem) -> bool {
    &&& src@.dom().contains(item.src@)
    &&& item.dst@ == item.src@
    &&& item.offset == 0
    &&& item.len == src@[item.src@].len()
}

/// `items` are the new-file items: one for each unmatched source file that
/// no append item claims, in ascending order of the paths.
pub open spec fn new_items(
    src: FileTree,
    unmatched_src: Seq<Seq<u8>>,
    append: Seq<SyncItem>,
    items: Seq<SyncItem>,
) -> bool {
    &&& forall|a: int|
        0 <= a < items.len() ==> {
            &&& new_item(src, #[trigger] items[a])
            &&& unmatched_src.contains(items[a].src@)
            &&& !claimed(append, items[a].src@)
        }
    &&& forall|a: int, b: int|
        0 <= a < b < items.len() ==> path_lt((#[trigger] items[a]).src@, (#[trigger] items[b]).src@)
    &&& forall|k: int|
        0 <= k < unmatched_src.len() && !claimed(append, #[trigger] unmatched_src[k]) ==> claimed(
            items,
            unmatched_src[k],
        )
}

/// Number of bytes that `items` transfer.
pub open spec fn total_len(items: Seq<SyncItem>) -> int
    decreases items.len(),
{
    if items.len() == 0 {
        0
    } else {
        total_len(items.drop_last()) + items.last().len
    }
}

/// `n`, or the largest 64-bit number if `n` is larger.
pub open spec fn capped(n: int) -> int {
    if n > u64::MAX {
        u64::MAX as int
    } else {
        n
    }
}

/// No list of items transfers less than nothing.
pub proof fn lemma_total_len_nonnegative(items: Seq<SyncItem>)
    ensures
        total_len(items) >= 0,
    decreases items.len(),
{
    if items.len() > 0 {
        lemma_total_len_nonnegative(items.drop_last());
    }
}

} // verus!
