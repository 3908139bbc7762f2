//! The move resolver: which source file each unmatched destination file
//! grew into.

use crate::aosync::Aosync;
use crate::append_checker::same_bytes;
use crate::error::SyncError;
use crate::file_list::FileList;
use crate::model::{
    all_explained, all_present, append_item, append_items, appends, claimed_twice, dst_key, explained,
    first_claimed_twice, first_unexplained, has_item_for, key_le, lemma_sample_prefix,
    matches_none, matches_only, matches_several, resolved,
};
use crate::ord_test::{sample_objects, sample_of, samples_of, OrdTest};
use crate::path::{lemma_lt_irreflexive, path_lt};
use crate::sorting::{lemma_same_pairs, pair_le, pairs_sorted, sort_pairs};
use crate::sync_item::SyncItem;
use crate::tree::{sorted_strict, FileTree};
use vstd::prelude::*;

verus! {

/// What the search for the source of one destination file found.
#[derive(Clone, Copy)]
enum SourceMatch {
    /// No source file starts with the destination file.
    Nothing,
    /// The source file at this position of the list does, and no other.
    Only(usize),
    /// More than one source file does.
    Several,
}

impl Aosync {
    /// Looks among the sampled source files for those that start with the
    /// destination file `dst_obj`.
    ///
    /// A source file whose sample is shorter than that of the destination
    /// file, or does not start with it, is passed over; the others are
    /// compared in full. The search ends at the second match.
    fn find_source(&self, list_src: &FileList, src_objects: &Vec<OrdTest>, dst_obj: &OrdTest) -> (r:
        SourceMatch)
        requires
            self.wf(),
            samples_of(self.src, list_src@, src_objects@),
            self.dst@.dom().contains(dst_obj.path@),
            dst_obj.sample@ == sample_of(self.dst@[dst_obj.path@]),
        ensures
            match r {
                SourceMatch::Nothing => matches_none(self.src, self.dst, list_src@, dst_obj.path@),
                SourceMatch::Only(k) => matches_only(
                    self.src,
                    self.dst,
                    list_src@,
                    dst_obj.path@,
                    k as int,
                ),
                SourceMatch::Several => matches_several(
                    self.src,
                    self.dst,
                    list_src@,
                    dst_obj.path@,
                ),
            },
    {
        let ghost d = dst_obj.path@;
        let d_content = self.dst.get(&dst_obj.path).unwrap();
        let mut found: Option<usize> = None;
        let mut s: usize = 0;
        while s < src_objects.len()
            invariant
                self.wf(),
                samples_of(self.src, list_src@, src_objects@),
                d == dst_obj.path@,
                self.dst@.dom().contains(d),
                dst_obj.sample@ == sample_of(self.dst@[d]),
                d_content@ == self.dst@[d],
                s <= src_objects.len(),
                match found {
                    None => forall|k: int|
                        0 <= k < s ==> !appends(self.src, self.dst, #[trigger] list_src@[k], d),
                    Some(f) => {
                        &&& f < s
                        &&& appends(self.src, self.dst, list_src@[f as int], d)
                        &&& forall|k: int|
                            0 <= k < s && k != f ==> !appends(
                                self.src,
                                self.dst,
                                #[trigger] list_src@[k],
                                d,
                            )
                    },
                },
            decreases src_objects.len() - s,
        {
            let src_obj = &src_objects[s];
            let mut hit = false;
            assert(self.src@.dom().contains(list_src@[s as int]));
            if src_obj.sample.len() >= dst_obj.sample.len() {
                if same_bytes(&src_obj.sample, &dst_obj.sample, 0, dst_obj.sample.len()) {
                    let s_content = self.src.get(&src_obj.path).unwrap();
                    hit = self.append_checker.is_append_of(s_content, d_content);
                }
            }
            proof {
                if appends(self.src, self.dst, list_src@[s as int], d) {
                    lemma_sample_prefix(self.dst@[d], self.src@[list_src@[s as int]]);
                }
                assert(hit == appends(self.src, self.dst, list_src@[s as int], d));
            }
            if hit {
                match found {
                    Some(f) => {
                        assert(appends(self.src, self.dst, list_src@[f as int], d));
                        assert(appends(self.src, self.dst, list_src@[s as int], d));
                        return SourceMatch::Several;
                    },
                    None => {
                        found = Some(s);
                    },
                }
            }
            s += 1;
        }
        match found {
            None => SourceMatch::Nothing,
            Some(f) => SourceMatch::Only(f),
        }
    }

    /// The listed destination files in the order of processing, last first:
    /// their sample lengths and positions, in ascending order.
    fn processing_order(&self, list_dst: &FileList, dst_objects: &Vec<OrdTest>) -> (order: Vec<
        (usize, usize),
    >)
        requires
            samples_of(self.dst, list_dst@, dst_objects@),
        ensures
            ordered(self.dst, list_dst@, order@),
    {
        let mut order: Vec<(usize, usize)> = Vec::new();
        let mut t: usize = 0;
        while t < dst_objects.len()
            invariant
                samples_of(self.dst, list_dst@, dst_objects@),
                t <= dst_objects@.len(),
                order@.len() == t,
                forall|u: int|
                    0 <= u < t ==> as_key(#[trigger] order@[u]) == dst_key(self.dst, list_dst@, u),
            decreases dst_objects.len() - t,
        {
            assert(self.dst@.dom().contains(list_dst@[t as int]));
            order.push((dst_objects[t].sample.len(), t));
            t += 1;
        }
        let ghost keys = order@;
        sort_pairs(&mut order);
        proof {
            lemma_order(self.dst, list_dst@, keys, order@);
        }
        order
    }

    /// Finds the source of every listed destination file, in the order of
    /// processing, and pairs the positions of the two. The first destination
    /// file that no source file or more than one could have grown from ends
    /// the search.
    fn match_sources(
        &self,
        list_src: &FileList,
        list_dst: &FileList,
        src_objects: &Vec<OrdTest>,
        dst_objects: &Vec<OrdTest>,
        order: &Vec<(usize, usize)>,
    ) -> (r: Result<Vec<(usize, usize)>, SyncError>)
        requires
            self.wf(),
            list_dst@.len() > 0,
            samples_of(self.src, list_src@, src_objects@),
            samples_of(self.dst, list_dst@, dst_objects@),
            ordered(self.dst, list_dst@, order@),
        ensures
            match r {
                Ok(matched) => resolution(self.src, self.dst, list_src@, list_dst@, matched@),
                Err(e) => resolved(self.src, self.dst, list_src@, list_dst@, Err(e)),
            },
    {
        let nd = order.len();
        let mut matched: Vec<(usize, usize)> = Vec::new();
        let mut pos: usize = nd;
        while pos > 0
            invariant
                self.wf(),
                nd == list_dst@.len(),
                samples_of(self.src, list_src@, src_objects@),
                samples_of(self.dst, list_dst@, dst_objects@),
                ordered(self.dst, list_dst@, order@),
                pos <= nd,
                forall|b: int|
                    pos <= b < nd ==> explained(
                        self.src,
                        self.dst,
                        list_src@,
                        list_dst@[(#[trigger] order@[b]).1 as int],
                    ),
                matched@.len() == nd - pos,
                forall|a: int|
                    0 <= a < matched@.len() ==> {
                        &&& (#[trigger] matched@[a]).1 == order@[nd - 1 - a].1
                        &&& matches_only(
                            self.src,
                            self.dst,
                            list_src@,
                            list_dst@[matched@[a].1 as int],
                            matched@[a].0 as int,
                        )
                    },
            decreases pos,
        {
            pos -= 1;
            let u = order[pos].1;
            let dst_obj = &dst_objects[u];
            assert(self.dst@.dom().contains(list_dst@[u as int]));
            let found = self.find_source(list_src, src_objects, dst_obj);
            match found {
                SourceMatch::Only(k) => {
                    matched.push((k, u));
                    assert(explained(self.src, self.dst, list_src@, list_dst@[u as int]));
                },
                _ => {
                    proof {
                        lemma_unexplained(self.src, self.dst, list_src@, list_dst@[u as int]);
                        lemma_first_unexplained(
                            self.src,
                            self.dst,
                            list_src@,
                            list_dst@,
                            order@,
                            pos as int,
                        );
                        assert(all_present(self.dst, list_dst@));
                        assert(all_present(self.src, list_src@));
                    }
                    let p = list_dst.get(u).clone();
                    match found {
                        SourceMatch::Nothing => {
                            return Err(SyncError::NoSourceMatch(p));
                        },
                        _ => {
                            return Err(SyncError::AmbiguousMatch(p));
                        },
                    }
                },
            }
        }
        proof {
            lemma_all_matched(self.src, self.dst, list_src@, list_dst@, order@, matched@);
        }
        Ok(matched)
    }

    /// Looks for a source file that two destination files claim: in pairs
    /// sorted by source position, for two neighbours with one source.
    fn find_claimed_twice(
        list_src: &FileList,
        matched: &Vec<(usize, usize)>,
        Ghost(src): Ghost<FileTree>,
        Ghost(dst): Ghost<FileTree>,
        Ghost(list_dst): Ghost<Seq<Seq<u8>>>,
    ) -> (r: Option<usize>)
        requires
            resolution(src, dst, list_src@, list_dst, matched@),
            pairs_sorted(matched@),
        ensures
            match r {
                Some(k) => first_claimed_twice(src, dst, list_src@, list_dst, k as int),
                None => {
                    &&& forall|k: int| !claimed_twice(src, dst, list_src@, list_dst, k)
                    &&& ascending(matched@)
                },
            },
    {
        let mut a: usize = 1;
        while a < matched.len()
            invariant
                1 <= a,
                resolution(src, dst, list_src@, list_dst, matched@),
                pairs_sorted(matched@),
                forall|b: int|
                    0 <= b && b + 1 < a && b + 1 < matched@.len() ==> (#[trigger] matched@[b]).0
                        != matched@[b + 1].0,
            decreases matched.len() - a,
        {
            if matched[a - 1].0 == matched[a].0 {
                let k = matched[a].0;
                proof {
                    lemma_neighbours_claimed(src, dst, list_src@, list_dst, matched@, a - 1, a as int);
                    assert forall|j: int| claimed_twice(src, dst, list_src@, list_dst, j) implies k
                        <= j by {
                        let b = lemma_claimed_neighbours(src, dst, list_src@, list_dst, matched@, j);
                        if b + 1 < a {
                            assert(matched@[b].0 != matched@[b + 1].0);
                        } else if b > a - 1 {
                            assert(pair_le(matched@[a - 1], matched@[b]));
                        }
                    }
                }
                return Some(k);
            }
            a += 1;
        }
        proof {
            assert forall|j: int| !claimed_twice(src, dst, list_src@, list_dst, j) by {
                if claimed_twice(src, dst, list_src@, list_dst, j) {
                    let b = lemma_claimed_neighbours(src, dst, list_src@, list_dst, matched@, j);
                    assert(matched@[b].0 != matched@[b + 1].0);
                }
            }
            assert forall|b: int, c: int| 0 <= b < c < matched@.len() implies (#[trigger] matched@[b]).0
                < (#[trigger] matched@[c]).0 by {
                assert(pair_le(matched@[b], matched@[c]));
                if matched@[b].0 == matched@[c].0 {
                    if b + 1 < c {
                        assert(pair_le(matched@[b], matched@[b + 1]));
                        assert(pair_le(matched@[b + 1], matched@[c]));
                    }
                    assert(matched@[b].0 != matched@[b + 1].0);
                }
            }
        }
        None
    }

    /// Makes the append item of every pair: from the source file, to the
    /// destination file, starting where the destination file ends.
    fn build_items(
        &self,
        list_src: &FileList,
        list_dst: &FileList,
        matched: &Vec<(usize, usize)>,
    ) -> (items: Vec<SyncItem>)
        requires
            self.wf(),
            list_src.wf(),
            list_dst.wf(),
            resolution(self.src, self.dst, list_src@, list_dst@, matched@),
            ascending(matched@),
        ensures
            append_items(self.src, self.dst, list_src@, list_dst@, items@),
    {
        let mut items: Vec<SyncItem> = Vec::new();
        let mut a: usize = 0;
        while a < matched.len()
            invariant
                self.wf(),
                a <= matched@.len(),
                items@.len() == a,
                resolution(self.src, self.dst, list_src@, list_dst@, matched@),
                forall|b: int|
                    0 <= b < a ==> {
                        &&& append_item(self.src, self.dst, #[trigger] items@[b])
                        &&& items@[b].src@ == list_src@[matched@[b].0 as int]
                        &&& items@[b].dst@ == list_dst@[matched@[b].1 as int]
                    },
            decreases matched.len() - a,
        {
            let (k, u) = matched[a];
            assert(matches_only(self.src, self.dst, list_src@, list_dst@[u as int], k as int));
            let src_path = list_src.get(k);
            let dst_path = list_dst.get(u);
            let src_len = self.src.get(src_path).unwrap().len();
            let dst_len = self.dst.get(dst_path).unwrap().len();
            items.push(
                SyncItem {
                    src: src_path.clone(),
                    dst: dst_path.clone(),
                    offset: dst_len as u64,
                    len: (src_len - dst_len) as u64,
                },
            );
            a += 1;
        }
        proof {
            lemma_items(self.src, self.dst, list_src@, list_dst@, matched@, items@);
        }
        items
    }

    /// Finds, for each listed destination file, the one listed source file
    /// that it is a prefix of, and plans the appending of what that source
    /// file holds beyond it.
    ///
    /// The destination files are taken in descending order of sample length.
    /// One that is a prefix of no source file, or of several, ends the run,
    /// and so does a source file that two destination files claim. The items
    /// come in ascending order of their source paths.
    pub fn compute_append_items(&self, list_src: &FileList, list_dst: &FileList) -> (r: Result<
        Vec<SyncItem>,
        SyncError,
    >)
        requires
            self.wf(),
            list_src.wf(),
            list_dst.wf(),
        ensures
            resolved(self.source(), self.destination(), list_src@, list_dst@, r),
    {
        if list_dst.len() == 0 {
            return Ok(Vec::new());
        }
        let dst_objects = match sample_objects(&self.dst, list_dst) {
            Ok(objects) => objects,
            Err(e) => {
                return Err(e);
            },
        };
        let src_objects = match sample_objects(&self.src, list_src) {
            Ok(objects) => objects,
            Err(e) => {
                return Err(e);
            },
        };
        let order = self.processing_order(list_dst, &dst_objects);
        let mut matched = match self.match_sources(
            list_src,
            list_dst,
            &src_objects,
            &dst_objects,
            &order,
        ) {
            Ok(matched) => matched,
            Err(e) => {
                return Err(e);
            },
        };
        let ghost found = matched@;
        sort_pairs(&mut matched);
        proof {
            lemma_resolution_sorted(self.src, self.dst, list_src@, list_dst@, found, matched@);
            lemma_resolution_explains(self.src, self.dst, list_src@, list_dst@, matched@);
            assert(all_present(self.dst, list_dst@));
            assert(all_present(self.src, list_src@));
        }
        match Self::find_claimed_twice(
            list_src,
            &matched,
            Ghost(self.src),
            Ghost(self.dst),
            Ghost(list_dst@),
        ) {
            Some(k) => Err(SyncError::DuplicateSource(list_src.get(k).clone())),
            None => Ok(self.build_items(list_src, list_dst, &matched)),
        }
    }
}

/// The positions of every pair are those of a source file sorted before that
/// of the next pair.
spec fn ascending(pairs: Seq<(usize, usize)>) -> bool {
    forall|b: int, c: int| 0 <= b < c < pairs.len() ==> (#[trigger] pairs[b]).0 < (#[trigger] pairs[c]).0
}

/// `order` holds the rank of every listed destination file once, in
/// ascending order.
spec fn ordered(dst: FileTree, list_dst: Seq<Seq<u8>>, order: Seq<(usize, usize)>) -> bool {
    &&& order.len() == list_dst.len()
    &&& order.no_duplicates()
    &&& pairs_sorted(order)
    &&& forall|b: int|
        0 <= b < order.len() ==> (#[trigger] order[b]).1 < list_dst.len() && as_key(order[b])
            == dst_key(dst, list_dst, order[b].1 as int)
    &&& forall|u: int| 0 <= u < list_dst.len() ==> ranked(order, #[trigger] dst_key(dst, list_dst, u))
}

/// The destination file at position `pos` of the order, if not explained
/// while all after it are, is the first in the order of processing that is
/// not.
proof fn lemma_first_unexplained(
    src: FileTree,
    dst: FileTree,
    list_src: Seq<Seq<u8>>,
    list_dst: Seq<Seq<u8>>,
    order: Seq<(usize, usize)>,
    pos: int,
)
    requires
        ordered(dst, list_dst, order),
        0 <= pos < order.len(),
        !explained(src, dst, list_src, list_dst[order[pos].1 as int]),
        forall|b: int|
            pos < b < order.len() ==> explained(
                src,
                dst,
                list_src,
                list_dst[(#[trigger] order[b]).1 as int],
            ),
    ensures
        first_unexplained(src, dst, list_src, list_dst, order[pos].1 as int),
{
    let u = order[pos].1 as int;
    assert forall|v: int|
        0 <= v < list_dst.len() && !explained(src, dst, list_src, #[trigger] list_dst[v]) implies key_le(
        dst_key(dst, list_dst, v),
        dst_key(dst, list_dst, u),
    ) by {
        lemma_processed_first(src, dst, list_src, list_dst, order, pos, v);
    }
}

/// Once every destination file of the order has its pair, the pairs are a
/// resolution.
proof fn lemma_all_matched(
    src: FileTree,
    dst: FileTree,
    list_src: Seq<Seq<u8>>,
    list_dst: Seq<Seq<u8>>,
    order: Seq<(usize, usize)>,
    matched: Seq<(usize, usize)>,
)
    requires
        ordered(dst, list_dst, order),
        matched.len() == order.len(),
        forall|a: int|
            0 <= a < matched.len() ==> {
                &&& (#[trigger] matched[a]).1 == order[order.len() - 1 - a].1
                &&& matches_only(src, dst, list_src, list_dst[matched[a].1 as int], matched[a].0 as int)
            },
    ensures
        resolution(src, dst, list_src, list_dst, matched),
{
    let nd = order.len() as int;
    assert forall|t: int| 0 <= t < nd implies #[trigger] has_pair_for(matched, t) by {
        assert(ranked(order, dst_key(dst, list_dst, t)));
        let b = choose|b: int|
            0 <= b < order.len() && as_key(#[trigger] order[b]) == dst_key(dst, list_dst, t);
        assert(order[b].1 == t);
        assert(matched[nd - 1 - b].1 == order[nd - 1 - (nd - 1 - b)].1);
    }
    assert(matched.no_duplicates()) by {
        assert forall|a: int, b: int|
            0 <= a < matched.len() && 0 <= b < matched.len() && a != b implies matched[a]
            != matched[b] by {
            let oa = order[nd - 1 - a];
            let ob = order[nd - 1 - b];
            assert(as_key(oa) == dst_key(dst, list_dst, oa.1 as int));
            assert(as_key(ob) == dst_key(dst, list_dst, ob.1 as int));
            assert(oa != ob);
        }
    }
    assert forall|a: int| 0 <= a < matched.len() implies (#[trigger] matched[a]).1
        < list_dst.len() by {
        assert(order[nd - 1 - a].1 < nd);
    }
}

/// A resolution explains every listed destination file.
proof fn lemma_resolution_explains(
    src: FileTree,
    dst: FileTree,
    list_src: Seq<Seq<u8>>,
    list_dst: Seq<Seq<u8>>,
    pairs: Seq<(usize, usize)>,
)
    requires
        resolution(src, dst, list_src, list_dst, pairs),
    ensures
        all_explained(src, dst, list_src, list_dst),
{
    assert forall|t: int| 0 <= t < list_dst.len() implies explained(
        src,
        dst,
        list_src,
        #[trigger] list_dst[t],
    ) by {
        assert(has_pair_for(pairs, t));
        let a = choose|a: int| 0 <= a < pairs.len() && (#[trigger] pairs[a]).1 == t;
        assert(matches_only(src, dst, list_src, list_dst[pairs[a].1 as int], pairs[a].0 as int));
    }
}

/// The items made of the pairs of a resolution, taken in ascending order of
/// the source positions, are the append items.
proof fn lemma_items(
    src: FileTree,
    dst: FileTree,
    list_src: Seq<Seq<u8>>,
    list_dst: Seq<Seq<u8>>,
    matched: Seq<(usize, usize)>,
    items: Seq<SyncItem>,
)
    requires
        sorted_strict(list_src),
        sorted_strict(list_dst),
        resolution(src, dst, list_src, list_dst, matched),
        ascending(matched),
        items.len() == matched.len(),
        forall|b: int|
            0 <= b < items.len() ==> {
                &&& append_item(src, dst, #[trigger] items[b])
                &&& items[b].src@ == list_src[matched[b].0 as int]
                &&& items[b].dst@ == list_dst[matched[b].1 as int]
            },
    ensures
        append_items(src, dst, list_src, list_dst, items),
{
    assert forall|b: int| 0 <= b < items.len() implies {
        &&& append_item(src, dst, #[trigger] items[b])
        &&& list_src.contains(items[b].src@)
        &&& list_dst.contains(items[b].dst@)
    } by {
        assert(matches_only(src, dst, list_src, list_dst[matched[b].1 as int], matched[b].0 as int));
    }
    assert forall|b: int, c: int| 0 <= b < c < items.len() implies path_lt(
        (#[trigger] items[b]).src@,
        (#[trigger] items[c]).src@,
    ) by {
        assert(matched[b].0 < matched[c].0);
        assert(matches_only(src, dst, list_src, list_dst[matched[c].1 as int], matched[c].0 as int));
    }
    assert forall|b: int, c: int| 0 <= b < c < items.len() implies (#[trigger] items[b]).dst@ != (
    #[trigger] items[c]).dst@ by {
        assert(matched[b] != matched[c]);
        assert(matches_only(src, dst, list_src, list_dst[matched[b].1 as int], matched[b].0 as int));
        assert(matches_only(src, dst, list_src, list_dst[matched[c].1 as int], matched[c].0 as int));
        let u = matched[b].1 as int;
        let v = matched[c].1 as int;
        if u == v {
            assert(matched[b].0 < matched[c].0);
        } else if u < v {
            assert(path_lt(list_dst[u], list_dst[v]));
            lemma_lt_irreflexive(list_dst[u]);
        } else {
            assert(path_lt(list_dst[v], list_dst[u]));
            lemma_lt_irreflexive(list_dst[u]);
        }
    }
    assert forall|t: int| 0 <= t < list_dst.len() implies has_item_for(
        items,
        #[trigger] list_dst[t],
    ) by {
        assert(has_pair_for(matched, t));
        let b = choose|b: int| 0 <= b < matched.len() && (#[trigger] matched[b]).1 == t;
        assert(items[b].dst@ == list_dst[t]);
    }
}

/// A pair of positions as a rank.
spec fn as_key(p: (usize, usize)) -> (int, int) {
    (p.0 as int, p.1 as int)
}

/// One of `order` is the rank `key`.
spec fn ranked(order: Seq<(usize, usize)>, key: (int, int)) -> bool {
    exists|b: int| 0 <= b < order.len() && as_key(#[trigger] order[b]) == key
}

/// One of `pairs` is for the destination file at position `t`.
spec fn has_pair_for(pairs: Seq<(usize, usize)>, t: int) -> bool {
    exists|a: int| 0 <= a < pairs.len() && (#[trigger] pairs[a]).1 == t
}

/// `pairs` holds, for each listed destination file, its position together
/// with the position of the one source file that explains it.
spec fn resolution(
    src: FileTree,
    dst: FileTree,
    list_src: Seq<Seq<u8>>,
    list_dst: Seq<Seq<u8>>,
    pairs: Seq<(usize, usize)>,
) -> bool {
    &&& pairs.len() == list_dst.len()
    &&& pairs.no_duplicates()
    &&& forall|a: int|
        0 <= a < pairs.len() ==> {
            &&& (#[trigger] pairs[a]).1 < list_dst.len()
            &&& matches_only(src, dst, list_src, list_dst[pairs[a].1 as int], pairs[a].0 as int)
        }
    &&& forall|t: int| 0 <= t < list_dst.len() ==> #[trigger] has_pair_for(pairs, t)
}

/// A file that no source explains, or that several do, is not explained by
/// exactly one.
proof fn lemma_unexplained(src: FileTree, dst: FileTree, list_src: Seq<Seq<u8>>, d: Seq<u8>)
    requires
        matches_none(src, dst, list_src, d) || matches_several(src, dst, list_src, d),
    ensures
        !explained(src, dst, list_src, d),
{
    if explained(src, dst, list_src, d) {
        let k = choose|k: int| matches_only(src, dst, list_src, d, k);
        if matches_none(src, dst, list_src, d) {
            assert(!appends(src, dst, list_src[k], d));
        } else {
            let (i, j) = choose|i: int, j: int|
                0 <= i < j < list_src.len() && appends(src, dst, #[trigger] list_src[i], d)
                    && appends(src, dst, #[trigger] list_src[j], d);
            if i != k {
                assert(!appends(src, dst, list_src[i], d));
            } else {
                assert(!appends(src, dst, list_src[j], d));
            }
        }
    }
}

/// Sorting keeps a sequence free of duplicates.
proof fn lemma_sorted_no_duplicates(before: Seq<(usize, usize)>, after: Seq<(usize, usize)>)
    requires
        after.to_multiset() == before.to_multiset(),
        before.no_duplicates(),
    ensures
        after.no_duplicates(),
{
    before.lemma_multiset_has_no_duplicates();
    after.lemma_multiset_has_no_duplicates_conv();
}

/// The keys of the listed destination files, once sorted, still name every
/// file once.
proof fn lemma_order(
    dst: FileTree,
    list_dst: Seq<Seq<u8>>,
    keys: Seq<(usize, usize)>,
    order: Seq<(usize, usize)>,
)
    requires
        keys.len() == list_dst.len(),
        forall|u: int|
            0 <= u < keys.len() ==> as_key(#[trigger] keys[u]) == dst_key(dst, list_dst, u),
        order.to_multiset() == keys.to_multiset(),
    ensures
        order.len() == list_dst.len(),
        order.no_duplicates(),
        forall|b: int|
            0 <= b < order.len() ==> (#[trigger] order[b]).1 < list_dst.len() && as_key(order[b])
                == dst_key(dst, list_dst, order[b].1 as int),
        forall|u: int|
            0 <= u < list_dst.len() ==> ranked(order, #[trigger] dst_key(dst, list_dst, u)),
{
    lemma_same_pairs(keys, order);
    assert(keys.no_duplicates()) by {
        assert forall|i: int, j: int| 0 <= i < keys.len() && 0 <= j < keys.len() && i != j implies keys[i]
            != keys[j] by {
            assert(as_key(keys[i]).1 == i);
            assert(as_key(keys[j]).1 == j);
        }
    }
    lemma_sorted_no_duplicates(keys, order);
    assert forall|b: int| 0 <= b < order.len() implies (#[trigger] order[b]).1 < list_dst.len()
        && as_key(order[b]) == dst_key(dst, list_dst, order[b].1 as int) by {
        assert(order.contains(order[b]));
        assert(keys.contains(order[b]));
        let u = choose|u: int| 0 <= u < keys.len() && keys[u] == order[b];
        assert(as_key(keys[u]) == dst_key(dst, list_dst, u));
    }
    assert forall|u: int| 0 <= u < list_dst.len() implies ranked(
        order,
        #[trigger] dst_key(dst, list_dst, u),
    ) by {
        assert(as_key(keys[u]) == dst_key(dst, list_dst, u));
        assert(keys.contains(keys[u]));
        assert(order.contains(keys[u]));
        let b = choose|b: int| 0 <= b < order.len() && order[b] == keys[u];
        assert(as_key(order[b]) == dst_key(dst, list_dst, u));
    }
}

/// A destination file that is not explained, while all that are processed
/// after position `pos` of the order are, ranks no later than the one at
/// `pos`.
proof fn lemma_processed_first(
    src: FileTree,
    dst: FileTree,
    list_src: Seq<Seq<u8>>,
    list_dst: Seq<Seq<u8>>,
    order: Seq<(usize, usize)>,
    pos: int,
    u: int,
)
    requires
        ordered(dst, list_dst, order),
        0 <= pos < order.len(),
        forall|b: int|
            pos < b < order.len() ==> explained(
                src,
                dst,
                list_src,
                list_dst[(#[trigger] order[b]).1 as int],
            ),
        0 <= u < list_dst.len(),
        !explained(src, dst, list_src, list_dst[u]),
    ensures
        key_le(dst_key(dst, list_dst, u), as_key(order[pos])),
{
    let key = dst_key(dst, list_dst, u);
    assert(ranked(order, key));
    let b = choose|b: int| 0 <= b < order.len() && as_key(#[trigger] order[b]) == key;
    assert(order[b].1 == u);
    if b > pos {
        assert(explained(src, dst, list_src, list_dst[order[b].1 as int]));
    } else if b < pos {
        assert(pair_le(order[b], order[pos]));
    }
}

/// Sorting the pairs of a resolution gives a resolution.
proof fn lemma_resolution_sorted(
    src: FileTree,
    dst: FileTree,
    list_src: Seq<Seq<u8>>,
    list_dst: Seq<Seq<u8>>,
    before: Seq<(usize, usize)>,
    after: Seq<(usize, usize)>,
)
    requires
        resolution(src, dst, list_src, list_dst, before),
        after.to_multiset() == before.to_multiset(),
    ensures
        resolution(src, dst, list_src, list_dst, after),
{
    lemma_same_pairs(before, after);
    lemma_sorted_no_duplicates(before, after);
    assert forall|a: int| 0 <= a < after.len() implies {
        &&& (#[trigger] after[a]).1 < list_dst.len()
        &&& matches_only(src, dst, list_src, list_dst[after[a].1 as int], after[a].0 as int)
    } by {
        assert(after.contains(after[a]));
        assert(before.contains(after[a]));
        let i = choose|i: int| 0 <= i < before.len() && before[i] == after[a];
        assert(before[i].1 < list_dst.len());
    }
    assert forall|t: int| 0 <= t < list_dst.len() implies #[trigger] has_pair_for(after, t) by {
        assert(has_pair_for(before, t));
        let i = choose|i: int| 0 <= i < before.len() && (#[trigger] before[i]).1 == t;
        assert(before.contains(before[i]));
        assert(after.contains(before[i]));
        let a = choose|a: int| 0 <= a < after.len() && after[a] == before[i];
        assert(after[a].1 == t);
    }
}

/// In a sorted resolution, a source file that two destination files claim
/// shows as two neighbouring pairs.
proof fn lemma_claimed_neighbours(
    src: FileTree,
    dst: FileTree,
    list_src: Seq<Seq<u8>>,
    list_dst: Seq<Seq<u8>>,
    pairs: Seq<(usize, usize)>,
    k: int,
) -> (b: int)
    requires
        resolution(src, dst, list_src, list_dst, pairs),
        pairs_sorted(pairs),
        claimed_twice(src, dst, list_src, list_dst, k),
    ensures
        0 <= b,
        b + 1 < pairs.len(),
        pairs[b].0 == k,
        pairs[b + 1].0 == k,
{
    let (t, u) = choose|t: int, u: int|
        0 <= t < u < list_dst.len() && appends(src, dst, list_src[k], #[trigger] list_dst[t])
            && appends(src, dst, list_src[k], #[trigger] list_dst[u]);
    assert(has_pair_for(pairs, t));
    assert(has_pair_for(pairs, u));
    let a1 = choose|a: int| 0 <= a < pairs.len() && (#[trigger] pairs[a]).1 == t;
    let a2 = choose|a: int| 0 <= a < pairs.len() && (#[trigger] pairs[a]).1 == u;
    assert(pairs[a1].0 == k) by {
        if pairs[a1].0 != k {
            assert(!appends(src, dst, list_src[k], list_dst[t]));
        }
    }
    assert(pairs[a2].0 == k) by {
        if pairs[a2].0 != k {
            assert(!appends(src, dst, list_src[k], list_dst[u]));
        }
    }
    let b = if a1 < a2 { a1 } else { a2 };
    let c = if a1 < a2 { a2 } else { a1 };
    assert(b < c);
    if b + 1 < c {
        assert(pair_le(pairs[b], pairs[b + 1]));
        assert(pair_le(pairs[b + 1], pairs[c]));
    }
    b
}

/// A pair of a resolution names a source file that may be its destination
/// file grown, and two pairs with one source file make it claimed twice.
proof fn lemma_neighbours_claimed(
    src: FileTree,
    dst: FileTree,
    list_src: Seq<Seq<u8>>,
    list_dst: Seq<Seq<u8>>,
    pairs: Seq<(usize, usize)>,
    a: int,
    b: int,
)
    requires
        resolution(src, dst, list_src, list_dst, pairs),
        0 <= a < b < pairs.len(),
        pairs[a].0 == pairs[b].0,
    ensures
        claimed_twice(src, dst, list_src, list_dst, pairs[a].0 as int),
{
    let k = pairs[a].0 as int;
    let t = pairs[a].1 as int;
    let u = pairs[b].1 as int;
    assert(pairs[a] != pairs[b]);
    assert(t != u);
    assert(appends(src, dst, list_src[k], list_dst[t]));
    assert(appends(src, dst, list_src[k], list_dst[u]));
    if t < u {
    } else {
        assert(0 <= u < t < list_dst.len());
    }
}

} // verus!
