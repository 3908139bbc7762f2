//! Sorting of index pairs, by merging.

use vstd::multiset::Multiset;
use vstd::prelude::*;

verus! {

/// The order on pairs: by the first number, then by the second.
pub open spec fn pair_le(a: (usize, usize), b: (usize, usize)) -> bool {
    a.0 < b.0 || (a.0 == b.0 && a.1 <= b.1)
}

/// `s` is in ascending order.
pub open spec fn pairs_sorted(s: Seq<(usize, usize)>) -> bool {
    forall|i: int, j: int| 0 <= i < j < s.len() ==> pair_le(#[trigger] s[i], #[trigger] s[j])
}

/// Whether `a` sorts before `b` or equals it.
fn le(a: (usize, usize), b: (usize, usize)) -> (r: bool)
    ensures
        r == pair_le(a, b),
{
    a.0 < b.0 || (a.0 == b.0 && a.1 <= b.1)
}

/// An empty sequence holds no pair.
proof fn lemma_nothing(s: Seq<(usize, usize)>)
    requires
        s.len() == 0,
    ensures
        s.to_multiset() == Multiset::<(usize, usize)>::empty(),
{
    broadcast use vstd::multiset::group_multiset_axioms;

    vstd::seq_lib::to_multiset_len(s);
    assert(s.to_multiset() =~= Multiset::<(usize, usize)>::empty());
}

/// One more element taken from the front of a sequence adds it to the
/// elements taken so far.
proof fn lemma_take_next(s: Seq<(usize, usize)>, i: int)
    requires
        0 <= i < s.len(),
    ensures
        s.take(i + 1).to_multiset() == s.take(i).to_multiset().insert(s[i]),
{
    assert(s.take(i + 1) =~= s.take(i).push(s[i]));
    vstd::seq_lib::to_multiset_build(s.take(i), s[i]);
}

/// Merges two sorted vectors into one.
fn merge(left: &Vec<(usize, usize)>, right: &Vec<(usize, usize)>) -> (out: Vec<(usize, usize)>)
    requires
        pairs_sorted(left@),
        pairs_sorted(right@),
    ensures
        pairs_sorted(out@),
        out@.to_multiset() == left@.to_multiset().add(right@.to_multiset()),
{
    broadcast use vstd::multiset::group_multiset_axioms;

    let mut out: Vec<(usize, usize)> = Vec::new();
    let mut i: usize = 0;
    let mut j: usize = 0;
    proof {
        lemma_nothing(left@.take(0));
        lemma_nothing(right@.take(0));
        lemma_nothing(out@);
    }
    while i < left.len() || j < right.len()
        invariant
            pairs_sorted(left@),
            pairs_sorted(right@),
            i <= left@.len(),
            j <= right@.len(),
            pairs_sorted(out@),
            out@.to_multiset() == left@.take(i as int).to_multiset().add(
                right@.take(j as int).to_multiset(),
            ),
            forall|k: int| 0 <= k < out@.len() && i < left@.len() ==> pair_le(#[trigger] out@[k], left@[i as int]),
            forall|k: int|
                0 <= k < out@.len() && j < right@.len() ==> pair_le(#[trigger] out@[k], right@[j as int]),
        decreases (left@.len() - i) + (right@.len() - j),
    {
        let ghost before = out@;
        let from_left = if j >= right.len() {
            true
        } else if i >= left.len() {
            false
        } else {
            le(left[i], right[j])
        };
        if from_left {
            let x = left[i];
            out.push(x);
            proof {
                lemma_take_next(left@, i as int);
                vstd::seq_lib::to_multiset_build(before, x);
                assert(out@.to_multiset() =~= left@.take(i + 1).to_multiset().add(
                    right@.take(j as int).to_multiset(),
                ));
            }
            i += 1;
        } else {
            let x = right[j];
            out.push(x);
            proof {
                lemma_take_next(right@, j as int);
                vstd::seq_lib::to_multiset_build(before, x);
                assert(out@.to_multiset() =~= left@.take(i as int).to_multiset().add(
                    right@.take(j + 1).to_multiset(),
                ));
            }
            j += 1;
        }
    }
    assert(left@.take(i as int) =~= left@);
    assert(right@.take(j as int) =~= right@);
    out
}

/// A sorted copy of the part of `v` from `lo` up to `hi`.
fn sorted_range(v: &Vec<(usize, usize)>, lo: usize, hi: usize) -> (out: Vec<(usize, usize)>)
    requires
        lo <= hi <= v@.len(),
    ensures
        pairs_sorted(out@),
        out@.to_multiset() == v@.subrange(lo as int, hi as int).to_multiset(),
    decreases hi - lo,
{
    if hi - lo <= 1 {
        let mut out: Vec<(usize, usize)> = Vec::new();
        if hi - lo == 1 {
            out.push(v[lo]);
        }
        assert(out@ =~= v@.subrange(lo as int, hi as int));
        out
    } else {
        let mid = lo + (hi - lo) / 2;
        let left = sorted_range(v, lo, mid);
        let right = sorted_range(v, mid, hi);
        proof {
            assert(v@.subrange(lo as int, hi as int) =~= v@.subrange(lo as int, mid as int)
                + v@.subrange(mid as int, hi as int));
            vstd::seq_lib::lemma_multiset_commutative(
                v@.subrange(lo as int, mid as int),
                v@.subrange(mid as int, hi as int),
            );
        }
        merge(&left, &right)
    }
}

/// Sorts `v` into ascending order: afterwards it holds the pairs it held
/// before, each as often as before, and no pair stands before a smaller one.
pub fn sort_pairs(v: &mut Vec<(usize, usize)>)
    ensures
        final(v)@.to_multiset() == old(v)@.to_multiset(),
        pairs_sorted(final(v)@),
{
    let sorted = sorted_range(v, 0, v.len());
    assert(v@.subrange(0, v@.len() as int) =~= v@);
    *v = sorted;
}

/// Sorting keeps the length, and neither adds nor loses a pair.
pub proof fn lemma_same_pairs(before: Seq<(usize, usize)>, after: Seq<(usize, usize)>)
    requires
        after.to_multiset() == before.to_multiset(),
    ensures
        after.len() == before.len(),
        forall|x: (usize, usize)| before.contains(x) <==> after.contains(x),
{
    vstd::seq_lib::to_multiset_len(before);
    vstd::seq_lib::to_multiset_len(after);
    assert forall|x: (usize, usize)| before.contains(x) <==> after.contains(x) by {
        vstd::seq_lib::to_multiset_contains(before, x);
        vstd::seq_lib::to_multiset_contains(after, x);
    }
}

} // verus!
