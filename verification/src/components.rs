//! The path order, component by component.
//!
//! [`crate::path::path_lt`] compares the bytes of two paths, with the
//! separator before every other byte. Here the same order is stated on the
//! components of the paths, and the two are proved to agree.

use crate::path::{agree, path_lt, precedes_at, rank, SEPARATOR};
use vstd::prelude::*;

verus! {

/// The components of a path: the bytes before its first separator, those
/// between each separator and the next, and those after the last.
pub open spec fn components(p: Seq<u8>) -> Seq<Seq<u8>>
    decreases p.len(),
{
    if p.len() == 0 {
        seq![Seq::empty()]
    } else {
        let rest = components(p.skip(1));
        if p[0] == SEPARATOR {
            seq![Seq::empty()] + rest
        } else {
            rest.update(0, seq![p[0]] + rest[0])
        }
    }
}

/// The order on components: that of their bytes, a component before those
/// that it is a proper prefix of.
pub open spec fn bytes_lt(a: Seq<u8>, b: Seq<u8>) -> bool
    decreases a.len(),
{
    if b.len() == 0 {
        false
    } else if a.len() == 0 {
        true
    } else if a[0] != b[0] {
        a[0] < b[0]
    } else {
        bytes_lt(a.skip(1), b.skip(1))
    }
}

/// The order on lists of components: by the first component in which they
/// differ, a list before those that it is a proper prefix of.
pub open spec fn components_lt(x: Seq<Seq<u8>>, y: Seq<Seq<u8>>) -> bool
    decreases x.len(),
{
    if y.len() == 0 {
        false
    } else if x.len() == 0 {
        true
    } else if x[0] != y[0] {
        bytes_lt(x[0], y[0])
    } else {
        components_lt(x.skip(1), y.skip(1))
    }
}

/// The path order, byte by byte from the front.
spec fn front_lt(a: Seq<u8>, b: Seq<u8>) -> bool
    decreases a.len(),
{
    if b.len() == 0 {
        false
    } else if a.len() == 0 {
        true
    } else if a[0] != b[0] {
        rank(a[0]) < rank(b[0])
    } else {
        front_lt(a.skip(1), b.skip(1))
    }
}

/// A path that sorts before another from the front does so at some position.
proof fn lemma_front_gives_position(a: Seq<u8>, b: Seq<u8>) -> (k: int)
    requires
        front_lt(a, b),
    ensures
        precedes_at(a, b, k),
    decreases a.len(),
{
    if a.len() == 0 || a[0] != b[0] {
        0
    } else {
        let k = lemma_front_gives_position(a.skip(1), b.skip(1));
        assert forall|i: int| 0 <= i < k + 1 implies a[i] == b[i] by {
            if i > 0 {
                assert(a.skip(1)[i - 1] == b.skip(1)[i - 1]);
            }
        }
        if k < a.skip(1).len() {
            assert(a.skip(1)[k] == a[k + 1]);
            assert(b.skip(1)[k] == b[k + 1]);
        }
        k + 1
    }
}

/// A path that sorts before another at some position does so from the front.
proof fn lemma_position_gives_front(a: Seq<u8>, b: Seq<u8>, k: int)
    requires
        precedes_at(a, b, k),
    ensures
        front_lt(a, b),
    decreases k,
{
    if k > 0 {
        assert(a[0] == b[0]);
        let a1 = a.skip(1);
        let b1 = b.skip(1);
        assert forall|i: int| 0 <= i < k - 1 implies a1[i] == b1[i] by {
            assert(a[i + 1] == b[i + 1]);
        }
        if k - 1 < a1.len() {
            assert(a1[k - 1] == a[k]);
            assert(b1[k - 1] == b[k]);
        }
        assert(agree(a1, b1, k - 1));
        lemma_position_gives_front(a1, b1, k - 1);
    }
}

/// A path has one component at least, and its first component is empty
/// exactly if the path is empty or starts with a separator.
proof fn lemma_components_first(p: Seq<u8>)
    ensures
        components(p).len() >= 1,
        p.len() > 0 && p[0] == SEPARATOR ==> components(p).len() >= 2,
        components(p)[0].len() == 0 <==> p.len() == 0 || p[0] == SEPARATOR,
    decreases p.len(),
{
    if p.len() > 0 {
        lemma_components_first(p.skip(1));
    }
}

/// Comparing from the front, byte by byte, compares the components.
proof fn lemma_front_by_components(a: Seq<u8>, b: Seq<u8>)
    ensures
        front_lt(a, b) <==> components_lt(components(a), components(b)),
    decreases a.len(),
{
    let x = components(a);
    let y = components(b);
    lemma_components_first(a);
    lemma_components_first(b);
    if b.len() == 0 {
        assert(y =~= seq![Seq::<u8>::empty()]);
        if x[0] == y[0] {
            assert(y.skip(1).len() == 0);
            assert(!components_lt(x.skip(1), y.skip(1)));
        } else {
            assert(!bytes_lt(x[0], y[0]));
        }
        assert(!components_lt(x, y));
    } else if a.len() == 0 {
        assert(x =~= seq![Seq::<u8>::empty()]);
        if x[0] == y[0] {
            assert(x.skip(1).len() == 0);
            assert(y.skip(1).len() > 0);
            assert(components_lt(x.skip(1), y.skip(1)));
        } else {
            assert(bytes_lt(x[0], y[0]));
        }
        assert(components_lt(x, y));
    } else {
        let x1 = components(a.skip(1));
        let y1 = components(b.skip(1));
        lemma_components_first(a.skip(1));
        lemma_components_first(b.skip(1));
        if a[0] != b[0] {
            if a[0] == SEPARATOR {
                assert(x[0].len() == 0);
                assert(y[0].len() > 0);
                assert(bytes_lt(x[0], y[0]));
            } else if b[0] == SEPARATOR {
                assert(y[0].len() == 0);
                assert(x[0].len() > 0);
                assert(!bytes_lt(x[0], y[0]));
            } else {
                assert(x[0][0] == a[0]);
                assert(y[0][0] == b[0]);
                assert(bytes_lt(x[0], y[0]) == (a[0] < b[0]));
            }
            assert(x[0] != y[0]);
            assert(components_lt(x, y) == bytes_lt(x[0], y[0]));
            assert(front_lt(a, b) == (rank(a[0]) < rank(b[0])));
        } else if a[0] == SEPARATOR {
            lemma_front_by_components(a.skip(1), b.skip(1));
            assert(x.skip(1) =~= x1);
            assert(y.skip(1) =~= y1);
            assert(x[0] =~= y[0]);
            assert(components_lt(x, y) == components_lt(x1, y1));
        } else {
            lemma_front_by_components(a.skip(1), b.skip(1));
            assert(x[0].skip(1) =~= x1[0]);
            assert(y[0].skip(1) =~= y1[0]);
            assert(x.skip(1) =~= x1.skip(1));
            assert(y.skip(1) =~= y1.skip(1));
            assert(x[0][0] == a[0]);
            assert(y[0][0] == a[0]);
            if x1[0] == y1[0] {
                assert(x[0] =~= y[0]);
                assert(components_lt(x, y) == components_lt(x1.skip(1), y1.skip(1)));
                assert(components_lt(x1, y1) == components_lt(x1.skip(1), y1.skip(1)));
            } else {
                assert(x[0] != y[0]) by {
                    if x[0] == y[0] {
                        assert(x[0].skip(1) == y[0].skip(1));
                    }
                }
                assert(components_lt(x, y) == bytes_lt(x[0], y[0]));
                assert(bytes_lt(x[0], y[0]) == bytes_lt(x1[0], y1[0]));
                assert(components_lt(x1, y1) == bytes_lt(x1[0], y1[0]));
            }
        }
    }
}

/// The path order is the order of the paths' components: one path sorts
/// before another exactly if its list of components does.
pub proof fn lemma_order_by_components(a: Seq<u8>, b: Seq<u8>)
    ensures
        path_lt(a, b) <==> components_lt(components(a), components(b)),
{
    lemma_front_by_components(a, b);
    if path_lt(a, b) {
        let k = choose|k: int| precedes_at(a, b, k);
        lemma_position_gives_front(a, b, k);
    }
    if front_lt(a, b) {
        let k = lemma_front_gives_position(a, b);
    }
}

} // verus!
