//! Relative paths and their total order.

use vstd::prelude::*;

verus! {

/// The byte that separates the components of a path.
pub const SEPARATOR: u8 = 0x2f;

/// Outcome of comparing two paths.
#[derive(Clone, Copy, Debug, PartialEq, Eq, Structural)]
pub enum Comparison {
    Less,
    Equal,
    Greater,
}

/// Weight of a byte in the path order: the separator sorts before every
/// other byte, so that comparing the bytes of two paths orders them exactly
/// as comparing them component by component does
/// (`components::lemma_order_by_components`).
pub open spec fn rank(b: u8) -> int {
    if b == SEPARATOR {
        0
    } else {
        b as int + 1
    }
}

/// `a` and `b` hold the same bytes at every position below `k`.
pub open spec fn agree(a: Seq<u8>, b: Seq<u8>, k: int) -> bool {
    &&& 0 <= k <= a.len()
    &&& k <= b.len()
    &&& forall|i: int| 0 <= i < k ==> a[i] == b[i]
}

/// `k` is a position at which `a` is seen to sort before `b`: everything
/// before `k` agrees, and at `k` either `a` ends while `b` goes on, or `a`
/// holds the byte of lower rank.
pub open spec fn precedes_at(a: Seq<u8>, b: Seq<u8>, k: int) -> bool {
    &&& agree(a, b, k)
    &&& k < b.len()
    &&& (k == a.len() || rank(a[k]) < rank(b[k]))
}

/// The strict order on paths.
pub open spec fn path_lt(a: Seq<u8>, b: Seq<u8>) -> bool {
    exists|k: int| precedes_at(a, b, k)
}

/// No path sorts before itself.
pub proof fn lemma_lt_irreflexive(a: Seq<u8>)
    ensures
        !path_lt(a, a),
{
}

/// What sorts before a path sorts before all that the path sorts before.
pub proof fn lemma_lt_transitive(a: Seq<u8>, b: Seq<u8>, c: Seq<u8>)
    requires
        path_lt(a, b),
        path_lt(b, c),
    ensures
        path_lt(a, c),
{
    let k1 = choose|k: int| precedes_at(a, b, k);
    let k2 = choose|k: int| precedes_at(b, c, k);
    let k = if k1 <= k2 { k1 } else { k2 };
    assert(precedes_at(a, c, k));
}

/// Of two paths at most one sorts before the other, and then they differ.
pub proof fn lemma_lt_asymmetric(a: Seq<u8>, b: Seq<u8>)
    requires
        path_lt(a, b),
    ensures
        !path_lt(b, a),
        a != b,
{
    if path_lt(b, a) {
        lemma_lt_transitive(a, b, a);
    }
    lemma_lt_irreflexive(a);
}

/// Two paths that agree below `k` are equal or ordered.
proof fn lemma_scan(a: Seq<u8>, b: Seq<u8>, k: int)
    requires
        agree(a, b, k),
    ensures
        a == b || path_lt(a, b) || path_lt(b, a),
    decreases a.len() - k,
{
    if k == a.len() {
        if k == b.len() {
            assert(a =~= b);
        } else {
            assert(precedes_at(a, b, k));
        }
    } else if k == b.len() {
        assert(agree(b, a, k));
        assert(precedes_at(b, a, k));
    } else if a[k] == b[k] {
        lemma_scan(a, b, k + 1);
    } else if rank(a[k]) < rank(b[k]) {
        assert(precedes_at(a, b, k));
    } else {
        assert(agree(b, a, k));
        assert(precedes_at(b, a, k));
    }
}

/// Any two paths are equal or ordered one way or the other.
pub proof fn lemma_lt_total(a: Seq<u8>, b: Seq<u8>)
    ensures
        a == b || path_lt(a, b) || path_lt(b, a),
{
    lemma_scan(a, b, 0);
}

/// A path sorts before every proper extension of itself.
pub proof fn lemma_lt_extension(a: Seq<u8>, tail: Seq<u8>)
    requires
        tail.len() > 0,
    ensures
        path_lt(a, a + tail),
{
    assert(precedes_at(a, a + tail, a.len() as int));
}

/// What is appended to a path to name a temporary file: `.abakt`.
pub open spec fn suffix() -> Seq<u8> {
    seq![0x2eu8, 0x61u8, 0x62u8, 0x61u8, 0x6bu8, 0x74u8]
}

/// The path of a file relative to the root of its tree, as the bytes of its
/// components joined by [`SEPARATOR`]. Paths are ordered by [`path_lt`]:
/// lexicographically over their components.
#[derive(Debug, PartialEq, Eq)]
pub struct RelPath {
    bytes: Vec<u8>,
}

impl View for RelPath {
    type V = Seq<u8>;

    /// The bytes of the path.
    closed spec fn view(&self) -> Seq<u8> {
        self.bytes@
    }
}

impl Clone for RelPath {
    /// A path of the same bytes.
    fn clone(&self) -> (r: Self)
        ensures
            r@ == self@,
    {
        RelPath { bytes: copy_bytes(&self.bytes) }
    }
}

/// A fresh vector holding the bytes of `v`.
pub fn copy_bytes(v: &Vec<u8>) -> (r: Vec<u8>)
    ensures
        r@ == v@,
{
    let mut r: Vec<u8> = Vec::with_capacity(v.len());
    let mut i: usize = 0;
    while i < v.len()
        invariant
            i <= v.len(),
            r@ == v@.subrange(0, i as int),
        decreases v.len() - i,
    {
        r.push(v[i]);
        i += 1;
        assert(r@ =~= v@.subrange(0, i as int));
    }
    assert(v@.subrange(0, v.len() as int) =~= v@);
    r
}

impl RelPath {
    /// The path that `bytes` spell.
    pub fn new(bytes: Vec<u8>) -> (r: Self)
        ensures
            r@ == bytes@,
    {
        RelPath { bytes }
    }

    /// The bytes of the path.
    pub fn as_bytes(&self) -> (r: &Vec<u8>)
        ensures
            r@ == self@,
    {
        &self.bytes
    }

    /// Three-way comparison in the path order.
    pub fn compare(&self, other: &RelPath) -> (r: Comparison)
        ensures
            r == Comparison::Less <==> path_lt(self@, other@),
            r == Comparison::Equal <==> self@ == other@,
            r == Comparison::Greater <==> path_lt(other@, self@),
    {
        let a = &self.bytes;
        let b = &other.bytes;
        let mut i: usize = 0;
        while i < a.len() && i < b.len()
            invariant
                a@ == self@,
                b@ == other@,
                agree(a@, b@, i as int),
            decreases a.len() - i,
        {
            let x: u8 = a[i];
            let y: u8 = b[i];
            if x != y {
                if x == SEPARATOR || (y != SEPARATOR && x < y) {
                    proof {
                        assert(precedes_at(a@, b@, i as int));
                        lemma_lt_asymmetric(a@, b@);
                    }
                    return Comparison::Less;
                } else {
                    proof {
                        assert(agree(b@, a@, i as int));
                        assert(precedes_at(b@, a@, i as int));
                        lemma_lt_asymmetric(b@, a@);
                    }
                    return Comparison::Greater;
                }
            }
            i += 1;
        }
        if i < b.len() {
            proof {
                assert(precedes_at(a@, b@, i as int));
                lemma_lt_asymmetric(a@, b@);
            }
            Comparison::Less
        } else if i < a.len() {
            proof {
                assert(agree(b@, a@, i as int));
                assert(precedes_at(b@, a@, i as int));
                lemma_lt_asymmetric(b@, a@);
            }
            Comparison::Greater
        } else {
            proof {
                assert(a@ =~= b@);
                lemma_lt_irreflexive(a@);
            }
            Comparison::Equal
        }
    }

    /// The path with `.abakt` appended, as a temporary file is named.
    pub fn with_suffix(&self) -> (r: Self)
        ensures
            r@ == self@ + suffix(),
    {
        let mut bytes = copy_bytes(&self.bytes);
        bytes.push(0x2e);
        bytes.push(0x61);
        bytes.push(0x62);
        bytes.push(0x61);
        bytes.push(0x6b);
        bytes.push(0x74);
        assert(bytes@ =~= self@ + suffix());
        RelPath { bytes }
    }

    /// Number of bytes.
    pub fn len(&self) -> (n: usize)
        ensures
            n == self@.len(),
    {
        self.bytes.len()
    }

    /// Whether two paths are the same.
    pub fn equals(&self, other: &RelPath) -> (r: bool)
        ensures
            r == (self@ == other@),
    {
        self.compare(other) == Comparison::Equal
    }
}

} // verus!
