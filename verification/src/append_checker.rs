//! Byte-for-byte verification that one file is a prefix of another.

use vstd::prelude::*;

verus! {

/// Number of bytes compared in one step unless chosen otherwise.
pub const BUFLEN: usize = 1048576;

/// `d` is a prefix of `s`: `s` is at least as long, and its first bytes are
/// those of `d`.
pub open spec fn is_prefix(d: Seq<u8>, s: Seq<u8>) -> bool {
    &&& d.len() <= s.len()
    &&& forall|i: int| 0 <= i < d.len() ==> d[i] == s[i]
}

/// Two files of equal length are prefixes of one another only when equal.
pub proof fn lemma_prefix_equal_length(d: Seq<u8>, s: Seq<u8>)
    requires
        d.len() == s.len(),
    ensures
        is_prefix(d, s) <==> d == s,
{
    if is_prefix(d, s) {
        assert(d =~= s);
    }
}

/// A file extended by what its source holds beyond its length is the source.
pub proof fn lemma_prefix_completed(d: Seq<u8>, s: Seq<u8>)
    requires
        is_prefix(d, s),
    ensures
        d + s.skip(d.len() as int) == s,
{
    assert(d + s.skip(d.len() as int) =~= s);
}

/// Whether `a` and `b` hold the same bytes from `start` up to `end`.
pub fn same_bytes(a: &Vec<u8>, b: &Vec<u8>, start: usize, end: usize) -> (r: bool)
    requires
        start <= end <= a.len(),
        end <= b.len(),
    ensures
        r == (forall|i: int| start <= i < end ==> a[i] == b[i]),
{
    let mut i: usize = start;
    while i < end
        invariant
            start <= i <= end,
            end <= a.len(),
            end <= b.len(),
            forall|k: int| start <= k < i ==> a[k] == b[k],
        decreases end - i,
    {
        if a[i] != b[i] {
            return false;
        }
        i += 1;
    }
    true
}

/// Compares two files chunk by chunk.
#[derive(Debug, Clone, Copy, PartialEq, Eq)]
pub struct AppendChecker {
    chunk_len: usize,
}

impl Default for AppendChecker {
    /// A checker that compares `BUFLEN` bytes in one step.
    fn default() -> (r: Self)
        ensures
            r.wf(),
            r.spec_chunk_len() == BUFLEN,
    {
        AppendChecker { chunk_len: BUFLEN }
    }
}

impl AppendChecker {
    /// The chunk length is positive.
    pub closed spec fn wf(&self) -> bool {
        self.chunk_len > 0
    }

    /// Number of bytes compared in one step.
    pub closed spec fn spec_chunk_len(&self) -> usize {
        self.chunk_len
    }

    /// A checker that compares `chunk_len` bytes in one step; none for a
    /// length of zero.
    pub fn with_chunk_len(chunk_len: usize) -> (r: Option<Self>)
        ensures
            r.is_some() == (chunk_len > 0),
            r.is_some() ==> r.unwrap().wf() && r.unwrap().spec_chunk_len() == chunk_len,
    {
        if chunk_len == 0 {
            None
        } else {
            Some(AppendChecker { chunk_len })
        }
    }

    /// Whether the whole of `dst` is a prefix of `src`, that is, whether
    /// `src` is `dst` with something (possibly nothing) appended.
    ///
    /// Both are walked from their start in chunks of equal size; the first
    /// chunk that differs, or that `src` cannot fill, settles the answer.
    pub fn is_append_of(&self, src: &Vec<u8>, dst: &Vec<u8>) -> (r: bool)
        requires
            self.wf(),
        ensures
            r == is_prefix(dst@, src@),
    {
        let mut pos: usize = 0;
        while pos < dst.len()
            invariant
                self.wf(),
                pos <= dst.len(),
                pos <= src.len(),
                forall|i: int| 0 <= i < pos ==> dst[i] == src[i],
            decreases dst.len() - pos,
        {
            let size2 = if dst.len() - pos < self.chunk_len {
                dst.len() - pos
            } else {
                self.chunk_len
            };
            let size1 = if src.len() - pos < self.chunk_len {
                src.len() - pos
            } else {
                self.chunk_len
            };
            if size1 < size2 {
                return false;
            }
            if !same_bytes(src, dst, pos, pos + size2) {
                return false;
            }
            pos = pos + size2;
        }
        true
    }
}

} // verus!
