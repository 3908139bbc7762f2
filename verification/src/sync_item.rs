//! One planned transfer.

use crate::path::RelPath;
use vstd::prelude::*;

verus! {

/// A planned transfer from the source tree into the destination tree.
///
/// For a file that grew by appending, `dst` is where its earlier state is
/// stored now and `offset` is the length of that state. For a new file `dst`
/// equals `src` and `offset` is zero. `len` is the number of bytes to copy:
/// those of the source from `offset` to its end.
#[derive(Debug, PartialEq, Eq)]
pub struct SyncItem {
    pub src: RelPath,
    pub dst: RelPath,
    pub offset: u64,
    pub len: u64,
}

} // verus!
