//! Content samples, taken to tell files apart cheaply.

use crate::error::SyncError;
use crate::file_list::FileList;
use crate::path::RelPath;
use crate::tree::FileTree;
use vstd::prelude::*;

verus! {

/// Upper bound on the length of a sample.
pub const SAMPLE_LEN: usize = 4096;

/// The sample of a file: its first `SAMPLE_LEN` bytes, or all of it if it is
/// shorter.
pub open spec fn sample_of(content: Seq<u8>) -> Seq<u8> {
    if content.len() <= SAMPLE_LEN {
        content
    } else {
        content.take(SAMPLE_LEN as int)
    }
}

/// A file together with the sample of its content.
#[derive(Debug, PartialEq, Eq)]
pub struct OrdTest {
    pub path: RelPath,
    pub sample: Vec<u8>,
}

impl OrdTest {
    /// Number of bytes sampled.
    pub fn sample_len(&self) -> (n: usize)
        ensures
            n == self.sample@.len(),
    {
        self.sample.len()
    }
}

/// `objects` are the samples of the files of `tree` at `paths`, in order.
pub open spec fn samples_of(tree: FileTree, paths: Seq<Seq<u8>>, objects: Seq<OrdTest>) -> bool {
    &&& objects.len() == paths.len()
    &&& forall|i: int|
        0 <= i < paths.len() ==> {
            &&& tree@.dom().contains(#[trigger] paths[i])
            &&& objects[i].path@ == paths[i]
            &&& objects[i].sample@ == sample_of(tree@[paths[i]])
        }
}

/// `k` is the position of the first path of `paths` that has no file in
/// `tree`.
pub open spec fn first_missing(tree: FileTree, paths: Seq<Seq<u8>>, k: int) -> bool {
    &&& 0 <= k < paths.len()
    &&& !tree@.dom().contains(paths[k])
    &&& forall|i: int| 0 <= i < k ==> tree@.dom().contains(#[trigger] paths[i])
}

/// Samples the files of `tree` at the paths of `path_list`, in the order of
/// the list. Fails at the first path that has no file.
pub fn sample_objects(tree: &FileTree, path_list: &FileList) -> (r: Result<Vec<OrdTest>, SyncError>)
    requires
        tree.wf(),
    ensures
        match r {
            Ok(objects) => samples_of(*tree, path_list@, objects@),
            Err(SyncError::MissingFile(p)) => exists|k: int|
                first_missing(*tree, path_list@, k) && p@ == path_list@[k],
            Err(_) => false,
        },
{
    let mut objects: Vec<OrdTest> = Vec::new();
    let mut i: usize = 0;
    while i < path_list.len()
        invariant
            tree.wf(),
            i <= path_list@.len(),
            samples_of(*tree, path_list@.take(i as int), objects@),
        decreases path_list@.len() - i,
    {
        let path = path_list.get(i);
        match tree.get(path) {
            None => {
                assert(first_missing(*tree, path_list@, i as int)) by {
                    assert forall|k: int| 0 <= k < i implies tree@.dom().contains(
                        #[trigger] path_list@[k],
                    ) by {
                        assert(path_list@.take(i as int)[k] == path_list@[k]);
                    }
                }
                return Err(SyncError::MissingFile(path.clone()));
            },
            Some(content) => {
                let n = if content.len() < SAMPLE_LEN {
                    content.len()
                } else {
                    SAMPLE_LEN
                };
                let mut sample: Vec<u8> = Vec::with_capacity(n);
                sample.extend_from_slice(vstd::slice::slice_subrange(content.as_slice(), 0, n));
                assert(sample@ =~= sample_of(content@));
                objects.push(OrdTest { path: path.clone(), sample });
                proof {
                    let before = path_list@.take(i as int);
                    let after = path_list@.take(i + 1);
                    assert forall|k: int| 0 <= k < after.len() implies {
                        &&& tree@.dom().contains(#[trigger] after[k])
                        &&& objects@[k].path@ == after[k]
                        &&& objects@[k].sample@ == sample_of(tree@[after[k]])
                    } by {
                        if k < i {
                            assert(before[k] == after[k]);
                        }
                    }
                }
            },
        }
        i += 1;
    }
    assert(path_list@.take(i as int) =~= path_list@);
    Ok(objects)
}

} // verus!
