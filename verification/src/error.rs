//! Why a run was abandoned.

use crate::path::RelPath;
use vstd::prelude::*;

verus! {

/// Every way in which a run can fail. None is recovered from: the first one
/// met ends the run.
#[derive(Debug, PartialEq, Eq)]
pub enum SyncError {
    /// A listed path has no file in its tree.
    MissingFile(RelPath),
    /// Source and destination hold files of equal length but different
    /// content at this path.
    Corrupted(RelPath),
    /// This destination file is a prefix of no candidate source file.
    NoSourceMatch(RelPath),
    /// This destination file is a prefix of more than one candidate source
    /// file.
    AmbiguousMatch(RelPath),
    /// This source file was matched by more than one destination file.
    DuplicateSource(RelPath),
    /// The bytes to transfer reach the configured limit.
    LimitExceeded,
    /// A new file was to be created at this destination path, which is
    /// occupied.
    AlreadyExists(RelPath),
}

impl SyncError {
    /// The text of [`Self::message`].
    pub open spec fn description(&self) -> Seq<char> {
        match self {
            SyncError::MissingFile(_) => "a listed file is missing from its tree"@,
            SyncError::Corrupted(_) => "size matches but comparison fails, corruption?"@,
            SyncError::NoSourceMatch(_) => "destination file matched no source file"@,
            SyncError::AmbiguousMatch(_) => "destination file matched several source files"@,
            SyncError::DuplicateSource(_) => "source file matched several destination files"@,
            SyncError::LimitExceeded => "limit exceeded"@,
            SyncError::AlreadyExists(_) => "a file to create exists already"@,
        }
    }

    /// A one-line description for the user.
    pub fn message(&self) -> (r: &'static str)
        ensures
            r@ == self.description(),
    {
        match self {
            SyncError::MissingFile(_) => "a listed file is missing from its tree",
            SyncError::Corrupted(_) => "size matches but comparison fails, corruption?",
            SyncError::NoSourceMatch(_) => "destination file matched no source file",
            SyncError::AmbiguousMatch(_) => "destination file matched several source files",
            SyncError::DuplicateSource(_) => "source file matched several destination files",
            SyncError::LimitExceeded => "limit exceeded",
            SyncError::AlreadyExists(_) => "a file to create exists already",
        }
    }

    /// The path the error is about, if it is about one.
    pub fn path(&self) -> (r: Option<&RelPath>)
        ensures
            r == match *self {
                SyncError::MissingFile(p) => Some(&p),
                SyncError::Corrupted(p) => Some(&p),
                SyncError::NoSourceMatch(p) => Some(&p),
                SyncError::AmbiguousMatch(p) => Some(&p),
                SyncError::DuplicateSource(p) => Some(&p),
                SyncError::LimitExceeded => None,
                SyncError::AlreadyExists(p) => Some(&p),
            },
    {
        match self {
            SyncError::MissingFile(p) => Some(p),
            SyncError::Corrupted(p) => Some(p),
            SyncError::NoSourceMatch(p) => Some(p),
            SyncError::AmbiguousMatch(p) => Some(p),
            SyncError::DuplicateSource(p) => Some(p),
            SyncError::LimitExceeded => None,
            SyncError::AlreadyExists(p) => Some(p),
        }
    }
}

} // verus!
