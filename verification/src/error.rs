//! Errors of the extendible hash table.

use vstd::prelude::*;

verus! {

#[derive(Clone, Copy, Debug, PartialEq, Eq)]
pub enum ExtendibleHashTableError {
    /// The directory is at its maximum depth and cannot grow.
    DirectoryMaxSizeReached,
    /// No directory page is installed where one was required.
    NoDirectoryForPageId,
    /// No bucket page is installed where one was required.
    NoBucketForPageId,
    /// An internal operation failed for no further stated reason.
    Unknown,
}

impl ExtendibleHashTableError {
    /// A short description of the error.
    pub fn message(&self) -> (r: &'static str)
        ensures
            true,
    {
        match self {
            ExtendibleHashTableError::DirectoryMaxSizeReached => {
                "cannot grow hash table directory: max size reached"
            },
            ExtendibleHashTableError::NoDirectoryForPageId => "cannot load directory by page id",
            ExtendibleHashTableError::NoBucketForPageId => "cannot load bucket by page id",
            ExtendibleHashTableError::Unknown => "unknown database error",
        }
    }
}

} // verus!
