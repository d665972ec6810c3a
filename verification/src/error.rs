//! What can go wrong in the engine.

use vstd::prelude::*;

verus! {

/// Errors of the index, the block store and the exchange with peers.
#[derive(Clone, Copy, Debug, PartialEq, Eq, Structural)]
pub enum Error {
    /// The branch has no approved snapshot.
    BranchNotFound,
    /// The index has no block at the locator.
    LocatorNotFound,
    /// The entry that was to be read or removed does not exist.
    EntryNotFound,
    /// The block is not in the block store.
    BlockNotFound,
    /// No leaf node of the index refers to the block.
    BlockNotReferenced,
    /// Stored data does not have the shape it should have.
    MalformedData,
    /// The block does not have the length of a block.
    WrongBlockLength,
    /// The content of the block does not hash to the id it was asked for by.
    WrongBlockId,
    /// The proof is not signed by the write key of the repository.
    InvalidProof,
    /// The nodes were received before their parent.
    ParentNodeNotFound,
    /// The operation needs an access that the caller does not have.
    PermissionDenied,
    /// A version would have grown beyond the largest number.
    VersionOverflow,
    /// The operation is not supported.
    OperationNotSupported,
    /// The entry was taken for a directory and is none.
    EntryNotDirectory,
    /// The entry is a directory.
    EntryIsDirectory,
    /// The entry is a file.
    EntryIsFile,
}

impl Error {
    /// The text that stands for the error.
    pub open spec fn spec_message(&self) -> Seq<char> {
        match self {
            Error::BranchNotFound => "branch not found"@,
            Error::LocatorNotFound => "locator not found"@,
            Error::EntryNotFound => "entry not found"@,
            Error::BlockNotFound => "block not found"@,
            Error::BlockNotReferenced => "block not referenced by any branch"@,
            Error::MalformedData => "data is malformed"@,
            Error::WrongBlockLength => "block has wrong length"@,
            Error::WrongBlockId => "block content does not match its id"@,
            Error::InvalidProof => "proof is invalid"@,
            Error::ParentNodeNotFound => "parent node not found"@,
            Error::PermissionDenied => "permission denied"@,
            Error::VersionOverflow => "version vector overflow"@,
            Error::OperationNotSupported => "operation not supported"@,
            Error::EntryNotDirectory => "entry is not a directory"@,
            Error::EntryIsDirectory => "entry is a directory"@,
            Error::EntryIsFile => "entry is a file"@,
        }
    }

    /// What to show to a person.
    pub fn message(&self) -> (s: &'static str)
        ensures
            s@ == self.spec_message(),
    {
        match self {
            Error::BranchNotFound => "branch not found",
            Error::LocatorNotFound => "locator not found",
            Error::EntryNotFound => "entry not found",
            Error::BlockNotFound => "block not found",
            Error::BlockNotReferenced => "block not referenced by any branch",
            Error::MalformedData => "data is malformed",
            Error::WrongBlockLength => "block has wrong length",
            Error::WrongBlockId => "block content does not match its id",
            Error::InvalidProof => "proof is invalid",
            Error::ParentNodeNotFound => "parent node not found",
            Error::PermissionDenied => "permission denied",
            Error::VersionOverflow => "version vector overflow",
            Error::OperationNotSupported => "operation not supported",
            Error::EntryNotDirectory => "entry is not a directory",
            Error::EntryIsDirectory => "entry is a directory",
            Error::EntryIsFile => "entry is a file",
        }
    }
}

} // verus!
