//! An entry as it stands in the branches of all replicas at once.

use crate::collections::table::{Entry, Table};
use crate::error::Error;
use vstd::prelude::*;

verus! {

/// What an entry of a directory is.
#[derive(Clone, Copy, Debug, PartialEq, Eq, Structural)]
pub enum EntryType {
    File,
    Directory,
}

/// The number that stands for no entry where entry types are handed out as numbers.
pub const ENTRY_TYPE_INVALID: u8 = 0;

/// The number that stands for a file.
pub const ENTRY_TYPE_FILE: u8 = 1;

/// The number that stands for a directory.
pub const ENTRY_TYPE_DIRECTORY: u8 = 2;

/// The number that stands for `entry_type`.
pub fn entry_type_to_num(entry_type: EntryType) -> (n: u8)
    ensures
        n == (match entry_type {
            EntryType::File => ENTRY_TYPE_FILE,
            EntryType::Directory => ENTRY_TYPE_DIRECTORY,
        }),
{
    match entry_type {
        EntryType::File => ENTRY_TYPE_FILE,
        EntryType::Directory => ENTRY_TYPE_DIRECTORY,
    }
}

/// What the index knows of a file: its length in bytes.
#[derive(Clone, Copy, Debug, PartialEq, Eq, Structural)]
pub struct File {
    pub len: u64,
}

/// What the index knows of one version of a directory: its length in bytes.
#[derive(Clone, Copy, Debug, PartialEq, Eq, Structural)]
pub struct Directory {
    pub len: u64,
}

/// A file, or the versions of a directory by the replicas that hold them.
#[derive(Debug)]
pub enum JointEntry {
    File(File),
    Directory(Table<Directory>),
}

/// The sum of the lengths of the first `n` versions.
pub open spec fn total_len(versions: Seq<Entry<Directory>>, n: int) -> nat
    decreases n,
{
    if n <= 0 {
        0
    } else {
        total_len(versions, n - 1) + versions[n - 1].value.len as nat
    }
}

pub proof fn lemma_total_len_grows(versions: Seq<Entry<Directory>>, i: int, n: int)
    requires
        0 <= i <= n <= versions.len(),
    ensures
        total_len(versions, i) <= total_len(versions, n),
    decreases n - i,
{
    if i < n {
        lemma_total_len_grows(versions, i, n - 1);
    }
}

impl JointEntry {
    /// The length of the entry in bytes: that of the file, or the sum of
    /// those of the versions of the directory.
    pub open spec fn spec_len(&self) -> nat {
        match self {
            JointEntry::File(file) => file.len as nat,
            JointEntry::Directory(dirs) => total_len(dirs.entries@, dirs.entries@.len() as int),
        }
    }

    pub fn entry_type(&self) -> (t: EntryType)
        ensures
            t == (match self {
                JointEntry::File(_) => EntryType::File,
                JointEntry::Directory(_) => EntryType::Directory,
            }),
    {
        match self {
            JointEntry::File(_) => EntryType::File,
            JointEntry::Directory(_) => EntryType::Directory,
        }
    }

    pub fn as_file(&self) -> (r: Result<&File, Error>)
        ensures
            match self {
                JointEntry::File(file) => r == Ok::<&File, Error>(file),
                JointEntry::Directory(_) => r == Err::<&File, Error>(Error::EntryNotDirectory),
            },
    {
        match self {
            JointEntry::File(file) => Ok(file),
            JointEntry::Directory(_) => Err(Error::EntryNotDirectory),
        }
    }

    pub fn as_directories(&self) -> (r: Result<&Table<Directory>, Error>)
        ensures
            match self {
                JointEntry::File(_) => r.is_err() && r.unwrap_err() == Error::EntryIsDirectory,
                JointEntry::Directory(dirs) => r.is_ok() && *r.unwrap() == *dirs,
            },
    {
        match self {
            JointEntry::File(_) => Err(Error::EntryIsDirectory),
            JointEntry::Directory(dirs) => Ok(dirs),
        }
    }

    /// Length of the entry in bytes.
    pub fn len(&self) -> (n: u64)
        requires
            self.spec_len() <= u64::MAX,
        ensures
            n == self.spec_len(),
    {
        match self {
            JointEntry::File(file) => file.len,
            JointEntry::Directory(dirs) => {
                let mut sum: u64 = 0;
                let mut i: usize = 0;
                while i < dirs.len()
                    invariant
                        i <= dirs.entries@.len(),
                        sum == total_len(dirs.entries@, i as int),
                        total_len(dirs.entries@, dirs.entries@.len() as int) <= u64::MAX,
                    decreases dirs.entries@.len() - i,
                {
                    proof {
                        lemma_total_len_grows(dirs.entries@, i + 1, dirs.entries@.len() as int);
                    }
                    sum = sum + dirs.value_at(i).len;
                    i = i + 1;
                }
                sum
            },
        }
    }

    /// Length of the entry in bytes, or nothing if it is beyond what a `u64` holds.
    pub fn checked_len(&self) -> (n: Option<u64>)
        ensures
            n == (if self.spec_len() <= u64::MAX {
                Some(self.spec_len() as u64)
            } else {
                None
            }),
    {
        match self {
            JointEntry::File(file) => Some(file.len),
            JointEntry::Directory(dirs) => {
                let mut sum: u64 = 0;
                let mut i: usize = 0;
                while i < dirs.len()
                    invariant
                        i <= dirs.entries@.len(),
                        sum == total_len(dirs.entries@, i as int),
                        self.spec_len() == total_len(dirs.entries@, dirs.entries@.len() as int),
                    decreases dirs.entries@.len() - i,
                {
                    let len = dirs.value_at(i).len;
                    if sum > u64::MAX - len {
                        proof {
                            lemma_total_len_grows(dirs.entries@, i + 1, dirs.entries@.len() as int);
                            assert(total_len(dirs.entries@, i + 1) == sum + len);
                            assert(self.spec_len() >= sum + len);
                        }
                        return None;
                    }
                    sum = sum + len;
                    i = i + 1;
                }
                Some(sum)
            },
        }
    }
}

} // verus!
