//! What the branches of a repository share, and the events they raise.

use crate::crypto::sign::PublicKey;
use crate::error::Error;
use crate::protocol::block::BlockId;
use vstd::prelude::*;

verus! {

/// Counts the blocks that were written without committing the shared transaction.
#[derive(Clone, Copy, Debug, PartialEq, Eq, Structural)]
pub struct AtomicCounter {
    pub value: u32,
}

impl AtomicCounter {
    pub fn new() -> (c: AtomicCounter)
        ensures
            c.value == 0,
    {
        AtomicCounter { value: 0 }
    }

    /// Increments the counter by one and returns the new value.
    pub fn increment(&mut self) -> (n: u32)
        requires
            old(self).value < u32::MAX,
        ensures
            n == old(self).value + 1,
            final(self).value == n,
    {
        self.value = self.value + 1;
        self.value
    }

    /// Increments the counter by one and returns the new value, or
    /// nothing, with the counter unchanged, if it is at its largest.
    pub fn checked_increment(&mut self) -> (n: Option<u32>)
        ensures
            n == (if old(self).value < u32::MAX {
                Some((old(self).value + 1) as u32)
            } else {
                None
            }),
            final(self).value == (if old(self).value < u32::MAX {
                (old(self).value + 1) as u32
            } else {
                old(self).value
            }),
    {
        if self.value < u32::MAX {
            Some(self.increment())
        } else {
            None
        }
    }

    /// Resets the counter back to zero.
    pub fn reset(&mut self)
        ensures
            final(self).value == 0,
    {
        self.value = 0;
    }
}

/// State shared among all branches.
#[derive(Clone, Copy, Debug, PartialEq, Eq, Structural)]
pub struct BranchShared {
    /// Number of blocks written without committing the shared transaction.
    pub uncommitted_block_counter: AtomicCounter,
}

impl BranchShared {
    pub fn new() -> (s: BranchShared)
        ensures
            s.uncommitted_block_counter.value == 0,
    {
        BranchShared { uncommitted_block_counter: AtomicCounter::new() }
    }
}

/// What happened in a repository.
#[derive(Clone, Copy, Debug, PartialEq, Eq, Structural)]
pub enum Payload {
    /// A new snapshot was approved in the branch.
    SnapshotApproved(PublicKey),
    /// A block with the specified id referenced from the specified branch was received.
    BlockReceived { block_id: BlockId, branch_id: PublicKey },
}

/// Sender to send event notification for the given branch.
#[derive(Clone, Copy, Debug, PartialEq, Eq, Structural)]
pub struct BranchEventSender {
    pub branch_id: PublicKey,
}

impl BranchEventSender {
    pub fn new(branch_id: PublicKey) -> (s: BranchEventSender)
        ensures
            s.branch_id == branch_id,
    {
        BranchEventSender { branch_id }
    }

    /// The event to send: a snapshot of the branch was approved.
    pub fn send(&self) -> (p: Payload)
        ensures
            p == Payload::SnapshotApproved(self.branch_id),
    {
        Payload::SnapshotApproved(self.branch_id)
    }
}

/// The events to send for a block with id `block_id` that was received
/// and that the snapshots of `writers` refer to: one for each, in order.
pub fn block_received_events(block_id: BlockId, writers: &Vec<PublicKey>) -> (events: Vec<Payload>)
    ensures
        events@.len() == writers@.len(),
        forall|i: int|
            0 <= i < writers@.len() ==> #[trigger] events@[i] == (Payload::BlockReceived {
                block_id,
                branch_id: writers@[i],
            }),
{
    let mut events: Vec<Payload> = Vec::new();
    let mut i: usize = 0;
    while i < writers.len()
        invariant
            i <= writers@.len(),
            events@.len() == i,
            forall|j: int|
                0 <= j < i ==> #[trigger] events@[j] == (Payload::BlockReceived {
                    block_id,
                    branch_id: writers@[j],
                }),
        decreases writers@.len() - i,
    {
        events.push(Payload::BlockReceived { block_id, branch_id: writers[i] });
        i = i + 1;
    }
    events
}

/// A part of a path.
#[derive(Clone, Copy, Debug, PartialEq, Eq, Structural)]
pub enum Component {
    /// A drive or the like, in front of the path.
    Prefix,
    /// The root directory: the path is absolute.
    RootDir,
    /// The directory itself: `.`.
    CurDir,
    /// The directory above: `..`.
    ParentDir,
    /// A name.
    Normal,
}

/// What is found under a name in a directory.
#[derive(Clone, Copy, Debug, PartialEq, Eq, Structural)]
pub enum Lookup {
    Directory,
    File,
    /// An entry that was removed.
    Tombstone,
    /// No entry.
    NotFound,
}

/// What to do at one part of a path when making sure that a directory exists.
#[derive(Clone, Copy, Debug, PartialEq, Eq, Structural)]
pub enum DirectoryStep {
    /// Stay in the directory.
    Stay,
    /// Open the directory of that name.
    Open,
    /// Create a directory of that name.
    Create,
}

/// What to do with a part of a path: the root and `.` lead nowhere else,
/// a name leads into the directory of that name, which is created if there
/// is none, and cannot be had if a file has the name. Paths that are not
/// normalized, with `..` or a prefix in them, are not supported.
pub open spec fn spec_directory_step(component: Component, found: Lookup) -> Result<
    DirectoryStep,
    Error,
> {
    match component {
        Component::RootDir => Ok(DirectoryStep::Stay),
        Component::CurDir => Ok(DirectoryStep::Stay),
        Component::Normal => match found {
            Lookup::Directory => Ok(DirectoryStep::Open),
            Lookup::File => Err(Error::EntryIsFile),
            Lookup::Tombstone => Ok(DirectoryStep::Create),
            Lookup::NotFound => Ok(DirectoryStep::Create),
        },
        Component::Prefix => Err(Error::OperationNotSupported),
        Component::ParentDir => Err(Error::OperationNotSupported),
    }
}

/// The step to take at `component`, where `found` is what the directory
/// holds under the name, if the component is a name.
pub fn directory_step(component: Component, found: Lookup) -> (r: Result<DirectoryStep, Error>)
    ensures
        r == spec_directory_step(component, found),
{
    match component {
        Component::RootDir => Ok(DirectoryStep::Stay),
        Component::CurDir => Ok(DirectoryStep::Stay),
        Component::Normal => match found {
            Lookup::Directory => Ok(DirectoryStep::Open),
            Lookup::File => Err(Error::EntryIsFile),
            Lookup::Tombstone => Ok(DirectoryStep::Create),
            Lookup::NotFound => Ok(DirectoryStep::Create),
        },
        Component::Prefix => Err(Error::OperationNotSupported),
        Component::ParentDir => Err(Error::OperationNotSupported),
    }
}

} // verus!
