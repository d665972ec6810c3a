//! Root nodes: one per snapshot of a branch.

use crate::crypto::hash;
use crate::crypto::sign::PublicKey;
use crate::protocol::signed::Proof;
use crate::protocol::node::{empty_inner_hash, spec_empty_inner_hash};
use crate::protocol::summary::{MultiBlockPresence, NodeState, Summary};
use crate::version_vector::VersionVector;
use vstd::prelude::*;

verus! {

/// Identifier of a snapshot within a store. Later snapshots have larger ids.
pub type SnapshotId = u64;

/// The root of a snapshot: the proof of what the branch held and the
/// summary of how much of it is stored.
#[derive(Debug)]
pub struct RootNode {
    pub snapshot_id: SnapshotId,
    pub proof: Proof,
    pub summary: Summary,
}

/// Which snapshots a query for the latest one considers.
#[derive(Clone, Copy, Debug, PartialEq, Eq, Structural)]
pub enum RootNodeFilter {
    /// Any approved snapshot.
    Any,
    /// Only the first of a run of approved snapshots with the same version
    /// vector: the later ones are drafts.
    Published,
}

impl RootNode {
    pub open spec fn wf(&self) -> bool {
        self.proof.wf()
    }

    /// The root of the snapshot of a branch that nothing was written to
    /// yet: no versions, the hash of the empty group, and no signature.
    pub fn empty(writer_id: PublicKey) -> (r: RootNode)
        ensures
            r.wf(),
            r.snapshot_id == 0,
            r.proof.writer_id == writer_id,
            r.proof.hash == spec_empty_inner_hash(),
            r.proof.signature@.len() == 0,
            forall|w: PublicKey| #[trigger] r.proof.version_vector.spec_get(w) == 0,
            r.summary == (Summary {
                state: NodeState::Complete,
                block_presence: MultiBlockPresence::Full,
            }),
    {
        RootNode {
            snapshot_id: 0,
            proof: Proof::new(writer_id, VersionVector::new(), empty_inner_hash(), Vec::new()),
            summary: Summary::full(),
        }
    }

    pub fn writer_id(&self) -> (w: PublicKey)
        ensures
            w == self.proof.writer_id,
    {
        self.proof.writer_id
    }

    pub fn hash(&self) -> (h: hash::Hash)
        ensures
            h == self.proof.hash,
    {
        self.proof.hash
    }

    /// A copy of this root node.
    pub fn duplicate(&self) -> (r: RootNode)
        requires
            self.wf(),
        ensures
            r.wf(),
            r.snapshot_id == self.snapshot_id,
            r.summary == self.summary,
            r.proof.writer_id == self.proof.writer_id,
            r.proof.hash == self.proof.hash,
            r.proof.signature@ == self.proof.signature@,
            r.proof.version_vector.versions@ == self.proof.version_vector.versions@,
    {
        RootNode {
            snapshot_id: self.snapshot_id,
            proof: self.proof.duplicate(),
            summary: self.summary,
        }
    }
}

} // verus!
