//! The store of a repository: the snapshots of every branch, the nodes of
//! their indices and the blocks that they refer to.

pub mod blocks;
pub mod client;
pub mod commit;
pub mod expiration;
pub mod gc;
pub mod laws;
pub mod model;
pub mod nodes;
pub mod paths;
pub mod prune;
pub mod reach;
pub mod receive;
pub mod roots;
pub mod summaries;
pub mod walk;

use crate::collections::table::Table;
use crate::crypto::hash;
use crate::crypto::sign::PublicKey;
use crate::error::Error;
use crate::protocol::block::{Block, BlockId};
use crate::protocol::node::{get_bucket, InnerNodes, LeafNode, LeafNodes};
use crate::protocol::root_node::{RootNode, RootNodeFilter};
use crate::protocol::summary::NodeState;
use crate::store::model::{
    complete0, find_leaf, inner_groups_wf, is_settled, leaf_groups_wf, roots_ordered,
};
use vstd::prelude::*;

verus! {

/// Everything that a replica stores of a repository.
#[derive(Debug)]
pub struct Store {
    /// The root nodes of all snapshots, oldest first.
    pub roots: Vec<RootNode>,
    /// The id that the next snapshot gets.
    pub next_snapshot_id: u64,
    /// The groups of the first inner layer, by the hash of their root.
    pub inners0: Table<InnerNodes>,
    /// The groups of the second inner layer, by the hash of their parent.
    pub inners1: Table<InnerNodes>,
    /// The groups of the third inner layer, by the hash of their parent.
    pub inners2: Table<InnerNodes>,
    /// The groups of leaf nodes, by the hash of their parent.
    pub leaves: Table<LeafNodes>,
    /// The blocks, by their id.
    pub blocks: Table<Block>,
    /// The ids of stored blocks that no approved snapshot refers to.
    pub unreachable_blocks: Vec<BlockId>,
}

impl Store {
    /// The tables are ordered and content-addressed, snapshots are numbered
    /// in the order they were made, and every snapshot that is marked as
    /// complete, approved or rejected is complete.
    pub open spec fn wf(&self) -> bool {
        &&& self.inners0.wf()
        &&& self.inners1.wf()
        &&& self.inners2.wf()
        &&& self.leaves.wf()
        &&& self.blocks.wf()
        &&& inner_groups_wf(self.inners0@)
        &&& inner_groups_wf(self.inners1@)
        &&& inner_groups_wf(self.inners2@)
        &&& leaf_groups_wf(self.leaves@)
        &&& roots_ordered(self.roots@, self.next_snapshot_id)
        &&& forall|i: int| 0 <= i < self.roots@.len() ==> (#[trigger] self.roots@[i]).wf()
        &&& forall|i: int|
            0 <= i < self.roots@.len() && is_settled(#[trigger] self.roots@[i])
                ==> self.spec_complete(self.roots@[i].proof.hash)
        &&& forall|k: hash::Hash| #[trigger]
            self.blocks@.contains_key(k) ==> self.blocks@[k].wf() && self.blocks@[k].id.hash == k
    }

    /// Whether the snapshot with root hash `root` is complete in this store.
    pub open spec fn spec_complete(&self, root: hash::Hash) -> bool {
        complete0(self.inners0@, self.inners1@, self.inners2@, self.leaves@, root)
    }

    /// The leaf at `locator` in the snapshot with root hash `root`.
    pub open spec fn spec_find_leaf(&self, root: hash::Hash, locator: hash::Hash) -> Option<
        LeafNode,
    > {
        find_leaf(self.inners0@, self.inners1@, self.inners2@, self.leaves@, root, locator)
    }

    /// Whether the root node at `i` is an approved snapshot of `writer`.
    pub open spec fn is_approved_of(&self, i: int, writer: PublicKey) -> bool {
        &&& 0 <= i < self.roots@.len()
        &&& self.roots@[i].proof.writer_id == writer
        &&& self.roots@[i].summary.state == NodeState::Approved
    }

    /// The position of the latest approved snapshot of `writer` among the
    /// first `end` root nodes, or -1 if there is none.
    pub open spec fn spec_latest_approved_before(&self, writer: PublicKey, end: int) -> int
        decreases end,
    {
        if end <= 0 {
            -1
        } else if self.is_approved_of(end - 1, writer) {
            end - 1
        } else {
            self.spec_latest_approved_before(writer, end - 1)
        }
    }

    /// The position of the latest approved snapshot of `writer`, or -1.
    pub open spec fn spec_latest_approved(&self, writer: PublicKey) -> int {
        self.spec_latest_approved_before(writer, self.roots@.len() as int)
    }

    /// The latest approved snapshot of a writer is an approved snapshot of that writer.
    pub proof fn lemma_latest_approved(&self, writer: PublicKey, end: int)
        requires
            0 <= end <= self.roots@.len(),
        ensures
            self.spec_latest_approved_before(writer, end) < end,
            self.spec_latest_approved_before(writer, end) >= 0 ==> self.is_approved_of(
                self.spec_latest_approved_before(writer, end),
                writer,
            ),
            self.spec_latest_approved_before(writer, end) >= -1,
        decreases end,
    {
        if end > 0 && !self.is_approved_of(end - 1, writer) {
            self.lemma_latest_approved(writer, end - 1);
        }
    }

    /// A store without snapshots, nodes or blocks.
    pub fn new() -> (s: Store)
        ensures
            s.wf(),
            s.roots@.len() == 0,
            s.next_snapshot_id == 0,
            s.inners0@ == Map::<hash::Hash, InnerNodes>::empty(),
            s.inners1@ == Map::<hash::Hash, InnerNodes>::empty(),
            s.inners2@ == Map::<hash::Hash, InnerNodes>::empty(),
            s.leaves@ == Map::<hash::Hash, LeafNodes>::empty(),
            s.blocks@ == Map::<hash::Hash, Block>::empty(),
            s.unreachable_blocks@.len() == 0,
    {
        Store {
            roots: Vec::new(),
            next_snapshot_id: 0,
            inners0: Table::new(),
            inners1: Table::new(),
            inners2: Table::new(),
            leaves: Table::new(),
            blocks: Table::new(),
            unreachable_blocks: Vec::new(),
        }
    }

    /// The position of the latest approved snapshot of `writer` among the first `end` root nodes.
    pub fn latest_approved_before(&self, writer: &PublicKey, end: usize) -> (r: Option<usize>)
        requires
            end <= self.roots@.len(),
        ensures
            match r {
                Some(i) => i as int == self.spec_latest_approved_before(*writer, end as int),
                None => self.spec_latest_approved_before(*writer, end as int) == -1,
            },
            r.is_some() ==> r.unwrap() < end && self.is_approved_of(r.unwrap() as int, *writer),
    {
        let mut i: usize = end;
        while i > 0
            invariant
                i <= end,
                end <= self.roots@.len(),
                self.spec_latest_approved_before(*writer, end as int)
                    == self.spec_latest_approved_before(*writer, i as int),
            decreases i,
        {
            i = i - 1;
            let root = &self.roots[i];
            if root.proof.writer_id == *writer && root.summary.state.is_approved() {
                return Some(i);
            }
        }
        None
    }

    /// Finds the block at `encoded_locator` in the snapshot with root hash
    /// `root`, descending by the buckets of the locator.
    pub fn find_block_at(&self, root: &hash::Hash, encoded_locator: &hash::Hash) -> (r: Result<
        BlockId,
        Error,
    >)
        requires
            self.wf(),
        ensures
            r == (match self.spec_find_leaf(*root, *encoded_locator) {
                Some(leaf) => Ok::<BlockId, Error>(leaf.block_id),
                None => Err::<BlockId, Error>(Error::LocatorNotFound),
            }),
    {
        let n0 = match self.inners0.get(root) {
            None => {
                return Err(Error::LocatorNotFound);
            },
            Some(group) => match group.get(get_bucket(encoded_locator, 0)) {
                None => {
                    return Err(Error::LocatorNotFound);
                },
                Some(node) => node,
            },
        };
        let n1 = match self.inners1.get(&n0.hash) {
            None => {
                return Err(Error::LocatorNotFound);
            },
            Some(group) => match group.get(get_bucket(encoded_locator, 1)) {
                None => {
                    return Err(Error::LocatorNotFound);
                },
                Some(node) => node,
            },
        };
        let n2 = match self.inners2.get(&n1.hash) {
            None => {
                return Err(Error::LocatorNotFound);
            },
            Some(group) => match group.get(get_bucket(encoded_locator, 2)) {
                None => {
                    return Err(Error::LocatorNotFound);
                },
                Some(node) => node,
            },
        };
        match self.leaves.get(&n2.hash) {
            None => Err(Error::LocatorNotFound),
            Some(group) => match group.get(encoded_locator) {
                None => Err(Error::LocatorNotFound),
                Some(leaf) => Ok(leaf.block_id),
            },
        }
    }

    /// Finds the block at `encoded_locator` in the latest approved snapshot of `branch_id`.
    pub fn find_block(&self, branch_id: &PublicKey, encoded_locator: &hash::Hash) -> (r: Result<
        BlockId,
        Error,
    >)
        requires
            self.wf(),
        ensures
            r == (if self.spec_latest_approved(*branch_id) < 0 {
                Err::<BlockId, Error>(Error::BranchNotFound)
            } else {
                match self.spec_find_leaf(
                    self.roots@[self.spec_latest_approved(*branch_id)].proof.hash,
                    *encoded_locator,
                ) {
                    Some(leaf) => Ok::<BlockId, Error>(leaf.block_id),
                    None => Err::<BlockId, Error>(Error::LocatorNotFound),
                }
            }),
    {
        match self.latest_approved_before(branch_id, self.roots.len()) {
            None => Err(Error::BranchNotFound),
            Some(i) => {
                let root = self.roots[i].proof.hash;
                self.find_block_at(&root, encoded_locator)
            },
        }
    }
}

} // verus!
