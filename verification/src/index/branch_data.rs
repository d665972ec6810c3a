//! Branches and their snapshots: reading and changing what a writer's
//! branch holds.

use crate::crypto::hash;
use crate::crypto::sign::PublicKey;
use crate::error::Error;
use crate::index::path::PathView;
use crate::protocol::block::BlockId;
use crate::protocol::node::{hash_eq_empty_inner, leaves_contain, leaves_at, spec_empty_inner_hash};
use crate::protocol::root_node::{RootNode, RootNodeFilter};
use crate::protocol::signed::Proof;
use crate::protocol::summary::{NodeState, SingleBlockPresence, Summary};
use crate::store::model::is_settled;
use crate::store::roots::{has_root, same_root};
use crate::store::Store;
use crate::version_vector::{VersionVector, VersionVectorOp};
use vstd::prelude::*;

verus! {

/// The branch of one writer.
#[derive(Clone, Copy, Debug)]
pub struct BranchData {
    pub writer_id: PublicKey,
}

/// One snapshot of a branch: its root node, as it was loaded or made.
#[derive(Debug)]
pub struct SnapshotData {
    pub root_node: RootNode,
}

/// Whether `store` knows the snapshot with root `root` to be complete: it
/// is the snapshot of a branch that holds nothing, or the store has a root
/// node with the same id and hash that is not marked as incomplete.
pub open spec fn is_current(store: &Store, root: &RootNode) -> bool {
    root.proof.hash == spec_empty_inner_hash() || exists|i: int|
        0 <= i < store.roots@.len() && (#[trigger] store.roots@[i]).snapshot_id == root.snapshot_id
            && store.roots@[i].proof.hash == root.proof.hash && is_settled(store.roots@[i])
}

/// The leaf of the path `p`, if it has one.
pub open spec fn path_leaf(p: PathView) -> Option<crate::protocol::node::LeafNode> {
    if leaves_contain(p.leaves, p.locator) {
        Some(leaves_at(p.leaves, p.locator))
    } else {
        None
    }
}

/// What is written when a snapshot is replaced by its successor.
pub struct Change {
    /// The root hash of the successor.
    pub hash: hash::Hash,
    /// The summary of the successor.
    pub summary: Summary,
}

impl SnapshotData {
    pub open spec fn wf(&self) -> bool {
        self.root_node.wf()
    }

    /// Returns the id of the writer that owns the branch of this snapshot.
    pub fn branch_id(&self) -> (id: &PublicKey)
        ensures
            *id == self.root_node.proof.writer_id,
    {
        &self.root_node.proof.writer_id
    }

    /// Returns the root hash of this snapshot.
    pub fn root_hash(&self) -> (h: &hash::Hash)
        ensures
            *h == self.root_node.proof.hash,
    {
        &self.root_node.proof.hash
    }

    pub fn to_branch_data(&self) -> (b: BranchData)
        ensures
            b.writer_id == self.root_node.proof.writer_id,
    {
        BranchData { writer_id: self.root_node.proof.writer_id }
    }

    /// Gets the version vector of this snapshot.
    pub fn version_vector(&self) -> (vv: &VersionVector)
        ensures
            *vv == self.root_node.proof.version_vector,
    {
        &self.root_node.proof.version_vector
    }

    /// Whether `store` knows this snapshot to be complete.
    pub fn is_current(&self, store: &Store) -> (r: bool)
        requires
            store.wf(),
        ensures
            r == is_current(store, &self.root_node),
            r ==> store.spec_complete(self.root_node.proof.hash),
    {
        if hash_eq_empty_inner(&self.root_node.proof.hash) {
            return true;
        }
        match store.position_of(self.root_node.snapshot_id) {
            Some(i) => {
                let stored = &store.roots[i];
                let r = stored.proof.hash == self.root_node.proof.hash
                    && stored.summary.is_complete();
                proof {
                    if !r && is_current(store, &self.root_node) {
                        let j = choose|j: int|
                            0 <= j < store.roots@.len() && (#[trigger] store.roots@[j]).snapshot_id
                                == self.root_node.snapshot_id && store.roots@[j].proof.hash
                                == self.root_node.proof.hash && is_settled(store.roots@[j]);
                        if j < i {
                            assert(store.roots@[j].snapshot_id < store.roots@[i as int].snapshot_id);
                        } else if i < j {
                            assert(store.roots@[i as int].snapshot_id < store.roots@[j].snapshot_id);
                        }
                    }
                }
                r
            },
            None => false,
        }
    }

    /// The latest approved snapshot of the same branch that is older than
    /// this one, if there is one.
    pub fn load_prev(&self, store: &Store) -> (r: Option<SnapshotData>)
        requires
            store.wf(),
        ensures
            ({
                let i = store.spec_prev_approved(
                    self.root_node.proof.writer_id,
                    self.root_node.snapshot_id,
                    store.roots@.len() as int,
                );
                match r {
                    Some(prev) => 0 <= i < store.roots@.len() && prev.wf() && same_root(
                        prev.root_node,
                        store.roots@[i],
                    ),
                    None => i == -1,
                }
            }),
    {
        match store.load_prev_approved_root_node(&self.root_node) {
            Some(root_node) => Some(SnapshotData { root_node }),
            None => None,
        }
    }

    /// Does this snapshot exist in the store?
    pub fn is_stored(&self, store: &Store) -> (r: bool)
        requires
            store.wf(),
        ensures
            r == (exists|i: int|
                0 <= i < store.roots@.len() && (#[trigger] store.roots@[i]).snapshot_id
                    == self.root_node.snapshot_id && store.roots@[i].proof.hash
                    == self.root_node.proof.hash),
    {
        match store.position_of(self.root_node.snapshot_id) {
            Some(i) => {
                let r = store.roots[i].proof.hash == self.root_node.proof.hash;
                proof {
                    if !r && (exists|j: int|
                        0 <= j < store.roots@.len() && (#[trigger] store.roots@[j]).snapshot_id
                            == self.root_node.snapshot_id && store.roots@[j].proof.hash
                            == self.root_node.proof.hash) {
                        let j = choose|j: int|
                            0 <= j < store.roots@.len() && (#[trigger] store.roots@[j]).snapshot_id
                                == self.root_node.snapshot_id && store.roots@[j].proof.hash
                                == self.root_node.proof.hash;
                        if j < i {
                            assert(store.roots@[j].snapshot_id < store.roots@[i as int].snapshot_id);
                        } else if i < j {
                            assert(store.roots@[i as int].snapshot_id < store.roots@[j].snapshot_id);
                        }
                    }
                }
                r
            },
            None => false,
        }
    }

    /// Retrieves the block at the encoded locator and whether it is stored.
    pub fn get_block(&self, store: &Store, encoded_locator: &hash::Hash) -> (r: Result<
        (BlockId, SingleBlockPresence),
        Error,
    >)
        requires
            store.wf(),
        ensures
            r == (match store.spec_find_leaf(self.root_node.proof.hash, *encoded_locator) {
                Some(leaf) => Ok::<(BlockId, SingleBlockPresence), Error>(
                    (leaf.block_id, leaf.block_presence),
                ),
                None => Err::<(BlockId, SingleBlockPresence), Error>(Error::EntryNotFound),
            }),
    {
        let path = store.load_path(
            self.root_node.proof.hash,
            self.root_node.summary,
            *encoded_locator,
        );
        match path.get_leaf() {
            Some(found) => Ok(found),
            None => Err(Error::EntryNotFound),
        }
    }

    /// Whether this snapshot stands in `store` as the successor of `before`
    /// with root hash `hash` and summary `summary`: it is the last root
    /// node, unsigned, and the older snapshots of the branch are gone.
    pub open spec fn succeeds(
        &self,
        store: &Store,
        before: &RootNode,
        old_store: &Store,
        hash: hash::Hash,
        summary: Summary,
    ) -> bool {
        let writer = before.proof.writer_id;
        &&& self.root_node.wf()
        &&& self.root_node.snapshot_id == old_store.next_snapshot_id
        &&& self.root_node.proof.writer_id == writer
        &&& self.root_node.proof.hash == hash
        &&& self.root_node.summary == summary
        &&& self.root_node.proof.signature@.len() == 0
        &&& store.next_snapshot_id == old_store.next_snapshot_id + 1
        &&& store.roots@.len() > 0
        &&& same_root(self.root_node, store.roots@.last())
        &&& forall|r: RootNode|
            #![trigger has_root(store.roots@, r)]
            #![trigger has_root(old_store.roots@, r)]
            has_root(store.roots@, r) <==> (r == store.roots@.last() || (has_root(
                old_store.roots@,
                r,
            ) && r.proof.writer_id != writer))
    }

    /// Makes the successor of this snapshot with version vector `vv`, root
    /// hash `change.hash` and summary `change.summary`, and removes the
    /// older snapshots of the branch with the nodes that no snapshot
    /// refers to any more.
    fn commit(&mut self, store: &mut Store, vv: VersionVector, change: Change) -> (r: Result<
        (),
        Error,
    >)
        requires
            old(store).wf(),
            old(self).wf(),
            vv.wf(),
            change.summary.state != NodeState::Incomplete ==> old(store).spec_complete(
                change.hash,
            ),
        ensures
            final(store).wf(),
            final(self).wf(),
            r.is_ok() <==> old(store).next_snapshot_id < u64::MAX,
            r.is_err() ==> r == Err::<(), Error>(Error::OperationNotSupported) && *final(store)
                == *old(store) && *final(self) == *old(self),
            r.is_ok() ==> {
                &&& final(self).succeeds(
                    final(store),
                    &old(self).root_node,
                    old(store),
                    change.hash,
                    change.summary,
                )
                &&& final(self).root_node.proof.version_vector.versions@ == vv.versions@
                &&& final(store).reclaimed_from(old(store))
                &&& final(store).blocks_accounted()
            },
    {
        let writer = self.root_node.proof.writer_id;
        let proof = Proof::new(writer, vv, change.hash, Vec::new());
        let copy = proof.duplicate();
        let id = match store.create_root_node(proof, change.summary) {
            Err(e) => {
                return Err(e);
            },
            Ok(id) => id,
        };
        let ghost mid = *store;
        let ghost made = mid.roots@.last();
        store.drop_older(writer, id);
        let ghost dropped = *store;
        store.remove_unreachable_nodes();
        self.root_node = RootNode { snapshot_id: id, proof: copy, summary: change.summary };
        proof {
            store.lemma_reclaimed_from(&dropped, old(store));
            let before = old(store).roots@;
            assert(mid.roots@ == before.push(made));
            assert(has_root(mid.roots@, made)) by {
                assert(mid.roots@[mid.roots@.len() - 1] == made);
            }
            assert(has_root(store.roots@, made));
            let at = choose|at: int| 0 <= at < store.roots@.len()
                && #[trigger] store.roots@[at] == made;
            // The new snapshot has the largest id, so it is the last one.
            assert(at == store.roots@.len() - 1) by {
                if at < store.roots@.len() - 1 {
                    let last = store.roots@[store.roots@.len() - 1];
                    assert(has_root(store.roots@, last));
                    assert(has_root(mid.roots@, last));
                    let m = choose|m: int| 0 <= m < mid.roots@.len()
                        && #[trigger] mid.roots@[m] == last;
                    assert(store.roots@[at].snapshot_id < last.snapshot_id);
                    if m < before.len() {
                        assert(before[m].snapshot_id < old(store).next_snapshot_id);
                    }
                }
            }
            assert forall|r: RootNode|
                #![trigger has_root(store.roots@, r)]
                #![trigger has_root(before, r)]
                has_root(store.roots@, r) <==> (r == store.roots@.last() || (has_root(before, r)
                    && r.proof.writer_id != writer)) by {
                if has_root(store.roots@, r) && r != made {
                    assert(has_root(mid.roots@, r));
                    let m = choose|m: int| 0 <= m < mid.roots@.len()
                        && #[trigger] mid.roots@[m] == r;
                    assert(m < before.len());
                    assert(before[m] == r);
                    assert(before[m].snapshot_id < id);
                }
                if has_root(before, r) && r.proof.writer_id != writer {
                    let m = choose|m: int| 0 <= m < before.len() && #[trigger] before[m] == r;
                    assert(mid.roots@[m] == r);
                    assert(has_root(mid.roots@, r));
                }
            }
        }
        Ok(())
    }

    /// What `insert_block` returns for a snapshot with root `root` in `store`.
    pub open spec fn spec_insert_result(
        store: &Store,
        root: &RootNode,
        locator: hash::Hash,
        block_id: BlockId,
        block_presence: SingleBlockPresence,
    ) -> Result<bool, Error> {
        let loaded = store.spec_load_path(root.proof.hash, root.summary, locator);
        let changed = loaded.spec_set_leaf(block_id, block_presence);
        if !store.spec_complete(root.proof.hash) {
            Err(Error::BranchNotFound)
        } else if path_leaf(loaded).is_some() && path_leaf(loaded).unwrap().block_id == block_id {
            Ok(false)
        } else if root.proof.version_vector.spec_get(root.proof.writer_id) == u64::MAX {
            Err(Error::VersionOverflow)
        } else if !store.can_save_path(changed) {
            Err(Error::MalformedData)
        } else if store.next_snapshot_id == u64::MAX {
            Err(Error::OperationNotSupported)
        } else {
            Ok(true)
        }
    }

    /// Inserts a block into the index at the encoded locator.
    ///
    /// Returns `Ok(false)`, and changes nothing, if the locator holds the
    /// block already. Otherwise the snapshot is replaced by its successor:
    /// the version of the branch's writer is one higher, the block stands
    /// at the locator, and the older snapshots of the branch are removed
    /// with the nodes that no snapshot refers to any more. The new root
    /// node is not signed yet. Fails with `BranchNotFound`, and changes
    /// nothing, if the store does not hold every node of this snapshot.
    pub fn insert_block(
        &mut self,
        store: &mut Store,
        encoded_locator: &hash::Hash,
        block_id: &BlockId,
        block_presence: SingleBlockPresence,
    ) -> (r: Result<bool, Error>)
        requires
            old(store).wf(),
            old(self).wf(),
        ensures
            final(store).wf(),
            final(self).wf(),
            r == SnapshotData::spec_insert_result(
                old(store),
                &old(self).root_node,
                *encoded_locator,
                *block_id,
                block_presence,
            ),
            r == Ok::<bool, Error>(false)
                ==> *final(store) == *old(store) && *final(self) == *old(self),
            r.is_err() ==> final(store).extends(old(store)) && *final(self) == *old(self),
            (old(store).blocks_accounted() || r == Ok::<bool, Error>(true) || r == Err::<
                bool,
                Error,
            >(Error::MalformedData) || r == Err::<bool, Error>(Error::OperationNotSupported))
                ==> final(store).blocks_accounted(),
            r == Ok::<bool, Error>(true) ==> {
                let changed = old(store).spec_load_path(
                    old(self).root_node.proof.hash,
                    old(self).root_node.summary,
                    *encoded_locator,
                ).spec_set_leaf(*block_id, block_presence);
                &&& final(self).succeeds(
                    final(store),
                    &old(self).root_node,
                    old(store),
                    changed.root_hash,
                    changed.root_summary.with_state_spec(NodeState::Approved),
                )
                &&& forall|w: PublicKey|
                    #[trigger] final(self).root_node.proof.version_vector.spec_get(w) == (if w
                        == old(self).root_node.proof.writer_id {
                        (old(self).root_node.proof.version_vector.spec_get(w) + 1) as u64
                    } else {
                        old(self).root_node.proof.version_vector.spec_get(w)
                    })
                &&& old(self).root_node.proof.version_vector.spec_lt(
                    &final(self).root_node.proof.version_vector,
                )
                &&& final(store).written_path(old(store), changed)
                &&& final(store).spec_find_leaf(changed.root_hash, *encoded_locator).is_some()
                &&& final(store).spec_find_leaf(changed.root_hash, *encoded_locator).unwrap().block_id
                    == *block_id
            },
    {
        if !store.is_complete(&self.root_node.proof.hash) {
            return Err(Error::BranchNotFound);
        }
        let mut path = store.load_path(
            self.root_node.proof.hash,
            self.root_node.summary,
            *encoded_locator,
        );
        if path.has_leaf(block_id) {
            return Ok(false);
        }
        let writer = self.root_node.proof.writer_id;
        let mut vv = self.root_node.proof.version_vector.duplicate();
        match vv.increment(writer) {
            Err(e) => {
                return Err(e);
            },
            Ok(()) => {},
        }
        path.set_leaf(block_id, block_presence);
        let ghost start = *store;
        let ghost next = vv;
        match store.save_path_groups(&path) {
            Err(e) => {
                store.mark_unreachable_blocks();
                return Err(e);
            },
            Ok(()) => {},
        }
        let change = Change {
            hash: path.root_hash,
            summary: path.root_summary.with_state(NodeState::Approved),
        };
        let ghost mid = *store;
        match self.commit(store, vv, change) {
            Err(e) => {
                store.mark_unreachable_blocks();
                return Err(e);
            },
            Ok(()) => {},
        }
        proof {
            assert(store.spec_find_leaf(change.hash, *encoded_locator) == mid.spec_find_leaf(
                change.hash,
                *encoded_locator,
            ));
            assert forall|w: PublicKey|
                #[trigger] self.root_node.proof.version_vector.spec_get(w) == (if w == writer {
                    (old(self).root_node.proof.version_vector.spec_get(w) + 1) as u64
                } else {
                    old(self).root_node.proof.version_vector.spec_get(w)
                }) by {
                assert(self.root_node.proof.version_vector.spec_get(w) == next.spec_get(w));
            }
            crate::version_vector::lemma_incremented_is_greater(
                &old(self).root_node.proof.version_vector,
                &self.root_node.proof.version_vector,
                writer,
            );
        }
        Ok(true)
    }

    /// What `remove_block` returns for a snapshot with root `root` in `store`.
    pub open spec fn spec_remove_result(
        store: &Store,
        root: &RootNode,
        locator: hash::Hash,
        expected: Option<BlockId>,
    ) -> Result<bool, Error> {
        let loaded = store.spec_load_path(root.proof.hash, root.summary, locator);
        let changed = loaded.spec_remove_leaf();
        if !store.spec_complete(root.proof.hash) {
            Err(Error::BranchNotFound)
        } else if path_leaf(loaded).is_none() {
            Err(Error::EntryNotFound)
        } else if expected.is_some() && path_leaf(loaded).unwrap().block_id != expected.unwrap() {
            Ok(false)
        } else if root.proof.version_vector.spec_get(root.proof.writer_id) == u64::MAX {
            Err(Error::VersionOverflow)
        } else if !store.can_save_path(changed) {
            Err(Error::MalformedData)
        } else if store.next_snapshot_id == u64::MAX {
            Err(Error::OperationNotSupported)
        } else {
            Ok(true)
        }
    }

    /// Removes the block at the encoded locator. If `expected_block_id` is
    /// given, the block is removed only if it is that one.
    ///
    /// Returns whether the block was removed. If it was, the snapshot is
    /// replaced by its successor, in which the locator holds no block. If
    /// the locator held no block, this fails with `EntryNotFound` and
    /// changes nothing.
    pub fn remove_block(
        &mut self,
        store: &mut Store,
        encoded_locator: &hash::Hash,
        expected_block_id: Option<&BlockId>,
    ) -> (r: Result<bool, Error>)
        requires
            old(store).wf(),
            old(self).wf(),
        ensures
            final(store).wf(),
            final(self).wf(),
            r == SnapshotData::spec_remove_result(
                old(store),
                &old(self).root_node,
                *encoded_locator,
                match expected_block_id {
                    Some(id) => Some(*id),
                    None => None,
                },
            ),
            r == Ok::<bool, Error>(false)
                ==> *final(store) == *old(store) && *final(self) == *old(self),
            r.is_err() ==> final(store).extends(old(store)) && *final(self) == *old(self),
            (old(store).blocks_accounted() || r == Ok::<bool, Error>(true) || r == Err::<
                bool,
                Error,
            >(Error::MalformedData) || r == Err::<bool, Error>(Error::OperationNotSupported))
                ==> final(store).blocks_accounted(),
            r == Err::<bool, Error>(Error::EntryNotFound) ==> *final(store) == *old(store),
            r == Ok::<bool, Error>(true) ==> {
                let changed = old(store).spec_load_path(
                    old(self).root_node.proof.hash,
                    old(self).root_node.summary,
                    *encoded_locator,
                ).spec_remove_leaf();
                &&& final(self).succeeds(
                    final(store),
                    &old(self).root_node,
                    old(store),
                    changed.root_hash,
                    changed.root_summary.with_state_spec(NodeState::Approved),
                )
                &&& forall|w: PublicKey|
                    #[trigger] final(self).root_node.proof.version_vector.spec_get(w) == (if w
                        == old(self).root_node.proof.writer_id {
                        (old(self).root_node.proof.version_vector.spec_get(w) + 1) as u64
                    } else {
                        old(self).root_node.proof.version_vector.spec_get(w)
                    })
                &&& old(self).root_node.proof.version_vector.spec_lt(
                    &final(self).root_node.proof.version_vector,
                )
                &&& final(store).written_path(old(store), changed)
                &&& final(store).spec_find_leaf(changed.root_hash, *encoded_locator).is_none()
            },
    {
        if !store.is_complete(&self.root_node.proof.hash) {
            return Err(Error::BranchNotFound);
        }
        let mut path = store.load_path(
            self.root_node.proof.hash,
            self.root_node.summary,
            *encoded_locator,
        );
        let found = match path.get_leaf() {
            None => {
                return Err(Error::EntryNotFound);
            },
            Some(found) => found.0,
        };
        match expected_block_id {
            Some(expected) => {
                if found != *expected {
                    return Ok(false);
                }
            },
            None => {},
        }
        let writer = self.root_node.proof.writer_id;
        let mut vv = self.root_node.proof.version_vector.duplicate();
        match vv.increment(writer) {
            Err(e) => {
                return Err(e);
            },
            Ok(()) => {},
        }
        let ghost next = vv;
        let ghost loaded = path@;
        path.remove_leaf();
        assert(path@ == loaded.spec_remove_leaf());
        assert(path.spec_leaf().is_none());
        match store.save_path_groups(&path) {
            Err(e) => {
                store.mark_unreachable_blocks();
                return Err(e);
            },
            Ok(()) => {},
        }
        let change = Change {
            hash: path.root_hash,
            summary: path.root_summary.with_state(NodeState::Approved),
        };
        let ghost mid = *store;
        match self.commit(store, vv, change) {
            Err(e) => {
                store.mark_unreachable_blocks();
                return Err(e);
            },
            Ok(()) => {},
        }
        proof {
            assert(store.spec_find_leaf(change.hash, *encoded_locator) == mid.spec_find_leaf(
                change.hash,
                *encoded_locator,
            ));
            assert forall|w: PublicKey|
                #[trigger] self.root_node.proof.version_vector.spec_get(w) == (if w == writer {
                    (old(self).root_node.proof.version_vector.spec_get(w) + 1) as u64
                } else {
                    old(self).root_node.proof.version_vector.spec_get(w)
                }) by {
                assert(self.root_node.proof.version_vector.spec_get(w) == next.spec_get(w));
            }
            crate::version_vector::lemma_incremented_is_greater(
                &old(self).root_node.proof.version_vector,
                &self.root_node.proof.version_vector,
                writer,
            );
        }
        Ok(true)
    }

    /// What `bump` returns for a snapshot with root `root` in `store`.
    pub open spec fn spec_bump_result(store: &Store, root: &RootNode, op: &VersionVectorOp) -> Result<
        bool,
        Error,
    > {
        let writer = root.proof.writer_id;
        let vv = root.proof.version_vector;
        if *op is IncrementLocal && vv.spec_get(writer) == u64::MAX {
            Err(Error::VersionOverflow)
        } else if forall|w: PublicKey| #[trigger]
            op.spec_apply(writer, w, vv.spec_get(w)) == vv.spec_get(w) {
            Ok(false)
        } else if !store.spec_complete(root.proof.hash) {
            Err(Error::BranchNotFound)
        } else if store.next_snapshot_id == u64::MAX {
            Err(Error::OperationNotSupported)
        } else {
            Ok(true)
        }
    }

    /// Updates the version vector of this branch without changing what it
    /// holds. Returns whether anything was written: nothing is written
    /// where the change leaves every version as it was.
    pub fn bump(&mut self, store: &mut Store, op: &VersionVectorOp) -> (r: Result<bool, Error>)
        requires
            old(store).wf(),
            old(self).wf(),
            op.wf(),
        ensures
            final(store).wf(),
            final(self).wf(),
            r == SnapshotData::spec_bump_result(old(store), &old(self).root_node, op),
            r != Ok::<bool, Error>(true)
                ==> *final(store) == *old(store) && *final(self) == *old(self),
            r == Ok::<bool, Error>(true) ==> {
                &&& final(self).succeeds(
                    final(store),
                    &old(self).root_node,
                    old(store),
                    old(self).root_node.proof.hash,
                    old(self).root_node.summary,
                )
                &&& forall|w: PublicKey|
                    #[trigger] final(self).root_node.proof.version_vector.spec_get(w)
                        == op.spec_apply(
                        old(self).root_node.proof.writer_id,
                        w,
                        old(self).root_node.proof.version_vector.spec_get(w),
                    )
                &&& old(self).root_node.proof.version_vector.spec_lt(
                    &final(self).root_node.proof.version_vector,
                )
                &&& final(store).reclaimed_from(old(store))
                &&& final(store).blocks_accounted()
            },
    {
        let writer = self.root_node.proof.writer_id;
        let mut vv = self.root_node.proof.version_vector.duplicate();
        match op.apply(&writer, &mut vv) {
            Err(e) => {
                return Err(e);
            },
            Ok(()) => {},
        }
        let ghost before = self.root_node.proof.version_vector;
        proof {
            assert forall|w: PublicKey| #[trigger] before.spec_get(w) <= vv.spec_get(w) by {
                assert(vv.spec_get(w) == op.spec_apply(writer, w, before.spec_get(w)));
            }
        }
        if vv.same(&self.root_node.proof.version_vector) {
            proof {
                assert forall|w: PublicKey| #[trigger]
                    op.spec_apply(writer, w, before.spec_get(w)) == before.spec_get(w) by {
                    assert(vv.spec_get(w) == before.spec_get(w));
                }
            }
            return Ok(false);
        }
        proof {
            if forall|w: PublicKey| #[trigger]
                op.spec_apply(writer, w, before.spec_get(w)) == before.spec_get(w) {
                assert forall|w: PublicKey| #[trigger] vv.spec_get(w) == before.spec_get(w) by {
                    assert(op.spec_apply(writer, w, before.spec_get(w)) == before.spec_get(w));
                }
                assert(false);
            }
            if vv.spec_le(&before) {
                assert forall|w: PublicKey| #[trigger] vv.spec_get(w) == before.spec_get(w) by {
                    assert(vv.spec_get(w) <= before.spec_get(w));
                    assert(before.spec_get(w) <= vv.spec_get(w));
                }
                assert(false);
            }
        }
        if !store.is_complete(&self.root_node.proof.hash) {
            return Err(Error::BranchNotFound);
        }
        let change = Change { hash: self.root_node.proof.hash, summary: self.root_node.summary };
        let ghost next = vv;
        match self.commit(store, vv, change) {
            Err(e) => {
                return Err(e);
            },
            Ok(()) => {},
        }
        proof {
            let after = self.root_node.proof.version_vector;
            assert forall|w: PublicKey| #[trigger] after.spec_get(w) == next.spec_get(w) by {}
            assert forall|w: PublicKey| #[trigger] before.spec_get(w) <= after.spec_get(w) by {
                assert(before.spec_get(w) <= next.spec_get(w));
                assert(after.spec_get(w) == next.spec_get(w));
            }
            assert(before.spec_le(&after));
            if after.spec_le(&before) {
                assert forall|w: PublicKey| #[trigger] next.spec_get(w) <= before.spec_get(w) by {
                    assert(after.spec_get(w) <= before.spec_get(w));
                    assert(after.spec_get(w) == next.spec_get(w));
                }
                assert(next.spec_le(&before));
                assert(false);
            }
            assert(before.spec_lt(&after));
        }
        Ok(true)
    }
}

impl SnapshotData {
    /// Removes this snapshot from the store, with the nodes that no
    /// snapshot refers to any more.
    pub fn remove(&self, store: &mut Store)
        requires
            old(store).wf(),
        ensures
            final(store).wf(),
            final(store).blocks_accounted(),
            forall|r: RootNode|
                #![trigger has_root(final(store).roots@, r)]
                #![trigger has_root(old(store).roots@, r)]
                has_root(final(store).roots@, r) <==> (has_root(old(store).roots@, r)
                    && r.snapshot_id != self.root_node.snapshot_id),
            final(store).reclaimed_from(old(store)),
            final(store).next_snapshot_id == old(store).next_snapshot_id,
    {
        store.remove_root(self.root_node.snapshot_id);
    }

    /// Removes all snapshots of this branch older than this one, with the
    /// nodes that no snapshot refers to any more.
    pub fn remove_all_older(&self, store: &mut Store)
        requires
            old(store).wf(),
        ensures
            final(store).wf(),
            final(store).blocks_accounted(),
            forall|r: RootNode|
                #![trigger has_root(final(store).roots@, r)]
                #![trigger has_root(old(store).roots@, r)]
                has_root(final(store).roots@, r) <==> (has_root(old(store).roots@, r)
                    && !crate::store::roots::is_older_of(
                    r,
                    self.root_node.proof.writer_id,
                    self.root_node.snapshot_id,
                )),
            final(store).reclaimed_from(old(store)),
            final(store).next_snapshot_id == old(store).next_snapshot_id,
    {
        store.remove_older(self.root_node.proof.writer_id, self.root_node.snapshot_id);
    }

    /// Prunes the outdated older snapshots of this branch. This is not the
    /// same as `remove_all_older`: older snapshots that can serve as
    /// fallback for the latest one are kept.
    pub fn prune(&self, store: &mut Store)
        requires
            old(store).wf(),
        ensures
            final(store).wf(),
            final(store).blocks_accounted(),
            final(store).reclaimed_from(old(store)),
            final(store).next_snapshot_id == old(store).next_snapshot_id,
            (forall|i: int|
                0 <= i < old(store).roots@.len() ==> (#[trigger] old(store).roots@[i]).snapshot_id
                    != self.root_node.snapshot_id) ==> final(store).roots == old(store).roots,
            forall|pos: int|
                0 <= pos < old(store).roots@.len()
                    && (#[trigger] old(store).roots@[pos]).snapshot_id
                    == self.root_node.snapshot_id ==> (forall|r: RootNode|
                    #![trigger has_root(final(store).roots@, r)]
                    has_root(final(store).roots@, r) <==> (exists|i: int|
                        0 <= i < old(store).roots@.len() && #[trigger] old(store).roots@[i] == r
                            && !old(store).is_outdated_at(pos, i))),
    {
        store.remove_outdated_snapshots(self.root_node.snapshot_id);
    }
}

impl BranchData {
    /// The branch of `writer_id`.
    pub fn new(writer_id: PublicKey) -> (b: BranchData)
        ensures
            b.writer_id == writer_id,
    {
        BranchData { writer_id }
    }

    /// Returns the id of the replica that owns this branch.
    pub fn id(&self) -> (id: &PublicKey)
        ensures
            *id == self.writer_id,
    {
        &self.writer_id
    }

    /// The latest approved snapshot of this branch.
    pub fn load_snapshot(&self, store: &Store) -> (r: Result<SnapshotData, Error>)
        requires
            store.wf(),
        ensures
            r.is_ok() <==> store.spec_latest_approved(self.writer_id) >= 0,
            r.is_err() ==> r == Err::<SnapshotData, Error>(Error::EntryNotFound),
            r.is_ok() ==> r.unwrap().wf() && same_root(
                r.unwrap().root_node,
                store.roots@[store.spec_latest_approved(self.writer_id)],
            ) && is_current(store, &r.unwrap().root_node),
    {
        match store.load_latest_approved_root_node(&self.writer_id, RootNodeFilter::Any) {
            Ok(root_node) => {
                proof {
                    let i = store.spec_latest_approved(self.writer_id);
                    assert(store.roots@[i].snapshot_id == root_node.snapshot_id);
                    store.lemma_latest_approved(self.writer_id, store.roots@.len() as int);
                    assert(is_settled(store.roots@[i]));
                }
                Ok(SnapshotData { root_node })
            },
            Err(_) => Err(Error::EntryNotFound),
        }
    }

    /// The latest approved snapshot of this branch, or the snapshot of an
    /// empty branch if it has none.
    pub fn load_or_create_snapshot(&self, store: &Store) -> (s: SnapshotData)
        requires
            store.wf(),
        ensures
            s.wf(),
            is_current(store, &s.root_node),
            s.root_node.proof.writer_id == self.writer_id,
            store.spec_latest_approved(self.writer_id) >= 0 ==> same_root(
                s.root_node,
                store.roots@[store.spec_latest_approved(self.writer_id)],
            ),
            store.spec_latest_approved(self.writer_id) < 0 ==> s.root_node.proof.hash
                == spec_empty_inner_hash() && (forall|w: PublicKey| #[trigger]
                s.root_node.proof.version_vector.spec_get(w) == 0),
    {
        match self.load_snapshot(store) {
            Ok(snapshot) => {
                proof {
                    store.lemma_latest_approved(self.writer_id, store.roots@.len() as int);
                }
                snapshot
            },
            Err(_) => SnapshotData { root_node: RootNode::empty(self.writer_id) },
        }
    }

    /// Number of leaves of the latest approved snapshot of this branch, or
    /// the largest number if there are more.
    pub fn count_leaf_nodes(&self, store: &Store) -> (r: Result<u64, Error>)
        requires
            store.wf(),
        ensures
            r == (if store.spec_latest_approved(self.writer_id) < 0 {
                Err::<u64, Error>(Error::EntryNotFound)
            } else {
                Ok::<u64, Error>(
                    crate::store::walk::saturate(
                        store.spec_leaf_count(
                            store.roots@[store.spec_latest_approved(self.writer_id)].proof.hash,
                        ),
                    ),
                )
            }),
    {
        match self.load_snapshot(store) {
            Ok(snapshot) => Ok(store.count_leaves(&snapshot.root_node.proof.hash)),
            Err(e) => Err(e),
        }
    }

    /// The version vector of the latest approved snapshot of this branch,
    /// or the vector of zeros if it has none.
    pub fn load_version_vector(&self, store: &Store) -> (vv: VersionVector)
        requires
            store.wf(),
        ensures
            vv.wf(),
            forall|w: PublicKey|
                #[trigger] vv.spec_get(w) == (if store.spec_latest_approved(self.writer_id) >= 0 {
                    store.roots@[store.spec_latest_approved(
                        self.writer_id,
                    )].proof.version_vector.spec_get(w)
                } else {
                    0
                }),
    {
        match self.load_snapshot(store) {
            Ok(snapshot) => snapshot.root_node.proof.version_vector,
            Err(_) => VersionVector::new(),
        }
    }

    /// Retrieves the block at the encoded locator in the latest approved
    /// snapshot of this branch, and whether it is stored.
    pub fn get(&self, store: &Store, encoded_locator: &hash::Hash) -> (r: Result<
        (BlockId, SingleBlockPresence),
        Error,
    >)
        requires
            store.wf(),
        ensures
            r == (if store.spec_latest_approved(self.writer_id) < 0 {
                Err::<(BlockId, SingleBlockPresence), Error>(Error::EntryNotFound)
            } else {
                match store.spec_find_leaf(
                    store.roots@[store.spec_latest_approved(self.writer_id)].proof.hash,
                    *encoded_locator,
                ) {
                    Some(leaf) => Ok::<(BlockId, SingleBlockPresence), Error>(
                        (leaf.block_id, leaf.block_presence),
                    ),
                    None => Err::<(BlockId, SingleBlockPresence), Error>(Error::EntryNotFound),
                }
            }),
    {
        match self.load_snapshot(store) {
            Ok(snapshot) => snapshot.get_block(store, encoded_locator),
            Err(e) => Err(e),
        }
    }
}

} // verus!
