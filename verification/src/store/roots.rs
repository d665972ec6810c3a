//! The root nodes of a store: making, finding and removing snapshots.

use crate::crypto::hash;
use crate::crypto::sign::PublicKey;
use crate::error::Error;
use crate::protocol::root_node::{RootNode, RootNodeFilter, SnapshotId};
use crate::protocol::signed::Proof;
use crate::protocol::summary::{NodeState, Summary};
use crate::store::model::{is_settled, roots_ordered};
use crate::store::Store;
use vstd::prelude::*;

verus! {

/// Whether `a` is a copy of `b`.
pub open spec fn same_root(a: RootNode, b: RootNode) -> bool {
    &&& a.snapshot_id == b.snapshot_id
    &&& a.summary == b.summary
    &&& a.proof.writer_id == b.proof.writer_id
    &&& a.proof.hash == b.proof.hash
    &&& a.proof.signature@ == b.proof.signature@
    &&& a.proof.version_vector.versions@ == b.proof.version_vector.versions@
}

/// Whether `root` is a snapshot of `writer` with an id below `below`.
pub open spec fn is_older_of(root: RootNode, writer: PublicKey, below: SnapshotId) -> bool {
    root.proof.writer_id == writer && root.snapshot_id < below
}

/// Whether `roots` has `root`.
pub open spec fn has_root(roots: Seq<RootNode>, root: RootNode) -> bool {
    exists|i: int| 0 <= i < roots.len() && #[trigger] roots[i] == root
}

/// Takes every snapshot of `writer` with an id below `below` out of `roots`.
pub fn remove_older_roots(roots: &mut Vec<RootNode>, writer: PublicKey, below: SnapshotId)
    requires
        exists|next: u64| roots_ordered(old(roots)@, next),
    ensures
        forall|r: RootNode|
            #![trigger has_root(final(roots)@, r)]
            #![trigger has_root(old(roots)@, r)]
            has_root(final(roots)@, r) <==> (has_root(old(roots)@, r) && !is_older_of(
                r,
                writer,
                below,
            )),
        forall|next: u64| roots_ordered(old(roots)@, next) ==> roots_ordered(final(roots)@, next),
        final(roots)@.len() <= old(roots)@.len(),
{
    let ghost start = roots@;
    let ghost bound = choose|next: u64| roots_ordered(start, next);
    let mut i: usize = roots.len();
    while i > 0
        invariant
            roots_ordered(start, bound),
            i <= roots@.len() <= start.len(),
            forall|j: int| 0 <= j < i ==> roots@[j] == start[j],
            forall|j: int|
                i <= j < roots@.len() ==> !is_older_of(#[trigger] roots@[j], writer, below)
                    && has_root(start, roots@[j]),
            forall|k: int|
                i <= k < start.len() && !is_older_of(#[trigger] start[k], writer, below)
                    ==> has_root(roots@, start[k]),
            forall|a: int, b: int|
                0 <= a < b < roots@.len() ==> (#[trigger] roots@[a]).snapshot_id < (
                #[trigger] roots@[b]).snapshot_id,
        decreases i,
    {
        i = i - 1;
        let ghost before = roots@;
        let matches = roots[i].proof.writer_id == writer && roots[i].snapshot_id < below;
        if matches {
            roots.remove(i);
            proof {
                let after = roots@;
                assert forall|j: int| i <= j < after.len() implies !is_older_of(
                    #[trigger] after[j],
                    writer,
                    below,
                ) && has_root(start, after[j]) by {
                    assert(after[j] == before[j + 1]);
                }
                assert forall|k: int|
                    i <= k < start.len() && !is_older_of(
                        #[trigger] start[k],
                        writer,
                        below,
                    ) implies has_root(after, start[k]) by {
                    assert(k != i);
                    assert(has_root(before, start[k]));
                    let m = choose|m: int| 0 <= m < before.len()
                        && #[trigger] before[m] == start[k];
                    if m < i {
                        assert(start[m].snapshot_id < start[k].snapshot_id);
                    } else if m == i {
                        assert(start[i as int].snapshot_id < start[k].snapshot_id);
                    } else {
                        assert(after[m - 1] == start[k]);
                    }
                }
                assert forall|a: int, b: int| 0 <= a < b < after.len() implies (
                #[trigger] after[a]).snapshot_id < (#[trigger] after[b]).snapshot_id by {
                    let a0 = if a < i {
                        a
                    } else {
                        a + 1
                    };
                    let b0 = if b < i {
                        b
                    } else {
                        b + 1
                    };
                    assert(before[a0].snapshot_id < before[b0].snapshot_id);
                }
            }
        } else {
            proof {
                assert(has_root(start, roots@[i as int]));
                assert forall|k: int|
                    i <= k < start.len() && !is_older_of(
                        #[trigger] start[k],
                        writer,
                        below,
                    ) implies has_root(roots@, start[k]) by {
                    if k == i {
                        assert(roots@[i as int] == start[k]);
                    }
                }
            }
        }
    }
    proof {
        assert forall|r: RootNode|
            #![trigger has_root(roots@, r)]
            #![trigger has_root(start, r)]
            has_root(roots@, r) <==> (has_root(start, r) && !is_older_of(r, writer, below)) by {
            if has_root(roots@, r) {
                let j = choose|j: int| 0 <= j < roots@.len() && #[trigger] roots@[j] == r;
                assert(!is_older_of(roots@[j], writer, below));
            }
            if has_root(start, r) && !is_older_of(r, writer, below) {
                let k = choose|k: int| 0 <= k < start.len() && #[trigger] start[k] == r;
                assert(has_root(roots@, start[k]));
            }
        }
        assert forall|next: u64| roots_ordered(start, next) implies roots_ordered(roots@, next) by {
            assert forall|j: int| 0 <= j < roots@.len() implies (#[trigger] roots@[j]).snapshot_id
                < next by {
                assert(has_root(start, roots@[j]));
                let m = choose|m: int| 0 <= m < start.len() && #[trigger] start[m] == roots@[j];
                assert(start[m].snapshot_id < next);
            }
        }
    }
}

impl Store {
    /// The position of the first of the run of approved snapshots of
    /// `writer` with the same version vector that ends at position `i`:
    /// the later ones of such a run are drafts.
    pub open spec fn spec_published_from(&self, writer: PublicKey, i: int) -> int
        decreases i,
    {
        let prev = self.spec_latest_approved_before(writer, i);
        if i <= 0 || prev < 0 || prev >= i {
            i
        } else if self.roots@[prev].proof.version_vector.spec_lt(
            &self.roots@[i].proof.version_vector,
        ) {
            i
        } else {
            self.spec_published_from(writer, prev)
        }
    }

    /// The position of the snapshot that `load_latest_approved_root_node` returns, or -1.
    pub open spec fn spec_latest_approved_filtered(
        &self,
        writer: PublicKey,
        filter: RootNodeFilter,
    ) -> int {
        let latest = self.spec_latest_approved(writer);
        if latest < 0 {
            -1
        } else {
            match filter {
                RootNodeFilter::Any => latest,
                RootNodeFilter::Published => self.spec_published_from(writer, latest),
            }
        }
    }

    /// The published snapshot of a writer is an approved snapshot of that writer.
    pub proof fn lemma_published(&self, writer: PublicKey, i: int)
        requires
            0 <= i < self.roots@.len(),
            self.is_approved_of(i, writer),
        ensures
            0 <= self.spec_published_from(writer, i) <= i,
            self.is_approved_of(self.spec_published_from(writer, i), writer),
        decreases i,
    {
        self.lemma_latest_approved(writer, i);
        let prev = self.spec_latest_approved_before(writer, i);
        if !(i <= 0 || prev < 0 || prev >= i) && !self.roots@[prev].proof.version_vector.spec_lt(
            &self.roots@[i].proof.version_vector,
        ) {
            self.lemma_published(writer, prev);
        }
    }

    /// Stores a new snapshot with the given proof and summary and returns
    /// its id. Fails, and changes nothing, if the ids have run out.
    pub fn create_root_node(&mut self, proof: Proof, summary: Summary) -> (r: Result<
        SnapshotId,
        Error,
    >)
        requires
            old(self).wf(),
            proof.wf(),
            summary.state != NodeState::Incomplete ==> old(self).spec_complete(proof.hash),
        ensures
            final(self).wf(),
            r.is_ok() <==> old(self).next_snapshot_id < u64::MAX,
            r.is_err()
                ==> r == Err::<SnapshotId, Error>(Error::OperationNotSupported)
                && *final(self) == *old(self),
            r.is_ok() ==> {
                &&& r.unwrap() == old(self).next_snapshot_id
                &&& final(self).next_snapshot_id == old(self).next_snapshot_id + 1
                &&& final(self).roots@ == old(self).roots@.push(
                    RootNode { snapshot_id: r.unwrap(), proof, summary },
                )
                &&& final(self).inners0 == old(self).inners0
                &&& final(self).inners1 == old(self).inners1
                &&& final(self).inners2 == old(self).inners2
                &&& final(self).leaves == old(self).leaves
                &&& final(self).blocks == old(self).blocks
                &&& final(self).unreachable_blocks == old(self).unreachable_blocks
            },
    {
        if self.next_snapshot_id == u64::MAX {
            return Err(Error::OperationNotSupported);
        }
        let id = self.next_snapshot_id;
        self.roots.push(RootNode { snapshot_id: id, proof, summary });
        self.next_snapshot_id = id + 1;
        Ok(id)
    }

    /// Attaches `signature` to the proof of the snapshot with id
    /// `snapshot_id`. Returns whether there is such a snapshot.
    pub fn set_signature(&mut self, snapshot_id: SnapshotId, signature: Vec<u8>) -> (r: bool)
        requires
            old(self).wf(),
        ensures
            final(self).wf(),
            r == (exists|i: int|
                0 <= i < old(self).roots@.len() && (#[trigger] old(self).roots@[i]).snapshot_id
                    == snapshot_id),
            !r ==> *final(self) == *old(self),
            final(self).roots@.len() == old(self).roots@.len(),
            forall|i: int|
                0 <= i < old(self).roots@.len() ==> {
                    let after = #[trigger] final(self).roots@[i];
                    let before = old(self).roots@[i];
                    &&& after.snapshot_id == before.snapshot_id
                    &&& after.summary == before.summary
                    &&& after.proof.writer_id == before.proof.writer_id
                    &&& after.proof.hash == before.proof.hash
                    &&& after.proof.version_vector == before.proof.version_vector
                    &&& after.proof.signature@ == (if before.snapshot_id == snapshot_id {
                        signature@
                    } else {
                        before.proof.signature@
                    })
                },
            final(self).next_snapshot_id == old(self).next_snapshot_id,
            final(self).inners0 == old(self).inners0,
            final(self).inners1 == old(self).inners1,
            final(self).inners2 == old(self).inners2,
            final(self).leaves == old(self).leaves,
            final(self).blocks == old(self).blocks,
            final(self).unreachable_blocks == old(self).unreachable_blocks,
    {
        let pos = match self.position_of(snapshot_id) {
            None => {
                return false;
            },
            Some(pos) => pos,
        };
        let ghost prev = self.roots@;
        let root = self.roots.remove(pos);
        let fresh = RootNode {
            snapshot_id: root.snapshot_id,
            proof: Proof::new(
                root.proof.writer_id,
                root.proof.version_vector,
                root.proof.hash,
                signature,
            ),
            summary: root.summary,
        };
        self.roots.insert(pos, fresh);
        proof {
            assert(self.roots@ =~= prev.update(pos as int, fresh));
            assert forall|a: int, b: int| 0 <= a < b < self.roots@.len() implies (
            #[trigger] self.roots@[a]).snapshot_id < (#[trigger] self.roots@[b]).snapshot_id by {
                assert(prev[a].snapshot_id < prev[b].snapshot_id);
            }
            assert forall|j: int| 0 <= j < self.roots@.len()
                implies (#[trigger] self.roots@[j]).wf()
                && self.roots@[j].snapshot_id < self.next_snapshot_id && (is_settled(self.roots@[j])
                ==> self.spec_complete(self.roots@[j].proof.hash)) by {
                if j != pos {
                    assert(self.roots@[j] == prev[j]);
                }
                assert(prev[j].wf());
                assert(prev[j].snapshot_id < self.next_snapshot_id);
            }
            assert forall|i: int| 0 <= i < prev.len() && i != pos implies prev[i].snapshot_id
                != snapshot_id by {
                if i < pos {
                    assert(prev[i].snapshot_id < prev[pos as int].snapshot_id);
                } else {
                    assert(prev[pos as int].snapshot_id < prev[i].snapshot_id);
                }
            }
        }
        true
    }

    /// The root node at position `i`, copied.
    pub fn root_at(&self, i: usize) -> (r: RootNode)
        requires
            self.wf(),
            i < self.roots@.len(),
        ensures
            r.wf(),
            same_root(r, self.roots@[i as int]),
    {
        self.roots[i].duplicate()
    }

    /// Removes every snapshot of `writer` with an id below `below`, and
    /// with them the nodes that no snapshot refers to any more.
    pub fn remove_older(&mut self, writer: PublicKey, below: SnapshotId)
        requires
            old(self).wf(),
        ensures
            final(self).wf(),
            forall|r: RootNode|
                #![trigger has_root(final(self).roots@, r)]
                #![trigger has_root(old(self).roots@, r)]
                has_root(final(self).roots@, r) <==> (has_root(old(self).roots@, r)
                    && !is_older_of(r, writer, below)),
            final(self).blocks_accounted(),
            final(self).reclaimed_from(old(self)),
            final(self).next_snapshot_id == old(self).next_snapshot_id,
    {
        self.drop_older(writer, below);
        let ghost mid = *self;
        self.remove_unreachable_nodes();
        proof {
            self.lemma_reclaimed_from(&mid, old(self));
        }
    }

    /// Takes every snapshot of `writer` with an id below `below` out of
    /// the list of root nodes, and leaves the nodes as they are.
    pub(crate) fn drop_older(&mut self, writer: PublicKey, below: SnapshotId)
        requires
            old(self).wf(),
        ensures
            final(self).wf(),
            forall|r: RootNode|
                #![trigger has_root(final(self).roots@, r)]
                #![trigger has_root(old(self).roots@, r)]
                has_root(final(self).roots@, r) <==> (has_root(old(self).roots@, r)
                    && !is_older_of(r, writer, below)),
            final(self).next_snapshot_id == old(self).next_snapshot_id,
            final(self).inners0 == old(self).inners0,
            final(self).inners1 == old(self).inners1,
            final(self).inners2 == old(self).inners2,
            final(self).leaves == old(self).leaves,
            final(self).blocks == old(self).blocks,
            final(self).unreachable_blocks == old(self).unreachable_blocks,
    {
        assert(roots_ordered(self.roots@, self.next_snapshot_id));
        remove_older_roots(&mut self.roots, writer, below);
        proof {
            assert forall|i: int| 0 <= i < self.roots@.len()
                implies (#[trigger] self.roots@[i]).wf()
                && (is_settled(self.roots@[i]) ==> self.spec_complete(
                self.roots@[i].proof.hash,
            )) by {
                assert(has_root(self.roots@, self.roots@[i]));
                let m = choose|m: int|
                    0 <= m < old(self).roots@.len() && #[trigger] old(self).roots@[m]
                        == self.roots@[i];
                assert(old(self).roots@[m].wf());
            }
        }
    }

    /// A copy of the latest approved snapshot of `branch_id` that `filter` lets through.
    pub fn load_latest_approved_root_node(&self, branch_id: &PublicKey, filter: RootNodeFilter) -> (r:
        Result<RootNode, Error>)
        requires
            self.wf(),
        ensures
            r.is_ok() <==> self.spec_latest_approved(*branch_id) >= 0,
            r.is_err() ==> r == Err::<RootNode, Error>(Error::BranchNotFound),
            r.is_ok() ==> {
                let i = self.spec_latest_approved_filtered(*branch_id, filter);
                &&& 0 <= i < self.roots@.len()
                &&& same_root(r.unwrap(), self.roots@[i])
                &&& r.unwrap().wf()
            },
    {
        let latest = match self.latest_approved_before(branch_id, self.roots.len()) {
            None => {
                return Err(Error::BranchNotFound);
            },
            Some(i) => i,
        };
        let mut i: usize = latest;
        let mut done = match filter {
            RootNodeFilter::Any => true,
            RootNodeFilter::Published => false,
        };
        while !done
            invariant
                self.wf(),
                i <= latest < self.roots@.len(),
                filter == RootNodeFilter::Published ==> self.spec_published_from(
                    *branch_id,
                    latest as int,
                ) == self.spec_published_from(*branch_id, i as int),
                filter == RootNodeFilter::Any ==> i == latest && done,
                done && filter == RootNodeFilter::Published ==> self.spec_published_from(
                    *branch_id,
                    i as int,
                ) == i,
            decreases i + (if done { 0int } else { 1int }),
        {
            match self.latest_approved_before(branch_id, i) {
                None => {
                    done = true;
                },
                Some(prev) => {
                    if self.roots[prev].proof.version_vector.lt(
                        &self.roots[i].proof.version_vector,
                    ) {
                        done = true;
                    } else {
                        i = prev;
                    }
                },
            }
        }
        Ok(self.roots[i].duplicate())
    }

    /// The position of the latest approved snapshot of the writer of the
    /// snapshot at position `i` that is older than it.
    pub fn load_prev_approved_at(&self, i: usize) -> (r: Option<usize>)
        requires
            self.wf(),
            i < self.roots@.len(),
        ensures
            match r {
                Some(p) => p as int == self.spec_latest_approved_before(
                    self.roots@[i as int].proof.writer_id,
                    i as int,
                ) && p < i,
                None => self.spec_latest_approved_before(
                    self.roots@[i as int].proof.writer_id,
                    i as int,
                ) == -1,
            },
    {
        let writer = self.roots[i].proof.writer_id;
        self.latest_approved_before(&writer, i)
    }

    /// The position of the snapshot with id `snapshot_id`.
    pub fn position_of(&self, snapshot_id: SnapshotId) -> (r: Option<usize>)
        requires
            self.wf(),
        ensures
            match r {
                Some(i) => i < self.roots@.len() && self.roots@[i as int].snapshot_id
                    == snapshot_id,
                None => forall|i: int|
                    0 <= i < self.roots@.len() ==> (#[trigger] self.roots@[i]).snapshot_id
                        != snapshot_id,
            },
    {
        let mut i: usize = 0;
        while i < self.roots.len()
            invariant
                i <= self.roots@.len(),
                forall|j: int| 0 <= j < i
                    ==> (#[trigger] self.roots@[j]).snapshot_id != snapshot_id,
            decreases self.roots@.len() - i,
        {
            if self.roots[i].snapshot_id == snapshot_id {
                return Some(i);
            }
            i = i + 1;
        }
        None
    }

    /// The position of the latest approved snapshot of `writer` with an id
    /// below `below` among the first `n` root nodes, or -1 if there is none.
    pub open spec fn spec_prev_approved(&self, writer: PublicKey, below: SnapshotId, n: int) -> int
        decreases n,
    {
        if n <= 0 {
            -1
        } else if self.is_approved_of(n - 1, writer) && self.roots@[n - 1].snapshot_id < below {
            n - 1
        } else {
            self.spec_prev_approved(writer, below, n - 1)
        }
    }

    /// A copy of the latest approved snapshot of the writer of `node` that
    /// is older than `node`, if there is one.
    pub fn load_prev_approved_root_node(&self, node: &RootNode) -> (r: Option<RootNode>)
        requires
            self.wf(),
        ensures
            ({
                let i = self.spec_prev_approved(
                    node.proof.writer_id,
                    node.snapshot_id,
                    self.roots@.len() as int,
                );
                match r {
                    Some(prev) => 0 <= i < self.roots@.len() && prev.wf() && same_root(
                        prev,
                        self.roots@[i],
                    ),
                    None => i == -1,
                }
            }),
    {
        let mut i: usize = self.roots.len();
        while i > 0
            invariant
                self.wf(),
                i <= self.roots@.len(),
                self.spec_prev_approved(
                    node.proof.writer_id,
                    node.snapshot_id,
                    self.roots@.len() as int,
                ) == self.spec_prev_approved(node.proof.writer_id, node.snapshot_id, i as int),
            decreases i,
        {
            i = i - 1;
            let root = &self.roots[i];
            if root.proof.writer_id == node.proof.writer_id && root.summary.state.is_approved()
                && root.snapshot_id < node.snapshot_id {
                return Some(root.duplicate());
            }
        }
        None
    }

    /// Stores a snapshot of `dst_writer_id` with the root hash, the version
    /// vector and the summary of `src`, and returns a copy of its root node.
    /// Fails, and changes nothing, if the ids have run out.
    pub fn clone_root_node_into(
        &mut self,
        src: RootNode,
        dst_writer_id: PublicKey,
        signature: Vec<u8>,
    ) -> (r: Result<RootNode, Error>)
        requires
            old(self).wf(),
            src.wf(),
            src.summary.state != NodeState::Incomplete ==> old(self).spec_complete(src.proof.hash),
        ensures
            final(self).wf(),
            r.is_ok() <==> old(self).next_snapshot_id < u64::MAX,
            r.is_err() ==> r == Err::<RootNode, Error>(Error::OperationNotSupported) && *final(self)
                == *old(self),
            r.is_ok() ==> {
                &&& final(self).roots@ == old(self).roots@.push(
                    RootNode {
                        snapshot_id: old(self).next_snapshot_id,
                        proof: Proof {
                            writer_id: dst_writer_id,
                            version_vector: src.proof.version_vector,
                            hash: src.proof.hash,
                            signature,
                        },
                        summary: src.summary,
                    },
                )
                &&& r.unwrap().wf()
                &&& same_root(r.unwrap(), final(self).roots@.last())
                &&& final(self).next_snapshot_id == old(self).next_snapshot_id + 1
                &&& final(self).inners0 == old(self).inners0
                &&& final(self).inners1 == old(self).inners1
                &&& final(self).inners2 == old(self).inners2
                &&& final(self).leaves == old(self).leaves
                &&& final(self).blocks == old(self).blocks
                &&& final(self).unreachable_blocks == old(self).unreachable_blocks
            },
    {
        let proof = Proof::new(dst_writer_id, src.proof.version_vector, src.proof.hash, signature);
        match self.create_root_node(proof, src.summary) {
            Ok(_) => Ok(self.roots[self.roots.len() - 1].duplicate()),
            Err(e) => Err(e),
        }
    }

    /// Number of leaves of the latest approved snapshot of `branch_id`, or
    /// the largest number if there are more.
    pub fn count_leaf_nodes_in_branch(&self, branch_id: &PublicKey) -> (r: Result<u64, Error>)
        requires
            self.wf(),
        ensures
            r == (if self.spec_latest_approved(*branch_id) < 0 {
                Err::<u64, Error>(Error::BranchNotFound)
            } else {
                Ok::<u64, Error>(
                    crate::store::walk::saturate(
                        self.spec_leaf_count(
                            self.roots@[self.spec_latest_approved(*branch_id)].proof.hash,
                        ),
                    ),
                )
            }),
    {
        match self.load_latest_approved_root_node(branch_id, RootNodeFilter::Any) {
            Ok(root) => Ok(self.count_leaves(&root.proof.hash)),
            Err(e) => Err(e),
        }
    }
}

} // verus!
