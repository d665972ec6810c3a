//! Writing what a remote replica sent: root nodes, groups of inner nodes
//! and groups of leaf nodes.

use crate::collections::table::{index_of, lemma_index_of, Table};
use crate::crypto::hash;
use crate::error::Error;
use crate::protocol::node::{same_inners, same_leaves, InnerNode, InnerNodes, LeafNode, LeafNodes};
use crate::protocol::root_node::RootNode;
use crate::protocol::signed::{Proof, UntrustedProof, SIGNATURE_SIZE};
use crate::protocol::summary::{MultiBlockPresence, NodeState, SingleBlockPresence, Summary};
use crate::store::model::is_empty_hash;
use crate::store::nodes::{
    can_save_inners, can_save_leaves, save_inner_group, save_leaf_group,
};
use crate::store::receive::{decided_summary, ReceiveStatus};
use crate::store::Store;
use vstd::prelude::*;

verus! {

/// What to do with a root node that a peer sent.
#[derive(Clone, Copy, Debug, PartialEq, Eq, Structural)]
pub struct RootNodeAction {
    /// Store it as a new snapshot.
    pub insert: bool,
    /// Ask the peer for its children.
    pub request_children: bool,
}

/// What became of a root node that a peer sent.
#[derive(Debug)]
pub struct RootNodeStatus {
    /// Whether it was stored as a new snapshot.
    pub inserted: bool,
    /// Whether to ask the peer for its children.
    pub request_children: bool,
    pub status: ReceiveStatus,
}

/// What became of a group of inner nodes that a peer sent.
#[derive(Debug)]
pub struct InnerNodesStatus {
    /// The nodes whose children to ask the peer for: those for which the
    /// peer has more than was stored here.
    pub request_children: Vec<InnerNode>,
    pub status: ReceiveStatus,
}

/// What became of a group of leaf nodes that a peer sent.
#[derive(Debug)]
pub struct LeafNodesStatus {
    /// The leaves whose blocks to ask for: those that the peer has and that are missing here.
    pub request_blocks: Vec<LeafNode>,
    pub status: ReceiveStatus,
}

/// Whether the stored snapshot `stored` lets a snapshot with `proof` in:
/// it is of another writer, or its version vector is below that of `proof`.
pub open spec fn allows_insert(stored: RootNode, proof: &Proof) -> bool {
    stored.proof.writer_id != proof.writer_id || stored.proof.version_vector.spec_lt(
        &proof.version_vector,
    )
}

/// Whether the stored snapshot `stored` leaves something to ask for of a
/// snapshot with `proof` whose sender has the blocks `presence`: it is of
/// another writer, or older, or it is the same snapshot and lacks nodes or
/// blocks that the sender has.
pub open spec fn allows_request(
    stored: RootNode,
    proof: &Proof,
    presence: MultiBlockPresence,
) -> bool {
    ||| stored.proof.writer_id != proof.writer_id
    ||| stored.proof.version_vector.spec_lt(&proof.version_vector)
    ||| {
        &&& stored.proof.version_vector.spec_le(&proof.version_vector)
        &&& proof.version_vector.spec_le(&stored.proof.version_vector)
        &&& stored.proof.hash == proof.hash
        &&& stored.summary.spec_is_outdated(
            Summary { state: NodeState::Complete, block_presence: presence },
        )
    }
}

/// The action for a snapshot with `proof`, given the stored snapshots `roots`.
pub open spec fn root_action(
    roots: Seq<RootNode>,
    proof: &Proof,
    presence: MultiBlockPresence,
) -> RootNodeAction {
    RootNodeAction {
        insert: forall|i: int| 0 <= i < roots.len() ==> allows_insert(#[trigger] roots[i], proof),
        request_children: forall|i: int|
            0 <= i < roots.len() ==> allows_request(#[trigger] roots[i], proof, presence),
    }
}

/// Whether some node of a group of `m` has hash `h`.
pub open spec fn node_in(m: Map<hash::Hash, InnerNodes>, h: hash::Hash) -> bool {
    exists|k: hash::Hash, b: int|
        m.contains_key(k) && 0 <= b < m[k].slots@.len() && (#[trigger] m[k].slots@[b]).is_some()
            && m[k].slots@[b].unwrap().hash == h
}

/// Whether some root node of `roots` has root hash `h`.
pub open spec fn root_in(roots: Seq<RootNode>, h: hash::Hash) -> bool {
    exists|i: int| 0 <= i < roots.len() && (#[trigger] roots[i]).proof.hash == h
}

/// Whether some node of a group of `table` has hash `h`.
pub fn node_exists(table: &Table<InnerNodes>, h: &hash::Hash) -> (r: bool)
    requires
        table.wf(),
        crate::store::model::inner_groups_wf(table@),
    ensures
        r == node_in(table@, *h),
{
    let mut i: usize = 0;
    while i < table.len()
        invariant
            table.wf(),
            crate::store::model::inner_groups_wf(table@),
            i <= table.entries@.len(),
            forall|j: int, b: int|
                0 <= j < i && 0 <= b < 256
                    ==> !((#[trigger] table.entries@[j].value.slots@[b]).is_some()
                    && table.entries@[j].value.slots@[b].unwrap().hash == *h),
        decreases table.entries@.len() - i,
    {
        let key = table.key_at(i);
        let group = table.value_at(i);
        assert(table@.contains_key(key) && table@[key] == *group);
        assert(group.wf());
        let mut b: usize = 0;
        while b < 256
            invariant
                group.wf(),
                b <= 256,
                table@.contains_key(key),
                table@[key] == *group,
                forall|c: int|
                    0 <= c < b ==> !((#[trigger] group.slots@[c]).is_some()
                        && group.slots@[c].unwrap().hash == *h),
            decreases 256 - b,
        {
            match group.get(b as u8) {
                Some(node) => {
                    if node.hash == *h {
                        assert(table@[key].slots@[b as int].is_some());
                        return true;
                    }
                },
                None => {},
            }
            b = b + 1;
        }
        i = i + 1;
    }
    proof {
        if node_in(table@, *h) {
            let (k, b) = choose|k: hash::Hash, b: int|
                table@.contains_key(k) && 0 <= b < table@[k].slots@.len() && (
                #[trigger] table@[k].slots@[b]).is_some()
                    && table@[k].slots@[b].unwrap().hash == *h;
            let j = index_of(table.entries@, k);
            lemma_index_of(table.entries@, j);
            assert(table.entries@[j].value.slots@[b].is_some());
            assert(false);
        }
    }
    false
}

/// The nodes of `remote` to ask the children of, given the nodes `local`
/// that are stored for the same parent: those that have no stored node in
/// their bucket, or one whose summary is outdated compared to theirs.
pub open spec fn outdated_children(
    local: Seq<Option<InnerNode>>,
    remote: Seq<Option<InnerNode>>,
    n: int,
) -> Seq<InnerNode>
    decreases n,
{
    if n <= 0 {
        Seq::<InnerNode>::empty()
    } else {
        let rest = outdated_children(local, remote, n - 1);
        match remote[n - 1] {
            Some(r) => if local[n - 1].is_some() && !local[n - 1].unwrap().summary.spec_is_outdated(
                r.summary,
            ) {
                rest
            } else {
                rest.push(r)
            },
            None => rest,
        }
    }
}

/// The leaves of `remote` to ask the blocks of, given the leaves `local`
/// that are stored for the same parent: those whose block the sender has
/// and that have no stored leaf at their locator, or one whose block is missing.
pub open spec fn missing_blocks(
    local: Map<hash::Hash, LeafNode>,
    remote: Seq<LeafNode>,
    n: int,
) -> Seq<LeafNode>
    decreases n,
{
    if n <= 0 {
        Seq::<LeafNode>::empty()
    } else {
        let rest = missing_blocks(local, remote, n - 1);
        let r = remote[n - 1];
        if r.block_presence == SingleBlockPresence::Present && !(local.contains_key(r.locator)
            && local[r.locator].block_presence != SingleBlockPresence::Missing) {
            rest.push(r)
        } else {
            rest
        }
    }
}

impl Store {
    /// Decides what to do with a snapshot with `proof` whose sender has the blocks `presence`.
    pub fn decide_root_action(&self, proof: &Proof, presence: &MultiBlockPresence) -> (action:
        RootNodeAction)
        requires
            self.wf(),
            proof.wf(),
        ensures
            action == root_action(self.roots@, proof, *presence),
    {
        let mut insert = true;
        let mut request_children = true;
        let remote = Summary { state: NodeState::Complete, block_presence: *presence };
        let mut i: usize = 0;
        while i < self.roots.len()
            invariant
                self.wf(),
                proof.wf(),
                i <= self.roots@.len(),
                remote == (Summary { state: NodeState::Complete, block_presence: *presence }),
                insert == (forall|j: int| 0 <= j < i
                    ==> allows_insert(#[trigger] self.roots@[j], proof)),
                request_children == (forall|j: int|
                    0 <= j < i ==> allows_request(#[trigger] self.roots@[j], proof, *presence)),
            decreases self.roots@.len() - i,
        {
            let stored = &self.roots[i];
            assert(stored.wf());
            let mut ok_insert = true;
            let mut ok_request = true;
            if stored.proof.writer_id == proof.writer_id {
                let below = stored.proof.version_vector.le(&proof.version_vector);
                let above = proof.version_vector.le(&stored.proof.version_vector);
                if below && !above {
                } else if below && above {
                    ok_insert = false;
                    ok_request = stored.proof.hash == proof.hash && stored.summary.is_outdated(
                        &remote,
                    );
                } else {
                    ok_insert = false;
                    ok_request = false;
                }
            }
            proof {
                assert(ok_insert == allows_insert(self.roots@[i as int], proof));
                assert(ok_request == allows_request(self.roots@[i as int], proof, *presence));
                if !ok_insert {
                    assert(!(forall|j: int|
                        0 <= j < i + 1 ==> allows_insert(#[trigger] self.roots@[j], proof)));
                }
                if !ok_request {
                    assert(!(forall|j: int|
                        0 <= j < i + 1
                            ==> allows_request(#[trigger] self.roots@[j], proof, *presence)));
                }
            }
            insert = insert && ok_insert;
            request_children = request_children && ok_request;
            i = i + 1;
        }
        RootNodeAction { insert, request_children }
    }

    /// Whether some root node has root hash `h`.
    pub fn root_exists(&self, h: &hash::Hash) -> (r: bool)
        ensures
            r == root_in(self.roots@, *h),
    {
        let mut i: usize = 0;
        while i < self.roots.len()
            invariant
                i <= self.roots@.len(),
                forall|j: int| 0 <= j < i ==> (#[trigger] self.roots@[j]).proof.hash != *h,
            decreases self.roots@.len() - i,
        {
            if self.roots[i].proof.hash == *h {
                return true;
            }
            i = i + 1;
        }
        false
    }

    /// Does a parent node (root or inner) with the given hash exist?
    pub fn parent_exists(&self, h: &hash::Hash) -> (r: bool)
        requires
            self.wf(),
        ensures
            r == (root_in(self.roots@, *h) || node_in(self.inners0@, *h) || node_in(
                self.inners1@,
                *h,
            ) || node_in(self.inners2@, *h)),
    {
        self.root_exists(h) || node_exists(&self.inners0, h) || node_exists(&self.inners1, h)
            || node_exists(&self.inners2, h)
    }
}

/// The nodes of `remote` to ask the children of, given the stored group `local`, if there is one.
pub fn find_outdated_children(local: Option<&InnerNodes>, remote: &InnerNodes) -> (out: Vec<
    InnerNode,
>)
    requires
        remote.wf(),
        local.is_some() ==> local.unwrap().wf(),
    ensures
        out@ == outdated_children(
            match local {
                Some(group) => group.slots@,
                None => Seq::new(256, |i: int| None::<InnerNode>),
            },
            remote.slots@,
            256,
        ),
{
    let ghost stored = match local {
        Some(group) => group.slots@,
        None => Seq::new(256, |i: int| None::<InnerNode>),
    };
    let mut out: Vec<InnerNode> = Vec::new();
    let mut b: usize = 0;
    while b < 256
        invariant
            remote.wf(),
            local.is_some() ==> local.unwrap().wf(),
            stored == (match local {
                Some(group) => group.slots@,
                None => Seq::new(256, |i: int| None::<InnerNode>),
            }),
            b <= 256,
            out@ == outdated_children(stored, remote.slots@, b as int),
        decreases 256 - b,
    {
        match remote.get(b as u8) {
            Some(r) => {
                let here = match local {
                    Some(group) => group.get(b as u8),
                    None => None,
                };
                let fresh = match here {
                    Some(l) => !l.summary.is_outdated(&r.summary),
                    None => false,
                };
                if !fresh {
                    out.push(r);
                }
            },
            None => {},
        }
        b = b + 1;
    }
    out
}

/// The leaves of `remote` to ask the blocks of, given the stored group `local`, if there is one.
pub fn find_missing_blocks(local: Option<&LeafNodes>, remote: &LeafNodes) -> (out: Vec<LeafNode>)
    requires
        local.is_some() ==> local.unwrap().wf(),
    ensures
        out@ == missing_blocks(
            match local {
                Some(group) => group@,
                None => Map::<hash::Hash, LeafNode>::empty(),
            },
            remote.nodes@,
            remote.nodes@.len() as int,
        ),
{
    let ghost stored = match local {
        Some(group) => group@,
        None => Map::<hash::Hash, LeafNode>::empty(),
    };
    let mut out: Vec<LeafNode> = Vec::new();
    let mut i: usize = 0;
    while i < remote.len()
        invariant
            local.is_some() ==> local.unwrap().wf(),
            stored == (match local {
                Some(group) => group@,
                None => Map::<hash::Hash, LeafNode>::empty(),
            }),
            i <= remote.nodes@.len(),
            out@ == missing_blocks(stored, remote.nodes@, i as int),
        decreases remote.nodes@.len() - i,
    {
        let r = remote.get_at(i);
        let here = match local {
            Some(group) => group.get(&r.locator),
            None => None,
        };
        let have = match here {
            Some(l) => !l.block_presence.is_missing(),
            None => false,
        };
        let offered = match r.block_presence {
            SingleBlockPresence::Present => true,
            _ => false,
        };
        if offered && !have {
            out.push(r);
        }
        i = i + 1;
    }
    out
}

/// The stored group that the nodes of a received group with hash `h` are
/// compared with: that of the first inner layer in which the parent is
/// known, or slots without nodes if no group is stored there.
pub open spec fn local_slots(store: &Store, h: hash::Hash) -> Seq<Option<InnerNode>> {
    let m = if root_in(store.roots@, h) {
        store.inners0@
    } else if node_in(store.inners0@, h) {
        store.inners1@
    } else {
        store.inners2@
    };
    if m.contains_key(h) {
        m[h].slots@
    } else {
        Seq::new(256, |i: int| None::<InnerNode>)
    }
}

impl Store {
    /// What `receive_inner_nodes` fails with, if it fails, for a group
    /// with the slots `slots`: the parent is not known, or the hash of the
    /// group is taken by a different group in a layer that it belongs to.
    pub open spec fn spec_inner_nodes_error(&self, slots: Seq<Option<InnerNode>>) -> Option<Error> {
        let h = crate::protocol::node::inners_hash(slots);
        let at0 = root_in(self.roots@, h);
        let at1 = node_in(self.inners0@, h);
        let at2 = node_in(self.inners1@, h);
        if crate::index::path::all_none(slots) {
            None
        } else if !at0 && !at1 && !at2 {
            Some(Error::ParentNodeNotFound)
        } else if (at0 && !can_save_inners(self.inners0@, slots)) || (at1 && !can_save_inners(
            self.inners1@,
            slots,
        )) || (at2 && !can_save_inners(self.inners2@, slots)) {
            Some(Error::MalformedData)
        } else {
            None
        }
    }

    /// Whether `self` is `old` after `receive_root_node` was called with
    /// the given arguments and returned `r`.
    pub open spec fn root_node_received(
        &self,
        old: &Store,
        proof: UntrustedProof,
        presence: MultiBlockPresence,
        signature_valid: bool,
        quota: Option<u64>,
        r: Result<RootNodeStatus, Error>,
    ) -> bool {
        let valid = signature_valid && proof.proof.signature@.len() == SIGNATURE_SIZE;
        let empty = forall|w: crate::crypto::sign::PublicKey| #[trigger]
            proof.proof.version_vector.spec_get(w) == 0;
        let action = root_action(old.roots@, &proof.proof, presence);
        let added = old.roots@.push(
            RootNode {
                snapshot_id: old.next_snapshot_id,
                proof: proof.proof,
                summary: Summary::spec_incomplete(),
            },
        );
        &&& r.is_err()
            <==> (!valid || (!empty && action.insert && old.next_snapshot_id == u64::MAX))
        &&& r.is_err() ==> *self == *old && r.unwrap_err() == (if !valid {
            Error::InvalidProof
        } else {
            Error::OperationNotSupported
        })
        &&& r.is_ok() ==> r.unwrap().inserted == (!empty && action.insert)
            && r.unwrap().request_children == (!empty && action.request_children)
        &&& r.is_ok() && !r.unwrap().inserted ==> *self == *old
            && !r.unwrap().status.old_approved && r.unwrap().status.new_approved@.len()
            == 0
        &&& r.is_ok() && r.unwrap().inserted ==> {
            &&& self.finalized_roots(added, proof.proof.hash, quota, r.unwrap().status)
            &&& self.summaries_consistent()
            &&& self.same_structure(old)
            &&& self.next_snapshot_id == old.next_snapshot_id + 1
            &&& self.blocks_accounted()
        }
    }

    /// Stores the root node of a snapshot that a peer sent, unless it is
    /// outdated or known, and decides on the snapshots that are complete
    /// with it.
    ///
    /// `signature_valid` says whether the signature of the proof is one of
    /// the write key of the repository; `presence` is what the peer has of
    /// the blocks of the snapshot. A proof without versions is passed
    /// over: its branch holds nothing yet.
    pub fn receive_root_node(
        &mut self,
        proof: UntrustedProof,
        presence: &MultiBlockPresence,
        signature_valid: bool,
        quota: Option<u64>,
    ) -> (r: Result<RootNodeStatus, Error>)
        requires
            old(self).wf(),
            proof.proof.wf(),
        ensures
            final(self).wf(),
            final(self).root_node_received(old(self), proof, *presence, signature_valid, quota, r),
    {
        let proof = match proof.verify(signature_valid) {
            Err(e) => {
                return Err(e);
            },
            Ok(proof) => proof,
        };
        if proof.version_vector.is_empty() {
            return Ok(
                RootNodeStatus {
                    inserted: false,
                    request_children: false,
                    status: ReceiveStatus { old_approved: false, new_approved: Vec::new() },
                },
            );
        }
        let action = self.decide_root_action(&proof, presence);
        if !action.insert {
            return Ok(
                RootNodeStatus {
                    inserted: false,
                    request_children: action.request_children,
                    status: ReceiveStatus { old_approved: false, new_approved: Vec::new() },
                },
            );
        }
        let hash = proof.hash;
        match self.create_root_node(proof, Summary::incomplete()) {
            Err(e) => {
                return Err(e);
            },
            Ok(_) => {},
        }
        let ghost mid = *self;
        let status = self.finalize(hash, quota);
        proof {
            assert(self.same_structure(old(self))) by {
                assert(self.same_structure(&mid));
            }
        }
        Ok(RootNodeStatus { inserted: true, request_children: action.request_children, status })
    }

    /// Whether `self` is `old` after `receive_inner_nodes` was called
    /// with the given arguments and returned `r`.
    pub open spec fn inner_nodes_received(
        &self,
        old: &Store,
        nodes: &InnerNodes,
        quota: Option<u64>,
        r: Result<InnerNodesStatus, Error>,
    ) -> bool {
        &&& r.is_err() <==> old.spec_inner_nodes_error(nodes.slots@).is_some()
        &&& r.is_err() ==> r.unwrap_err() == old.spec_inner_nodes_error(nodes.slots@).unwrap()
            && self.extends(old)
        &&& r.is_err() && r.unwrap_err() == Error::ParentNodeNotFound ==> *self == *old
        &&& r.is_err() && r.unwrap_err() == Error::MalformedData ==> self.blocks_accounted()
        &&& r.is_ok() && nodes.spec_is_empty() ==> *self == *old
            && r.unwrap().request_children@.len() == 0 && !r.unwrap().status.old_approved
            && r.unwrap().status.new_approved@.len() == 0
        &&& r.is_ok() && !nodes.spec_is_empty() ==> {
            let h = nodes.spec_hash();
            &&& r.unwrap().request_children@ == outdated_children(
                local_slots(old, h),
                nodes.slots@,
                256,
            )
            &&& self.finalized_roots(old.roots@, h, quota, r.unwrap().status)
            &&& self.summaries_consistent()
            &&& self.blocks_accounted()
            &&& self.tables_extend(old)
            &&& self.next_snapshot_id == old.next_snapshot_id
            &&& self.inners0@.dom() == (if root_in(old.roots@, h) {
                old.inners0@.dom().insert(h)
            } else {
                old.inners0@.dom()
            })
            &&& self.inners1@.dom() == (if node_in(old.inners0@, h) {
                old.inners1@.dom().insert(h)
            } else {
                old.inners1@.dom()
            })
            &&& self.inners2@.dom() == (if node_in(old.inners1@, h) {
                old.inners2@.dom().insert(h)
            } else {
                old.inners2@.dom()
            })
            &&& self.leaves == old.leaves
            }
    }

    /// Stores a group of inner nodes that a peer sent, with every node
    /// marked as incomplete, in each inner layer in which its parent is
    /// known, and decides on the snapshots that are complete with it. A
    /// group without nodes is passed over.
    pub fn receive_inner_nodes(&mut self, nodes: &InnerNodes, quota: Option<u64>) -> (r: Result<
        InnerNodesStatus,
        Error,
    >)
        requires
            old(self).wf(),
            nodes.wf(),
        ensures
            final(self).wf(),
            final(self).inner_nodes_received(old(self), nodes, quota, r),
    {
        if nodes.is_empty() {
            return Ok(
                InnerNodesStatus {
                    request_children: Vec::new(),
                    status: ReceiveStatus { old_approved: false, new_approved: Vec::new() },
                },
            );
        }
        let h = nodes.hash();
        let at0 = self.root_exists(&h);
        let at1 = node_exists(&self.inners0, &h);
        let at2 = node_exists(&self.inners1, &h);
        if !at0 && !at1 && !at2 {
            return Err(Error::ParentNodeNotFound);
        }
        let request_children = if at0 {
            find_outdated_children(self.inners0.get(&h), nodes)
        } else if at1 {
            find_outdated_children(self.inners1.get(&h), nodes)
        } else {
            find_outdated_children(self.inners2.get(&h), nodes)
        };
        let incomplete = nodes.into_incomplete();
        let ghost start = *self;
        proof {
            assert(!incomplete.spec_is_empty()) by {
                let b = choose|b: int|
                    0 <= b < nodes.slots@.len() && !(#[trigger] nodes.slots@[b]).is_none();
                assert(crate::protocol::node::slot_hash(nodes.slots@[b])
                    == crate::protocol::node::slot_hash(incomplete.slots@[b]));
                assert(!incomplete.slots@[b].is_none());
            }
            assert(incomplete.wf());
            assert forall|m: Map<hash::Hash, InnerNodes>|
                can_save_inners(m, incomplete.slots@) == #[trigger] can_save_inners(
                    m,
                    nodes.slots@,
                ) by {
                if m.contains_key(h) {
                    assert(same_inners(m[h].slots@, incomplete.slots@) == same_inners(
                        m[h].slots@,
                        nodes.slots@,
                    )) by {
                        if same_inners(m[h].slots@, nodes.slots@) {
                            assert forall|i: int|
                                0 <= i < 256 implies crate::protocol::node::slot_hash(
                                #[trigger] m[h].slots@[i],
                            ) == crate::protocol::node::slot_hash(incomplete.slots@[i]) by {
                                assert(crate::protocol::node::slot_hash(nodes.slots@[i])
                                    == crate::protocol::node::slot_hash(incomplete.slots@[i]));
                            }
                        }
                        if same_inners(m[h].slots@, incomplete.slots@) {
                            assert forall|i: int|
                                0 <= i < 256 implies crate::protocol::node::slot_hash(
                                #[trigger] m[h].slots@[i],
                            ) == crate::protocol::node::slot_hash(nodes.slots@[i]) by {
                                assert(crate::protocol::node::slot_hash(nodes.slots@[i])
                                    == crate::protocol::node::slot_hash(incomplete.slots@[i]));
                            }
                        }
                    }
                }
            }
        }
        if at0 {
            match save_inner_group(&mut self.inners0, &incomplete) {
                Err(e) => {
                    proof {
                        self.lemma_extends_wf(&start);
                    }
                    self.mark_unreachable_blocks();
                    return Err(e);
                },
                Ok(_) => {},
            }
        }
        if at1 {
            match save_inner_group(&mut self.inners1, &incomplete) {
                Err(e) => {
                    proof {
                        self.lemma_extends_wf(&start);
                    }
                    self.mark_unreachable_blocks();
                    return Err(e);
                },
                Ok(_) => {},
            }
        }
        if at2 {
            match save_inner_group(&mut self.inners2, &incomplete) {
                Err(e) => {
                    proof {
                        self.lemma_extends_wf(&start);
                    }
                    self.mark_unreachable_blocks();
                    return Err(e);
                },
                Ok(_) => {},
            }
        }
        proof {
            self.lemma_extends_wf(&start);
            assert(self.inners0@.dom() =~= (if at0 {
                start.inners0@.dom().insert(h)
            } else {
                start.inners0@.dom()
            }));
            assert(self.inners1@.dom() =~= (if at1 {
                start.inners1@.dom().insert(h)
            } else {
                start.inners1@.dom()
            }));
            assert(self.inners2@.dom() =~= (if at2 {
                start.inners2@.dom().insert(h)
            } else {
                start.inners2@.dom()
            }));
        }
        let ghost mid = *self;
        let status = self.finalize(h, quota);
        proof {
            self.lemma_extends_compose(&mid, &start);
        }
        Ok(InnerNodesStatus { request_children, status })
    }

    /// What `receive_leaf_nodes` fails with, if it fails, for a group of
    /// the leaves `nodes`.
    pub open spec fn spec_leaf_nodes_error(&self, nodes: Seq<LeafNode>) -> Option<Error> {
        let h = crate::protocol::node::leaves_hash(nodes);
        if nodes.len() == 0 {
            None
        } else if !node_in(self.inners2@, h) {
            Some(Error::ParentNodeNotFound)
        } else if !can_save_leaves(self.leaves@, nodes) {
            Some(Error::MalformedData)
        } else {
            None
        }
    }

    /// Whether `self` is `old` after `receive_leaf_nodes` was called with
    /// the given arguments and returned `r`.
    pub open spec fn leaf_nodes_received(
        &self,
        old: &Store,
        nodes: &LeafNodes,
        quota: Option<u64>,
        r: Result<LeafNodesStatus, Error>,
    ) -> bool {
        &&& r.is_err() <==> old.spec_leaf_nodes_error(nodes.nodes@).is_some()
        &&& r.is_err() ==> r.unwrap_err() == old.spec_leaf_nodes_error(nodes.nodes@).unwrap()
            && *self == *old
        &&& r.is_ok() && nodes.nodes@.len() == 0 ==> *self == *old
            && r.unwrap().request_blocks@.len() == 0 && !r.unwrap().status.old_approved
            && r.unwrap().status.new_approved@.len() == 0
        &&& r.is_ok() && nodes.nodes@.len() > 0 ==> {
            let h = nodes.spec_hash();
            &&& r.unwrap().request_blocks@ == missing_blocks(
                if old.leaves@.contains_key(h) {
                    old.leaves@[h]@
                } else {
                    Map::<hash::Hash, LeafNode>::empty()
                },
                nodes.nodes@,
                nodes.nodes@.len() as int,
            )
            &&& self.finalized_roots(old.roots@, h, quota, r.unwrap().status)
            &&& self.summaries_consistent()
            &&& self.blocks_accounted()
            &&& self.next_snapshot_id == old.next_snapshot_id
            &&& self.inners0@.dom() == old.inners0@.dom()
            &&& self.inners1@.dom() == old.inners1@.dom()
            &&& self.inners2@.dom() == old.inners2@.dom()
            &&& self.tables_extend(old)
            &&& self.leaves@.dom() == old.leaves@.dom().insert(h)
            &&& same_leaves(self.leaves@[h].nodes@, nodes.nodes@)
            &&& forall|k: hash::Hash| #[trigger]
                old.leaves@.contains_key(k) ==> self.leaves@[k] == old.leaves@[k]
            &&& !old.leaves@.contains_key(h) ==> forall|i: int|
                0 <= i < nodes.nodes@.len() ==> #[trigger] self.leaves@[h].nodes@[i] == (
                LeafNode { block_presence: SingleBlockPresence::Missing, ..nodes.nodes@[i] })
            }
    }

    /// Stores a group of leaf nodes that a peer sent, with every block
    /// marked as missing, if its parent is known, and decides on the
    /// snapshots that are complete with it. A group without nodes is
    /// passed over.
    pub fn receive_leaf_nodes(&mut self, nodes: &LeafNodes, quota: Option<u64>) -> (r: Result<
        LeafNodesStatus,
        Error,
    >)
        requires
            old(self).wf(),
            nodes.wf(),
        ensures
            final(self).wf(),
            final(self).leaf_nodes_received(old(self), nodes, quota, r),
    {
        if nodes.is_empty() {
            return Ok(
                LeafNodesStatus {
                    request_blocks: Vec::new(),
                    status: ReceiveStatus { old_approved: false, new_approved: Vec::new() },
                },
            );
        }
        let h = nodes.hash();
        if !node_exists(&self.inners2, &h) {
            return Err(Error::ParentNodeNotFound);
        }
        let request_blocks = find_missing_blocks(self.leaves.get(&h), nodes);
        let missing = nodes.into_missing();
        let ghost start = *self;
        proof {
            assert forall|m: Map<hash::Hash, LeafNodes>|
                can_save_leaves(m, missing.nodes@) == #[trigger] can_save_leaves(
                    m,
                    nodes.nodes@,
                ) by {
                crate::protocol::node::lemma_leaves_bytes_same(nodes.nodes@, missing.nodes@);
                if m.contains_key(h) {
                    if same_leaves(m[h].nodes@, nodes.nodes@) {
                        assert forall|i: int| 0 <= i < m[h].nodes@.len() implies (
                        #[trigger] m[h].nodes@[i]).locator == missing.nodes@[i].locator
                            && m[h].nodes@[i].block_id == missing.nodes@[i].block_id by {
                            assert(missing.nodes@[i].locator == nodes.nodes@[i].locator);
                        }
                    }
                    if same_leaves(m[h].nodes@, missing.nodes@) {
                        assert forall|i: int| 0 <= i < m[h].nodes@.len() implies (
                        #[trigger] m[h].nodes@[i]).locator == nodes.nodes@[i].locator
                            && m[h].nodes@[i].block_id == nodes.nodes@[i].block_id by {
                            assert(missing.nodes@[i].locator == nodes.nodes@[i].locator);
                        }
                    }
                }
            }
        }
        match save_leaf_group(&mut self.leaves, &missing) {
            Err(e) => {
                return Err(e);
            },
            Ok(_) => {},
        }
        proof {
            self.lemma_extends_wf(&start);
            assert(self.leaves@.dom() =~= start.leaves@.dom().insert(h));
            assert forall|i: int| 0 <= i < self.leaves@[h].nodes@.len() implies (
            #[trigger] self.leaves@[h].nodes@[i]).locator == nodes.nodes@[i].locator
                && self.leaves@[h].nodes@[i].block_id == nodes.nodes@[i].block_id by {
                assert(self.leaves@[h].nodes@[i].locator == missing.nodes@[i].locator);
                assert(missing.nodes@[i].locator == nodes.nodes@[i].locator);
            }
        }
        let ghost mid = *self;
        let status = self.finalize(h, quota);
        proof {
            self.lemma_extends_compose(&mid, &start);
        }
        Ok(LeafNodesStatus { request_blocks, status })
    }

    /// What extends a store that extends a third extends the third.
    pub proof fn lemma_extends_compose(&self, mid: &Store, old: &Store)
        requires
            self.same_structure(mid),
            mid.extends(old),
        ensures
            self.tables_extend(old),
    {
        assert forall|k: hash::Hash| #[trigger] old.inners0@.contains_key(k)
            implies self.inners0@.contains_key(
            k,
        ) && same_inners(old.inners0@[k].slots@, self.inners0@[k].slots@) by {
            assert(mid.inners0@.contains_key(k));
            lemma_same_inners_trans(
                old.inners0@[k].slots@,
                mid.inners0@[k].slots@,
                self.inners0@[k].slots@,
            );
        }
        assert forall|k: hash::Hash| #[trigger] old.inners1@.contains_key(k)
            implies self.inners1@.contains_key(
            k,
        ) && same_inners(old.inners1@[k].slots@, self.inners1@[k].slots@) by {
            assert(mid.inners1@.contains_key(k));
            lemma_same_inners_trans(
                old.inners1@[k].slots@,
                mid.inners1@[k].slots@,
                self.inners1@[k].slots@,
            );
        }
        assert forall|k: hash::Hash| #[trigger] old.inners2@.contains_key(k)
            implies self.inners2@.contains_key(
            k,
        ) && same_inners(old.inners2@[k].slots@, self.inners2@[k].slots@) by {
            assert(mid.inners2@.contains_key(k));
            lemma_same_inners_trans(
                old.inners2@[k].slots@,
                mid.inners2@[k].slots@,
                self.inners2@[k].slots@,
            );
        }
    }
}

pub proof fn lemma_same_inners_trans(
    a: Seq<Option<InnerNode>>,
    b: Seq<Option<InnerNode>>,
    c: Seq<Option<InnerNode>>,
)
    requires
        same_inners(a, b),
        same_inners(b, c),
    ensures
        same_inners(a, c),
{
    assert forall|i: int| 0 <= i < a.len() implies crate::protocol::node::slot_hash(
        #[trigger] a[i],
    ) == crate::protocol::node::slot_hash(c[i]) by {
        assert(crate::protocol::node::slot_hash(a[i]) == crate::protocol::node::slot_hash(b[i]));
        assert(crate::protocol::node::slot_hash(b[i]) == crate::protocol::node::slot_hash(c[i]));
    }
}

} // verus!
