//! Which blocks the approved snapshots of a store refer to.

use crate::collections::table::{index_of, lemma_index_of};
use crate::crypto::hash;
use crate::protocol::block::BlockId;
use crate::protocol::node::{InnerNode, InnerNodes, LeafNodes};
use crate::protocol::summary::NodeState;
use crate::store::Store;
use vstd::prelude::*;

verus! {

/// Whether a leaf of the group stored under `h` refers to block `id`.
pub open spec fn leaves_refer(leaves: Map<hash::Hash, LeafNodes>, h: hash::Hash, id: BlockId) -> bool {
    leaves.contains_key(h) && exists|j: int|
        0 <= j < leaves[h].nodes@.len() && (#[trigger] leaves[h].nodes@[j]).block_id == id
}

pub open spec fn refers_below2(
    leaves: Map<hash::Hash, LeafNodes>,
    slots: Seq<Option<InnerNode>>,
    id: BlockId,
) -> bool {
    exists|b: int|
        0 <= b < slots.len() && (#[trigger] slots[b]).is_some() && leaves_refer(
            leaves,
            slots[b].unwrap().hash,
            id,
        )
}

/// Whether a leaf in the subtree under hash `h` of the last inner layer refers to block `id`.
pub open spec fn refers2(
    i2: Map<hash::Hash, InnerNodes>,
    leaves: Map<hash::Hash, LeafNodes>,
    h: hash::Hash,
    id: BlockId,
) -> bool {
    i2.contains_key(h) && refers_below2(leaves, i2[h].slots@, id)
}

pub open spec fn refers_below1(
    i2: Map<hash::Hash, InnerNodes>,
    leaves: Map<hash::Hash, LeafNodes>,
    slots: Seq<Option<InnerNode>>,
    id: BlockId,
) -> bool {
    exists|b: int|
        0 <= b < slots.len() && (#[trigger] slots[b]).is_some() && refers2(
            i2,
            leaves,
            slots[b].unwrap().hash,
            id,
        )
}

/// Whether a leaf in the subtree under hash `h` of the second inner layer refers to block `id`.
pub open spec fn refers1(
    i1: Map<hash::Hash, InnerNodes>,
    i2: Map<hash::Hash, InnerNodes>,
    leaves: Map<hash::Hash, LeafNodes>,
    h: hash::Hash,
    id: BlockId,
) -> bool {
    i1.contains_key(h) && refers_below1(i2, leaves, i1[h].slots@, id)
}

pub open spec fn refers_below0(
    i1: Map<hash::Hash, InnerNodes>,
    i2: Map<hash::Hash, InnerNodes>,
    leaves: Map<hash::Hash, LeafNodes>,
    slots: Seq<Option<InnerNode>>,
    id: BlockId,
) -> bool {
    exists|b: int|
        0 <= b < slots.len() && (#[trigger] slots[b]).is_some() && refers1(
            i1,
            i2,
            leaves,
            slots[b].unwrap().hash,
            id,
        )
}

/// Whether a leaf of the snapshot with root hash `h` refers to block `id`.
pub open spec fn refers0(
    i0: Map<hash::Hash, InnerNodes>,
    i1: Map<hash::Hash, InnerNodes>,
    i2: Map<hash::Hash, InnerNodes>,
    leaves: Map<hash::Hash, LeafNodes>,
    h: hash::Hash,
    id: BlockId,
) -> bool {
    i0.contains_key(h) && refers_below0(i1, i2, leaves, i0[h].slots@, id)
}

/// A leaf that refers to a block still refers to it where every group is
/// there as before, with the same hashes and the same blocks.
pub proof fn lemma_refers_extends(
    i0: Map<hash::Hash, InnerNodes>,
    i1: Map<hash::Hash, InnerNodes>,
    i2: Map<hash::Hash, InnerNodes>,
    leaves: Map<hash::Hash, LeafNodes>,
    j0: Map<hash::Hash, InnerNodes>,
    j1: Map<hash::Hash, InnerNodes>,
    j2: Map<hash::Hash, InnerNodes>,
    new_leaves: Map<hash::Hash, LeafNodes>,
    h: hash::Hash,
    id: BlockId,
)
    requires
        crate::store::model::inner_extends(i0, j0),
        crate::store::model::inner_extends(i1, j1),
        crate::store::model::inner_extends(i2, j2),
        crate::store::model::leaf_extends(leaves, new_leaves),
        refers0(i0, i1, i2, leaves, h, id),
    ensures
        refers0(j0, j1, j2, new_leaves, h, id),
{
    let b0 = choose|b: int|
        0 <= b < i0[h].slots@.len() && (#[trigger] i0[h].slots@[b]).is_some() && refers1(
            i1,
            i2,
            leaves,
            i0[h].slots@[b].unwrap().hash,
            id,
        );
    let h1 = i0[h].slots@[b0].unwrap().hash;
    let b1 = choose|b: int|
        0 <= b < i1[h1].slots@.len() && (#[trigger] i1[h1].slots@[b]).is_some() && refers2(
            i2,
            leaves,
            i1[h1].slots@[b].unwrap().hash,
            id,
        );
    let h2 = i1[h1].slots@[b1].unwrap().hash;
    let b2 = choose|b: int|
        0 <= b < i2[h2].slots@.len() && (#[trigger] i2[h2].slots@[b]).is_some() && leaves_refer(
            leaves,
            i2[h2].slots@[b].unwrap().hash,
            id,
        );
    let hl = i2[h2].slots@[b2].unwrap().hash;
    let j = choose|j: int|
        0 <= j < leaves[hl].nodes@.len() && (#[trigger] leaves[hl].nodes@[j]).block_id == id;
    assert(new_leaves.contains_key(hl));
    assert(new_leaves[hl].nodes@[j].block_id == id) by {
        assert(leaves[hl].nodes@[j].block_id == new_leaves[hl].nodes@[j].block_id);
    }
    assert(leaves_refer(new_leaves, hl, id));
    assert(j2.contains_key(h2));
    assert(crate::protocol::node::slot_hash(i2[h2].slots@[b2])
        == crate::protocol::node::slot_hash(j2[h2].slots@[b2]));
    assert(j2[h2].slots@[b2].is_some() && j2[h2].slots@[b2].unwrap().hash == hl);
    assert(refers2(j2, new_leaves, h2, id));
    assert(j1.contains_key(h1));
    assert(crate::protocol::node::slot_hash(i1[h1].slots@[b1])
        == crate::protocol::node::slot_hash(j1[h1].slots@[b1]));
    assert(j1[h1].slots@[b1].is_some() && j1[h1].slots@[b1].unwrap().hash == h2);
    assert(refers1(j1, j2, new_leaves, h1, id));
    assert(j0.contains_key(h));
    assert(crate::protocol::node::slot_hash(i0[h].slots@[b0])
        == crate::protocol::node::slot_hash(j0[h].slots@[b0]));
    assert(j0[h].slots@[b0].is_some() && j0[h].slots@[b0].unwrap().hash == h1);
}

impl Store {
    /// Whether a leaf of the snapshot with root hash `root` refers to block `id`.
    pub open spec fn spec_refers(&self, root: hash::Hash, id: BlockId) -> bool {
        refers0(self.inners0@, self.inners1@, self.inners2@, self.leaves@, root, id)
    }

    /// Whether a leaf of an approved snapshot refers to block `id`.
    pub open spec fn spec_is_referenced(&self, id: BlockId) -> bool {
        exists|i: int|
            0 <= i < self.roots@.len() && (#[trigger] self.roots@[i]).summary.state
                == NodeState::Approved && self.spec_refers(self.roots@[i].proof.hash, id)
    }

    /// A block that a leaf of an approved snapshot refers to is still
    /// referred to where every group is there as before, with the same
    /// hashes and the same blocks, and the approved snapshots are approved.
    pub proof fn lemma_referenced_extends(&self, old: &Store, id: BlockId)
        requires
            crate::store::model::inner_extends(old.inners0@, self.inners0@),
            crate::store::model::inner_extends(old.inners1@, self.inners1@),
            crate::store::model::inner_extends(old.inners2@, self.inners2@),
            crate::store::model::leaf_extends(old.leaves@, self.leaves@),
            self.roots@.len() == old.roots@.len(),
            forall|i: int|
                0 <= i < old.roots@.len() && (#[trigger] old.roots@[i]).summary.state
                    == NodeState::Approved ==> self.roots@[i].summary.state == NodeState::Approved
                    && self.roots@[i].proof.hash == old.roots@[i].proof.hash,
            old.spec_is_referenced(id),
        ensures
            self.spec_is_referenced(id),
    {
        let i = choose|i: int|
            0 <= i < old.roots@.len() && (#[trigger] old.roots@[i]).summary.state
                == NodeState::Approved && old.spec_refers(old.roots@[i].proof.hash, id);
        lemma_refers_extends(
            old.inners0@,
            old.inners1@,
            old.inners2@,
            old.leaves@,
            self.inners0@,
            self.inners1@,
            self.inners2@,
            self.leaves@,
            old.roots@[i].proof.hash,
            id,
        );
        assert(self.roots@[i].summary.state == NodeState::Approved && self.spec_refers(
            self.roots@[i].proof.hash,
            id,
        ));
    }

    /// Whether `id` is listed as unreachable.
    pub open spec fn spec_is_listed(&self, id: BlockId) -> bool {
        exists|j: int|
            0 <= j < self.unreachable_blocks@.len() && #[trigger] self.unreachable_blocks@[j] == id
    }

    /// The list of unreachable blocks is exact: it names, once each, the
    /// stored blocks that no leaf of an approved snapshot refers to.
    pub open spec fn blocks_accounted(&self) -> bool {
        &&& forall|id: BlockId|
            #![trigger self.spec_is_listed(id)]
            self.spec_is_listed(id) <==> (self.blocks@.contains_key(id.hash)
                && !self.spec_is_referenced(id))
        &&& forall|a: int, b: int|
            0 <= a < b < self.unreachable_blocks@.len() ==> #[trigger] self.unreachable_blocks@[a]
                != #[trigger] self.unreachable_blocks@[b]
    }

    fn leaves_refer_to(&self, h: &hash::Hash, id: &BlockId) -> (r: bool)
        requires
            self.wf(),
        ensures
            r == leaves_refer(self.leaves@, *h, *id),
    {
        let group = match self.leaves.get(h) {
            None => {
                return false;
            },
            Some(group) => group,
        };
        let mut j: usize = 0;
        while j < group.len()
            invariant
                j <= group.nodes@.len(),
                self.leaves@.contains_key(*h),
                self.leaves@[*h] == *group,
                forall|c: int| 0 <= c < j ==> (#[trigger] group.nodes@[c]).block_id != *id,
            decreases group.nodes@.len() - j,
        {
            if group.get_at(j).block_id == *id {
                return true;
            }
            j = j + 1;
        }
        false
    }

    fn refers_under2(&self, h: &hash::Hash, id: &BlockId) -> (r: bool)
        requires
            self.wf(),
        ensures
            r == refers2(self.inners2@, self.leaves@, *h, *id),
    {
        let group = match self.inners2.get(h) {
            None => {
                return false;
            },
            Some(group) => group,
        };
        let mut b: usize = 0;
        while b < 256
            invariant
                self.wf(),
                group.wf(),
                b <= 256,
                self.inners2@.contains_key(*h),
                self.inners2@[*h] == *group,
                forall|c: int|
                    0 <= c < b ==> !((#[trigger] group.slots@[c]).is_some() && leaves_refer(
                        self.leaves@,
                        group.slots@[c].unwrap().hash,
                        *id,
                    )),
            decreases 256 - b,
        {
            match group.get(b as u8) {
                Some(node) => {
                    if self.leaves_refer_to(&node.hash, id) {
                        assert(group.slots@[b as int].is_some());
                        assert(refers_below2(self.leaves@, group.slots@, *id));
                        return true;
                    }
                },
                None => {},
            }
            b = b + 1;
        }
        false
    }

    fn refers_under1(&self, h: &hash::Hash, id: &BlockId) -> (r: bool)
        requires
            self.wf(),
        ensures
            r == refers1(self.inners1@, self.inners2@, self.leaves@, *h, *id),
    {
        let group = match self.inners1.get(h) {
            None => {
                return false;
            },
            Some(group) => group,
        };
        let mut b: usize = 0;
        while b < 256
            invariant
                self.wf(),
                group.wf(),
                b <= 256,
                self.inners1@.contains_key(*h),
                self.inners1@[*h] == *group,
                forall|c: int|
                    0 <= c < b ==> !((#[trigger] group.slots@[c]).is_some() && refers2(
                        self.inners2@,
                        self.leaves@,
                        group.slots@[c].unwrap().hash,
                        *id,
                    )),
            decreases 256 - b,
        {
            match group.get(b as u8) {
                Some(node) => {
                    if self.refers_under2(&node.hash, id) {
                        assert(group.slots@[b as int].is_some());
                        assert(refers_below1(self.inners2@, self.leaves@, group.slots@, *id));
                        return true;
                    }
                },
                None => {},
            }
            b = b + 1;
        }
        false
    }

    /// Whether a leaf of the snapshot with root hash `root` refers to block `id`.
    pub fn refers(&self, root: &hash::Hash, id: &BlockId) -> (r: bool)
        requires
            self.wf(),
        ensures
            r == self.spec_refers(*root, *id),
    {
        let group = match self.inners0.get(root) {
            None => {
                return false;
            },
            Some(group) => group,
        };
        let mut b: usize = 0;
        while b < 256
            invariant
                self.wf(),
                group.wf(),
                b <= 256,
                self.inners0@.contains_key(*root),
                self.inners0@[*root] == *group,
                forall|c: int|
                    0 <= c < b ==> !((#[trigger] group.slots@[c]).is_some() && refers1(
                        self.inners1@,
                        self.inners2@,
                        self.leaves@,
                        group.slots@[c].unwrap().hash,
                        *id,
                    )),
            decreases 256 - b,
        {
            match group.get(b as u8) {
                Some(node) => {
                    if self.refers_under1(&node.hash, id) {
                        assert(group.slots@[b as int].is_some());
                        assert(refers_below0(
                            self.inners1@,
                            self.inners2@,
                            self.leaves@,
                            group.slots@,
                            *id,
                        ));
                        return true;
                    }
                },
                None => {},
            }
            b = b + 1;
        }
        false
    }

    /// Whether a leaf of an approved snapshot refers to block `id`.
    pub fn is_referenced(&self, id: &BlockId) -> (r: bool)
        requires
            self.wf(),
        ensures
            r == self.spec_is_referenced(*id),
    {
        let mut i: usize = 0;
        while i < self.roots.len()
            invariant
                self.wf(),
                i <= self.roots@.len(),
                forall|j: int|
                    0 <= j < i ==> !((#[trigger] self.roots@[j]).summary.state
                        == NodeState::Approved && self.spec_refers(self.roots@[j].proof.hash, *id)),
            decreases self.roots@.len() - i,
        {
            let root = &self.roots[i];
            if root.summary.state.is_approved() && self.refers(&root.proof.hash, id) {
                return true;
            }
            i = i + 1;
        }
        false
    }

    /// Lists anew the stored blocks that no leaf of an approved snapshot refers to.
    pub fn mark_unreachable_blocks(&mut self)
        requires
            old(self).wf(),
        ensures
            final(self).wf(),
            final(self).blocks_accounted(),
            final(self).roots == old(self).roots,
            final(self).next_snapshot_id == old(self).next_snapshot_id,
            final(self).inners0 == old(self).inners0,
            final(self).inners1 == old(self).inners1,
            final(self).inners2 == old(self).inners2,
            final(self).leaves == old(self).leaves,
            final(self).blocks == old(self).blocks,
    {
        let mut listed: Vec<BlockId> = Vec::new();
        let mut i: usize = 0;
        while i < self.blocks.len()
            invariant
                self.wf(),
                *self == *old(self),
                i <= self.blocks.entries@.len(),
                forall|j: int|
                    0 <= j < listed@.len() ==> key_before(
                        self.blocks.entries@,
                        i as int,
                        (#[trigger] listed@[j]).hash,
                    ) && !self.spec_is_referenced(listed@[j]),
                forall|e: int|
                    0 <= e < i && !self.spec_is_referenced(
                        BlockId { hash: (#[trigger] self.blocks.entries@[e]).key },
                    ) ==> in_list(listed@, BlockId { hash: self.blocks.entries@[e].key }),
                forall|a: int, b: int|
                    0 <= a < b < listed@.len() ==> (#[trigger] listed@[a]).hash.spec_lt(
                        (#[trigger] listed@[b]).hash,
                    ),
                forall|j: int|
                    0 <= j < listed@.len() && i < self.blocks.entries@.len() ==> (
                    #[trigger] listed@[j]).hash.spec_lt(self.blocks.entries@[i as int].key),
            decreases self.blocks.entries@.len() - i,
        {
            let key = self.blocks.key_at(i);
            let id = BlockId { hash: key };
            let ghost before = listed@;
            let ghost es = self.blocks.entries@;
            if !self.is_referenced(&id) {
                listed.push(id);
            }
            proof {
                assert forall|j: int| 0 <= j < listed@.len() implies key_before(
                    es,
                    i + 1,
                    (#[trigger] listed@[j]).hash,
                ) && !self.spec_is_referenced(listed@[j]) by {
                    if j < before.len() {
                        assert(listed@[j] == before[j]);
                        let e = choose|e: int| 0 <= e < i
                            && (#[trigger] es[e]).key == before[j].hash;
                        assert(0 <= e < i + 1 && es[e].key == listed@[j].hash);
                    } else {
                        assert(es[i as int].key == listed@[j].hash);
                    }
                }
                assert forall|e: int|
                    0 <= e < i + 1 && !self.spec_is_referenced(
                        BlockId { hash: (#[trigger] es[e]).key },
                    ) implies in_list(listed@, BlockId { hash: es[e].key }) by {
                    if e < i {
                        let j = choose|j: int|
                            0 <= j < before.len() && #[trigger] before[j] == (BlockId {
                                hash: es[e].key,
                            });
                        assert(listed@[j] == before[j]);
                    } else {
                        assert(listed@[listed@.len() - 1] == id);
                    }
                }
                assert forall|j: int| 0 <= j < listed@.len() && i + 1 < es.len() implies (
                #[trigger] listed@[j]).hash.spec_lt(es[i + 1].key) by {
                    assert(es[i as int].key.spec_lt(es[i + 1].key));
                }
            }
            i = i + 1;
        }
        self.unreachable_blocks = listed;
        proof {
            let es = self.blocks.entries@;
            assert forall|id: BlockId|
                #![trigger self.spec_is_listed(id)]
                self.spec_is_listed(id) <==> (self.blocks@.contains_key(id.hash)
                    && !self.spec_is_referenced(id)) by {
                assert(self.spec_is_referenced(id) == old(self).spec_is_referenced(id));
                if self.spec_is_listed(id) {
                    let j = choose|j: int|
                        0 <= j < self.unreachable_blocks@.len()
                            && #[trigger] self.unreachable_blocks@[j] == id;
                    assert(key_before(es, i as int, listed@[j].hash));
                    let e = choose|e: int| 0 <= e < i && (#[trigger] es[e]).key == listed@[j].hash;
                    lemma_index_of(es, e);
                }
                if self.blocks@.contains_key(id.hash) && !self.spec_is_referenced(id) {
                    let e = index_of(es, id.hash);
                    lemma_index_of(es, e);
                    assert(BlockId { hash: es[e].key } == id);
                    assert(!old(self).spec_is_referenced(BlockId { hash: es[e].key }));
                    assert(in_list(listed@, BlockId { hash: es[e].key }));
                    let j = choose|j: int| 0 <= j < listed@.len() && #[trigger] listed@[j] == id;
                    assert(self.unreachable_blocks@[j] == id);
                }
            }
            assert forall|a: int, b: int|
                0 <= a < b < self.unreachable_blocks@.len()
                    implies #[trigger] self.unreachable_blocks@[a]
                != #[trigger] self.unreachable_blocks@[b] by {
                assert(listed@[a].hash.spec_lt(listed@[b].hash));
            }
        }
    }
}

/// Whether one of the first `n` entries of `entries` has key `key`.
pub open spec fn key_before(
    entries: Seq<crate::collections::table::Entry<crate::protocol::block::Block>>,
    n: int,
    key: hash::Hash,
) -> bool {
    exists|e: int| 0 <= e < n && (#[trigger] entries[e]).key == key
}

/// Whether `list` names `id`.
pub open spec fn in_list(list: Seq<BlockId>, id: BlockId) -> bool {
    exists|j: int| 0 <= j < list.len() && #[trigger] list[j] == id
}

} // verus!
