//! The nodes between the root of a snapshot and the leaf at one locator.

use crate::crypto::hash;
use crate::protocol::block::BlockId;
use crate::protocol::node::{
    empty_inner_hash, get_bucket, inners_hash, leaves_contain, leaves_hash, leaves_insert,
    leaves_remove, spec_empty_inner_hash, spec_get_bucket, InnerNode, InnerNodes, LeafNode,
    LeafNodes, INNER_LAYER_COUNT,
};
use crate::protocol::summary::{MultiBlockPresence, NodeState, SingleBlockPresence, Summary};
use vstd::prelude::*;

verus! {

/// What a path holds, as plain lists.
pub struct PathView {
    pub locator: hash::Hash,
    pub root_hash: hash::Hash,
    pub root_summary: Summary,
    pub inner0: Seq<Option<InnerNode>>,
    pub inner1: Seq<Option<InnerNode>>,
    pub inner2: Seq<Option<InnerNode>>,
    pub leaves: Seq<LeafNode>,
}

/// Whether no slot of `slots` holds a node.
pub open spec fn all_none(slots: Seq<Option<InnerNode>>) -> bool {
    forall|b: int| 0 <= b < slots.len() ==> (#[trigger] slots[b]).is_none()
}

impl PathView {
    pub open spec fn bucket(self, layer: int) -> int {
        spec_get_bucket(self.locator, layer) as int
    }

    /// The root set from the first inner layer.
    pub open spec fn with_root(self) -> PathView {
        PathView {
            root_hash: inners_hash(self.inner0),
            root_summary: Summary::spec_from_inners(self.inner0),
            ..self
        }
    }

    /// The node for the second inner layer put into the first, and the root set from that.
    pub open spec fn with_inner1_up(self) -> PathView {
        PathView {
            inner0: self.inner0.update(
                self.bucket(0),
                Some(
                    InnerNode {
                        hash: inners_hash(self.inner1),
                        summary: Summary::spec_from_inners(self.inner1),
                    },
                ),
            ),
            ..self
        }.with_root()
    }

    /// The node for the third inner layer put into the second, and so on up to the root.
    pub open spec fn with_inner2_up(self) -> PathView {
        PathView {
            inner1: self.inner1.update(
                self.bucket(1),
                Some(
                    InnerNode {
                        hash: inners_hash(self.inner2),
                        summary: Summary::spec_from_inners(self.inner2),
                    },
                ),
            ),
            ..self
        }.with_inner1_up()
    }

    /// The node for the leaves put into the third inner layer, and so on up to the root.
    pub open spec fn with_leaves_up(self) -> PathView {
        PathView {
            inner2: self.inner2.update(
                self.bucket(2),
                Some(
                    InnerNode {
                        hash: leaves_hash(self.leaves),
                        summary: Summary::spec_from_leaves(self.leaves),
                    },
                ),
            ),
            ..self
        }.with_inner2_up()
    }

    /// The path with its leaf set to `block_id` and every node above it brought up to date.
    pub open spec fn spec_set_leaf(
        self,
        block_id: BlockId,
        block_presence: SingleBlockPresence,
    ) -> PathView {
        PathView {
            leaves: leaves_insert(
                self.leaves,
                LeafNode { locator: self.locator, block_id, block_presence },
            ),
            ..self
        }.with_leaves_up()
    }

    /// The path without its leaf, and without the nodes above it that are
    /// left without children. A path that has no leaf is left as it is.
    pub open spec fn spec_remove_leaf(self) -> PathView {
        if !leaves_contain(self.leaves, self.locator) {
            self
        } else {
            let bare = PathView { leaves: leaves_remove(self.leaves, self.locator), ..self };
            if bare.leaves.len() > 0 {
                bare.with_leaves_up()
            } else {
                let cut2 = PathView { inner2: bare.inner2.update(bare.bucket(2), None), ..bare };
                if !all_none(cut2.inner2) {
                    cut2.with_inner2_up()
                } else {
                    let cut1 = PathView { inner1: cut2.inner1.update(cut2.bucket(1), None), ..cut2 };
                    if !all_none(cut1.inner1) {
                        cut1.with_inner1_up()
                    } else {
                        let cut0 = PathView { inner0: cut1.inner0.update(cut1.bucket(0), None), ..cut1 };
                        if !all_none(cut0.inner0) {
                            cut0.with_root()
                        } else {
                            PathView {
                                root_hash: spec_empty_inner_hash(),
                                root_summary: Summary {
                                    state: NodeState::Complete,
                                    block_presence: MultiBlockPresence::Full,
                                },
                                ..cut0
                            }
                        }
                    }
                }
            }
        }
    }
}

/// The groups of nodes on the way from the root of a snapshot to the leaf
/// at `locator`: one group of inner nodes per inner layer, then the group
/// of leaf nodes.
#[derive(Debug)]
pub struct Path {
    pub locator: hash::Hash,
    pub root_hash: hash::Hash,
    pub root_summary: Summary,
    pub inner0: InnerNodes,
    pub inner1: InnerNodes,
    pub inner2: InnerNodes,
    pub leaves: LeafNodes,
}

impl Path {
    pub open spec fn wf(&self) -> bool {
        &&& self.inner0.wf()
        &&& self.inner1.wf()
        &&& self.inner2.wf()
        &&& self.leaves.wf()
    }

    pub open spec fn view(&self) -> PathView {
        PathView {
            locator: self.locator,
            root_hash: self.root_hash,
            root_summary: self.root_summary,
            inner0: self.inner0.slots@,
            inner1: self.inner1.slots@,
            inner2: self.inner2.slots@,
            leaves: self.leaves.nodes@,
        }
    }

    /// The bucket of the path at inner layer `layer`.
    pub open spec fn spec_bucket(&self, layer: int) -> int {
        spec_get_bucket(self.locator, layer) as int
    }

    /// The node of the path in the first inner layer.
    pub open spec fn node0(&self) -> Option<InnerNode> {
        self.inner0.slots@[self.spec_bucket(0)]
    }

    /// The node of the path in the second inner layer.
    pub open spec fn node1(&self) -> Option<InnerNode> {
        self.inner1.slots@[self.spec_bucket(1)]
    }

    /// The node of the path in the third inner layer.
    pub open spec fn node2(&self) -> Option<InnerNode> {
        self.inner2.slots@[self.spec_bucket(2)]
    }

    /// The root hash is that of the first group, and each node of the path
    /// that is there holds the hash and the summary of the group below it,
    /// which is not empty. Where a node of the path is missing, the groups
    /// below it are empty.
    pub open spec fn linked(&self) -> bool {
        &&& self.root_hash == self.inner0.spec_hash()
        &&& match self.node0() {
            Some(n0) => {
                &&& n0.hash == self.inner1.spec_hash()
                &&& !self.inner1.spec_is_empty()
            },
            None => self.inner1.spec_is_empty(),
        }
        &&& match self.node1() {
            Some(n1) => {
                &&& n1.hash == self.inner2.spec_hash()
                &&& !self.inner2.spec_is_empty()
            },
            None => self.inner2.spec_is_empty(),
        }
        &&& match self.node2() {
            Some(n2) => {
                &&& n2.hash == self.leaves.spec_hash()
                &&& self.leaves.nodes@.len() > 0
            },
            None => self.leaves.nodes@.len() == 0,
        }
    }

    /// The leaf of the path, if the groups lead to one.
    pub open spec fn spec_leaf(&self) -> Option<LeafNode> {
        if self.leaves@.contains_key(self.locator) {
            Some(self.leaves@[self.locator])
        } else {
            None
        }
    }

    /// A path with the given root and no nodes.
    pub fn new(root_hash: hash::Hash, root_summary: Summary, locator: hash::Hash) -> (p: Path)
        ensures
            p.wf(),
            p.locator == locator,
            p.root_hash == root_hash,
            p.root_summary == root_summary,
            p.inner0.spec_is_empty(),
            p.inner1.spec_is_empty(),
            p.inner2.spec_is_empty(),
            p.leaves.nodes@.len() == 0,
    {
        Path {
            locator,
            root_hash,
            root_summary,
            inner0: InnerNodes::new(),
            inner1: InnerNodes::new(),
            inner2: InnerNodes::new(),
            leaves: LeafNodes::new(),
        }
    }

    /// Number of layers of a snapshot: the root, the inner layers and the leaves.
    pub fn total_layer_count() -> (n: usize)
        ensures
            n == INNER_LAYER_COUNT + 2,
    {
        1 + INNER_LAYER_COUNT + 1
    }

    pub fn get_bucket(&self, layer: usize) -> (b: u8)
        requires
            layer < INNER_LAYER_COUNT,
        ensures
            b as int == self.spec_bucket(layer as int),
    {
        get_bucket(&self.locator, layer)
    }

    /// The block at the locator of the path and whether it is stored.
    pub fn get_leaf(&self) -> (r: Option<(BlockId, SingleBlockPresence)>)
        requires
            self.wf(),
        ensures
            r == (match self.spec_leaf() {
                Some(node) => Some((node.block_id, node.block_presence)),
                None => None,
            }),
    {
        match self.leaves.get(&self.locator) {
            Some(node) => Some((node.block_id, node.block_presence)),
            None => None,
        }
    }

    /// Whether the leaf of the path holds `block_id`.
    pub fn has_leaf(&self, block_id: &BlockId) -> (r: bool)
        requires
            self.wf(),
        ensures
            r == (self.spec_leaf().is_some() && self.spec_leaf().unwrap().block_id == *block_id),
    {
        match self.leaves.get(&self.locator) {
            Some(node) => node.block_id == *block_id,
            None => false,
        }
    }

    /// The hash under which the group of layer `layer` is stored: the root
    /// hash for the first inner layer, and below it the hash in the node of
    /// the path one layer up, if that node is there. Layer
    /// `INNER_LAYER_COUNT` is that of the leaves.
    pub open spec fn spec_hash_at_layer(&self, layer: int) -> Option<hash::Hash> {
        if layer == 0 {
            Some(self.root_hash)
        } else if layer == 1 {
            crate::protocol::node::slot_hash(self.node0())
        } else if layer == 2 {
            crate::protocol::node::slot_hash(self.node1())
        } else {
            crate::protocol::node::slot_hash(self.node2())
        }
    }

    pub fn hash_at_layer(&self, layer: usize) -> (r: Option<hash::Hash>)
        requires
            self.wf(),
            layer <= INNER_LAYER_COUNT,
        ensures
            r == self.spec_hash_at_layer(layer as int),
    {
        let node = if layer == 0 {
            return Some(self.root_hash);
        } else if layer == 1 {
            self.inner0.get(self.get_bucket(0))
        } else if layer == 2 {
            self.inner1.get(self.get_bucket(1))
        } else {
            self.inner2.get(self.get_bucket(2))
        };
        match node {
            Some(n) => Some(n.hash),
            None => None,
        }
    }

    /// Puts the node for the leaves into the last inner layer, and the node for
    /// each inner layer into the one above it, up to the root.
    fn recalculate_from_leaves(&mut self)
        requires
            old(self).wf(),
            old(self).leaves.nodes@.len() > 0,
        ensures
            final(self).wf(),
            final(self).linked(),
            final(self).locator == old(self).locator,
            final(self).leaves == old(self).leaves,
            final(self).inner2.slots@ == old(self).inner2.slots@.update(
                old(self).spec_bucket(2),
                Some(
                    InnerNode {
                        hash: old(self).leaves.spec_hash(),
                        summary: Summary::spec_from_leaves(old(self).leaves.nodes@),
                    },
                ),
            ),
            final(self).inner1.slots@ == old(self).inner1.slots@.update(
                old(self).spec_bucket(1),
                Some(
                    InnerNode {
                        hash: final(self).inner2.spec_hash(),
                        summary: Summary::spec_from_inners(final(self).inner2.slots@),
                    },
                ),
            ),
            final(self).inner0.slots@ == old(self).inner0.slots@.update(
                old(self).spec_bucket(0),
                Some(
                    InnerNode {
                        hash: final(self).inner1.spec_hash(),
                        summary: Summary::spec_from_inners(final(self).inner1.slots@),
                    },
                ),
            ),
            final(self).root_summary == Summary::spec_from_inners(final(self).inner0.slots@),
            final(self)@ == old(self)@.with_leaves_up(),
    {
        let hash = self.leaves.hash();
        let summary = Summary::from_leaves(&self.leaves);
        let b2 = self.get_bucket(2);
        self.inner2.insert(b2, InnerNode::new(hash, summary));
        assert(self.inner2.slots@[b2 as int].is_some());
        self.recalculate_from_inner2();
    }

    /// Puts the node for the last inner layer into the one above it, and so on up to the root.
    fn recalculate_from_inner2(&mut self)
        requires
            old(self).wf(),
            !old(self).inner2.spec_is_empty(),
        ensures
            final(self).wf(),
            final(self).locator == old(self).locator,
            final(self).leaves == old(self).leaves,
            final(self).inner2 == old(self).inner2,
            final(self).inner1.slots@ == old(self).inner1.slots@.update(
                old(self).spec_bucket(1),
                Some(
                    InnerNode {
                        hash: final(self).inner2.spec_hash(),
                        summary: Summary::spec_from_inners(final(self).inner2.slots@),
                    },
                ),
            ),
            final(self).inner0.slots@ == old(self).inner0.slots@.update(
                old(self).spec_bucket(0),
                Some(
                    InnerNode {
                        hash: final(self).inner1.spec_hash(),
                        summary: Summary::spec_from_inners(final(self).inner1.slots@),
                    },
                ),
            ),
            final(self).root_hash == final(self).inner0.spec_hash(),
            final(self).root_summary == Summary::spec_from_inners(final(self).inner0.slots@),
            final(self).node0().is_some(),
            final(self).node0().unwrap().hash == final(self).inner1.spec_hash(),
            !final(self).inner1.spec_is_empty(),
            final(self).node1().is_some(),
            final(self).node1().unwrap().hash == final(self).inner2.spec_hash(),
            final(self)@ == old(self)@.with_inner2_up(),
    {
        let hash = self.inner2.hash();
        let summary = Summary::from_inners(&self.inner2);
        let b1 = self.get_bucket(1);
        self.inner1.insert(b1, InnerNode::new(hash, summary));
        assert(self.inner1.slots@[b1 as int].is_some());
        self.recalculate_from_inner1();
    }

    /// Puts the node for the second inner layer into the first, and sets the root.
    fn recalculate_from_inner1(&mut self)
        requires
            old(self).wf(),
            !old(self).inner1.spec_is_empty(),
        ensures
            final(self).wf(),
            final(self).locator == old(self).locator,
            final(self).leaves == old(self).leaves,
            final(self).inner2 == old(self).inner2,
            final(self).inner1 == old(self).inner1,
            final(self).inner0.slots@ == old(self).inner0.slots@.update(
                old(self).spec_bucket(0),
                Some(
                    InnerNode {
                        hash: final(self).inner1.spec_hash(),
                        summary: Summary::spec_from_inners(final(self).inner1.slots@),
                    },
                ),
            ),
            final(self).root_hash == final(self).inner0.spec_hash(),
            final(self).root_summary == Summary::spec_from_inners(final(self).inner0.slots@),
            final(self).node0().is_some(),
            final(self).node0().unwrap().hash == final(self).inner1.spec_hash(),
            final(self)@ == old(self)@.with_inner1_up(),
    {
        let hash = self.inner1.hash();
        let summary = Summary::from_inners(&self.inner1);
        let b0 = self.get_bucket(0);
        self.inner0.insert(b0, InnerNode::new(hash, summary));
        self.recalculate_root();
    }

    /// Sets the root hash and summary from the first inner layer.
    fn recalculate_root(&mut self)
        requires
            old(self).wf(),
        ensures
            final(self).wf(),
            final(self).locator == old(self).locator,
            final(self).leaves == old(self).leaves,
            final(self).inner2 == old(self).inner2,
            final(self).inner1 == old(self).inner1,
            final(self).inner0 == old(self).inner0,
            final(self).root_hash == final(self).inner0.spec_hash(),
            final(self).root_summary == Summary::spec_from_inners(final(self).inner0.slots@),
            final(self)@ == old(self)@.with_root(),
    {
        self.root_hash = self.inner0.hash();
        self.root_summary = Summary::from_inners(&self.inner0);
    }

    /// Sets the leaf of the path to `block_id` and brings the nodes above it up to date.
    pub fn set_leaf(&mut self, block_id: &BlockId, block_presence: SingleBlockPresence)
        requires
            old(self).wf(),
        ensures
            final(self).wf(),
            final(self).linked(),
            final(self).locator == old(self).locator,
            final(self).leaves@ == old(self).leaves@.insert(
                old(self).locator,
                (LeafNode { locator: old(self).locator, block_id: *block_id, block_presence }),
            ),
            final(self).spec_leaf() == Some(
                LeafNode { locator: old(self).locator, block_id: *block_id, block_presence },
            ),
            forall|b: int|
                0 <= b < 256 && b != old(self).spec_bucket(0)
                    ==> #[trigger] final(self).inner0.slots@[b] == old(self).inner0.slots@[b],
            forall|b: int|
                0 <= b < 256 && b != old(self).spec_bucket(1)
                    ==> #[trigger] final(self).inner1.slots@[b] == old(self).inner1.slots@[b],
            forall|b: int|
                0 <= b < 256 && b != old(self).spec_bucket(2)
                    ==> #[trigger] final(self).inner2.slots@[b] == old(self).inner2.slots@[b],
            final(self).root_summary == Summary::spec_from_inners(final(self).inner0.slots@),
            final(self)@ == old(self)@.spec_set_leaf(*block_id, block_presence),
    {
        self.leaves.insert(self.locator, *block_id, block_presence);
        proof {
            assert(self.leaves@.contains_key(self.locator));
            let i = choose|i: int|
                0 <= i < self.leaves.nodes@.len() && (#[trigger] self.leaves.nodes@[i]).locator
                    == self.locator;
            assert(self.leaves.nodes@.len() > 0);
        }
        self.recalculate_from_leaves();
        proof {
            assert(self.node2().is_some());
            assert(!self.inner2.spec_is_empty());
        }
    }

    /// Takes the leaf of the path out, and with it every node above it that
    /// is left without children. Returns the block that the leaf held, or
    /// nothing, with the path unchanged, if there was no leaf.
    pub fn remove_leaf(&mut self) -> (r: Option<BlockId>)
        requires
            old(self).wf(),
            old(self).linked(),
        ensures
            final(self).wf(),
            final(self).linked(),
            final(self).locator == old(self).locator,
            r == (match old(self).spec_leaf() {
                Some(node) => Some(node.block_id),
                None => None,
            }),
            r.is_none() ==> *final(self) == *old(self),
            final(self)@ == old(self)@.spec_remove_leaf(),
            r.is_some() ==> final(self).leaves@ == old(self).leaves@.remove(old(self).locator),
            r.is_some() ==> final(self).spec_leaf().is_none(),
            r.is_some() ==> final(self).root_summary == (if final(self).inner0.spec_is_empty() {
                Summary {
                    state: crate::protocol::summary::NodeState::Complete,
                    block_presence: crate::protocol::summary::MultiBlockPresence::Full,
                }
            } else {
                Summary::spec_from_inners(final(self).inner0.slots@)
            }),
            forall|b: int|
                0 <= b < 256 && b != old(self).spec_bucket(0)
                    ==> #[trigger] final(self).inner0.slots@[b] == old(self).inner0.slots@[b],
            forall|b: int|
                0 <= b < 256 && b != old(self).spec_bucket(1)
                    ==> #[trigger] final(self).inner1.slots@[b] == old(self).inner1.slots@[b],
            forall|b: int|
                0 <= b < 256 && b != old(self).spec_bucket(2)
                    ==> #[trigger] final(self).inner2.slots@[b] == old(self).inner2.slots@[b],
    {
        if self.leaves.get(&self.locator).is_none() {
            return None;
        }
        let removed = match self.leaves.remove(&self.locator) {
            Some(node) => node.block_id,
            None => {
                return None;
            },
        };
        if !self.leaves.is_empty() {
            self.recalculate_from_leaves();
            proof {
                assert(self.node2().is_some());
                assert(!self.inner2.spec_is_empty());
            }
            return Some(removed);
        }
        let b2 = self.get_bucket(2);
        self.inner2.remove(b2);
        if !self.inner2.is_empty() {
            self.recalculate_from_inner2();
            return Some(removed);
        }
        let b1 = self.get_bucket(1);
        self.inner1.remove(b1);
        if !self.inner1.is_empty() {
            self.recalculate_from_inner1();
            return Some(removed);
        }
        let b0 = self.get_bucket(0);
        self.inner0.remove(b0);
        if !self.inner0.is_empty() {
            self.recalculate_root();
            return Some(removed);
        }
        self.root_hash = empty_inner_hash();
        self.root_summary = Summary::full();
        proof {
            assert(self.inner0.slots@ =~= Seq::new(256, |i: int| None::<InnerNode>));
        }
        Some(removed)
    }
}

} // verus!
