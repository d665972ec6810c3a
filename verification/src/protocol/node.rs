//! Leaf and inner nodes of the index and the groups they are stored in.

use crate::crypto::hash::sha3_256;
use crate::protocol::block::BlockId;
use crate::crypto::hash;
use crate::protocol::summary::{SingleBlockPresence, Summary};
use vstd::prelude::*;

verus! {

/// Number of layers of inner nodes between the root node and the leaves.
pub const INNER_LAYER_COUNT: usize = 3;

/// Number of buckets under an inner node or the root.
pub const BUCKET_COUNT: usize = 256;

/// The bucket that `locator` falls into at inner layer `layer`: byte `layer` of the hash.
pub open spec fn spec_get_bucket(locator: hash::Hash, layer: int) -> u8 {
    if layer == 0 {
        (locator.lo % 256) as u8
    } else if layer == 1 {
        ((locator.lo / 256) % 256) as u8
    } else {
        ((locator.lo / 65536) % 256) as u8
    }
}

pub fn get_bucket(locator: &hash::Hash, layer: usize) -> (b: u8)
    requires
        layer < INNER_LAYER_COUNT,
    ensures
        b == spec_get_bucket(*locator, layer as int),
{
    if layer == 0 {
        (locator.lo % 256) as u8
    } else if layer == 1 {
        ((locator.lo / 256) % 256) as u8
    } else {
        ((locator.lo / 65536) % 256) as u8
    }
}

/// Entry of the index that says which block stands at an encoded locator.
#[derive(Clone, Copy, Debug, PartialEq, Eq, Structural)]
pub struct LeafNode {
    pub locator: hash::Hash,
    pub block_id: BlockId,
    pub block_presence: SingleBlockPresence,
}

impl LeafNode {
    /// A leaf node whose block is stored locally.
    pub fn present(locator: hash::Hash, block_id: BlockId) -> (n: LeafNode)
        ensures
            n == (LeafNode { locator, block_id, block_presence: SingleBlockPresence::Present }),
    {
        LeafNode { locator, block_id, block_presence: SingleBlockPresence::Present }
    }

    /// A leaf node whose block is not stored locally.
    pub fn missing(locator: hash::Hash, block_id: BlockId) -> (n: LeafNode)
        ensures
            n == (LeafNode { locator, block_id, block_presence: SingleBlockPresence::Missing }),
    {
        LeafNode { locator, block_id, block_presence: SingleBlockPresence::Missing }
    }
}

/// Whether the locators of `s` strictly increase.
pub open spec fn leaves_sorted(s: Seq<LeafNode>) -> bool {
    forall|i: int, j: int| 0 <= i < j < s.len()
        ==> (#[trigger] s[i]).locator.spec_lt((#[trigger] s[j]).locator)
}

/// Whether `s` has a node at `locator`.
pub open spec fn leaves_contain(s: Seq<LeafNode>, locator: hash::Hash) -> bool {
    exists|i: int| 0 <= i < s.len() && (#[trigger] s[i]).locator == locator
}

/// The node of `s` at `locator`.
pub open spec fn leaves_at(s: Seq<LeafNode>, locator: hash::Hash) -> LeafNode {
    s[choose|i: int| 0 <= i < s.len() && (#[trigger] s[i]).locator == locator]
}

/// The nodes of `s` by their locators.
pub open spec fn leaves_map(s: Seq<LeafNode>) -> Map<hash::Hash, LeafNode> {
    Map::new(|k: hash::Hash| leaves_contain(s, k), |k: hash::Hash| leaves_at(s, k))
}

/// What a group of leaf nodes is hashed as: for each node in order, its locator and its block id.
pub open spec fn leaves_bytes(s: Seq<LeafNode>) -> Seq<u8>
    decreases s.len(),
{
    if s.len() == 0 {
        Seq::<u8>::empty()
    } else {
        leaves_bytes(s.drop_last()) + s.last().locator.spec_bytes()
            + s.last().block_id.hash.spec_bytes()
    }
}

/// The hash of a group of leaf nodes.
pub open spec fn leaves_hash(s: Seq<LeafNode>) -> hash::Hash {
    hash::Hash::spec_from_bytes(sha3_256(seq![1u8] + leaves_bytes(s)))
}

pub proof fn lemma_sorted_index_unique(s: Seq<LeafNode>, i: int, j: int)
    requires
        leaves_sorted(s),
        0 <= i < s.len(),
        0 <= j < s.len(),
        s[i].locator == s[j].locator,
    ensures
        i == j,
{
    if i < j {
        assert(s[i].locator.spec_lt(s[j].locator));
    } else if j < i {
        assert(s[j].locator.spec_lt(s[i].locator));
    }
}

pub proof fn lemma_leaves_at(s: Seq<LeafNode>, i: int)
    requires
        leaves_sorted(s),
        0 <= i < s.len(),
    ensures
        leaves_contain(s, s[i].locator),
        leaves_at(s, s[i].locator) == s[i],
{
    let k = s[i].locator;
    let j = choose|j: int| 0 <= j < s.len() && (#[trigger] s[j]).locator == k;
    lemma_sorted_index_unique(s, i, j);
}

/// The ordered list `s` with `node` put at its locator, in place of the
/// node that was there if there was one.
pub open spec fn leaves_insert(s: Seq<LeafNode>, node: LeafNode) -> Seq<LeafNode>
    decreases s.len(),
{
    if s.len() == 0 {
        seq![node]
    } else if s.last().locator.spec_lt(node.locator) {
        s.push(node)
    } else if s.last().locator == node.locator {
        s.drop_last().push(node)
    } else {
        leaves_insert(s.drop_last(), node).push(s.last())
    }
}

/// The ordered list `s` without the node at `locator`.
pub open spec fn leaves_remove(s: Seq<LeafNode>, locator: hash::Hash) -> Seq<LeafNode>
    decreases s.len(),
{
    if s.len() == 0 {
        s
    } else if s.last().locator.spec_lt(locator) {
        s
    } else if s.last().locator == locator {
        s.drop_last()
    } else {
        leaves_remove(s.drop_last(), locator).push(s.last())
    }
}

pub proof fn lemma_leaves_insert_at(s: Seq<LeafNode>, i: int, node: LeafNode)
    requires
        leaves_sorted(s),
        0 <= i <= s.len(),
        forall|j: int| 0 <= j < i ==> (#[trigger] s[j]).locator.spec_lt(node.locator),
        forall|j: int| i <= j < s.len() ==> !(#[trigger] s[j]).locator.spec_lt(node.locator),
    ensures
        leaves_insert(s, node) == (if i < s.len() && s[i].locator == node.locator {
            s.update(i, node)
        } else {
            s.insert(i, node)
        }),
    decreases s.len(),
{
    if s.len() == 0 {
        assert(s.insert(0, node) =~= seq![node]);
    } else {
        let last = s.len() - 1;
        if i == s.len() {
            assert(s[last].locator.spec_lt(node.locator));
            assert(s.insert(i, node) =~= s.push(node));
        } else {
            assert(!s[last].locator.spec_lt(node.locator));
            if s[last].locator == node.locator {
                if i < last {
                    assert(s[i].locator.spec_lt(s[last].locator));
                }
                assert(i == last);
                assert(s.update(i, node) =~= s.drop_last().push(node));
            } else {
                let t = s.drop_last();
                assert(i <= last);
                assert forall|a: int, b: int| 0 <= a < b < t.len()
                    implies (#[trigger] t[a]).locator.spec_lt(
                    (#[trigger] t[b]).locator,
                ) by {
                    assert(s[a].locator.spec_lt(s[b].locator));
                }
                assert forall|j: int| 0 <= j < i implies (#[trigger] t[j]).locator.spec_lt(
                    node.locator,
                ) by {
                    assert(s[j].locator.spec_lt(node.locator));
                }
                assert forall|j: int| i <= j < t.len() implies !(#[trigger] t[j]).locator.spec_lt(
                    node.locator,
                ) by {
                    assert(!s[j].locator.spec_lt(node.locator));
                }
                lemma_leaves_insert_at(t, i, node);
                if i < s.len() && s[i].locator == node.locator {
                    assert(i < last);
                    assert(t[i] == s[i]);
                    assert(s.update(i, node) =~= t.update(i, node).push(s.last()));
                } else {
                    if i < t.len() {
                        assert(t[i] == s[i]);
                    }
                    assert(s.insert(i, node) =~= t.insert(i, node).push(s.last()));
                }
            }
        }
    }
}

pub proof fn lemma_leaves_remove_at(s: Seq<LeafNode>, i: int, locator: hash::Hash)
    requires
        leaves_sorted(s),
        0 <= i <= s.len(),
        forall|j: int| 0 <= j < i ==> (#[trigger] s[j]).locator.spec_lt(locator),
        forall|j: int| i <= j < s.len() ==> !(#[trigger] s[j]).locator.spec_lt(locator),
    ensures
        leaves_remove(s, locator) == (if i < s.len() && s[i].locator == locator {
            s.remove(i)
        } else {
            s
        }),
    decreases s.len(),
{
    if s.len() > 0 {
        let last = s.len() - 1;
        if i == s.len() {
            assert(s[last].locator.spec_lt(locator));
        } else {
            assert(!s[last].locator.spec_lt(locator));
            if s[last].locator == locator {
                if i < last {
                    assert(s[i].locator.spec_lt(s[last].locator));
                }
                assert(i == last);
                assert(s.remove(i) =~= s.drop_last());
            } else {
                let t = s.drop_last();
                assert forall|a: int, b: int| 0 <= a < b < t.len()
                    implies (#[trigger] t[a]).locator.spec_lt(
                    (#[trigger] t[b]).locator,
                ) by {
                    assert(s[a].locator.spec_lt(s[b].locator));
                }
                assert forall|j: int| 0 <= j < i implies (#[trigger] t[j]).locator.spec_lt(
                    locator,
                ) by {
                    assert(s[j].locator.spec_lt(locator));
                }
                assert forall|j: int| i <= j < t.len() implies !(#[trigger] t[j]).locator.spec_lt(
                    locator,
                ) by {
                    assert(!s[j].locator.spec_lt(locator));
                }
                lemma_leaves_remove_at(t, i, locator);
                if i < s.len() && s[i].locator == locator {
                    assert(i < last);
                    assert(t[i] == s[i]);
                    assert(s.remove(i) =~= t.remove(i).push(s.last()));
                } else {
                    if i < t.len() {
                        assert(t[i] == s[i]);
                    }
                    assert(s =~= t.push(s.last()));
                }
            }
        }
    }
}

/// Number of nodes of the ordered list `s` whose locator is below `locator`.
pub open spec fn leaves_rank(s: Seq<LeafNode>, locator: hash::Hash) -> int
    decreases s.len(),
{
    if s.len() == 0 {
        0
    } else if s.last().locator.spec_lt(locator) {
        s.len() as int
    } else {
        leaves_rank(s.drop_last(), locator)
    }
}

pub proof fn lemma_leaves_rank(s: Seq<LeafNode>, locator: hash::Hash)
    requires
        leaves_sorted(s),
    ensures
        0 <= leaves_rank(s, locator) <= s.len(),
        forall|j: int| 0 <= j < leaves_rank(s, locator)
            ==> (#[trigger] s[j]).locator.spec_lt(locator),
        forall|j: int|
            leaves_rank(s, locator) <= j < s.len() ==> !(#[trigger] s[j]).locator.spec_lt(locator),
    decreases s.len(),
{
    if s.len() > 0 {
        let t = s.drop_last();
        assert forall|a: int, b: int| 0 <= a < b < t.len()
            implies (#[trigger] t[a]).locator.spec_lt(
            (#[trigger] t[b]).locator,
        ) by {
            assert(s[a].locator.spec_lt(s[b].locator));
        }
        if s.last().locator.spec_lt(locator) {
            assert forall|j: int| 0 <= j < s.len() implies (#[trigger] s[j]).locator.spec_lt(
                locator,
            ) by {
                if j < s.len() - 1 {
                    assert(s[j].locator.spec_lt(s[s.len() - 1].locator));
                }
            }
        } else {
            lemma_leaves_rank(t, locator);
            assert forall|j: int| leaves_rank(s, locator) <= j < s.len() implies !(
            #[trigger] s[j]).locator.spec_lt(locator) by {
                if j < s.len() - 1 {
                    assert(!t[j].locator.spec_lt(locator));
                }
            }
            assert forall|j: int| 0 <= j < leaves_rank(s, locator) implies (
            #[trigger] s[j]).locator.spec_lt(locator) by {
                assert(t[j].locator.spec_lt(locator));
            }
        }
    }
}

/// Putting a node into an ordered list gives an ordered list that holds
/// the node at its locator and is otherwise as before.
pub proof fn lemma_leaves_insert_map(s: Seq<LeafNode>, node: LeafNode)
    requires
        leaves_sorted(s),
    ensures
        leaves_sorted(leaves_insert(s, node)),
        leaves_map(leaves_insert(s, node)) == leaves_map(s).insert(node.locator, node),
{
    lemma_leaves_rank(s, node.locator);
    let i = leaves_rank(s, node.locator);
    lemma_leaves_insert_at(s, i, node);
    let after = leaves_insert(s, node);
    if i < s.len() && s[i].locator == node.locator {
        assert forall|a: int, b: int| 0 <= a < b < after.len()
            implies (#[trigger] after[a]).locator.spec_lt(
            (#[trigger] after[b]).locator,
        ) by {
            assert(s[a].locator.spec_lt(s[b].locator));
        }
        lemma_map_after_set(s, after, i, node);
    } else {
        assert forall|a: int, b: int| 0 <= a < b < after.len()
            implies (#[trigger] after[a]).locator.spec_lt(
            (#[trigger] after[b]).locator,
        ) by {
            if b < i {
                assert(s[a].locator.spec_lt(s[b].locator));
            } else if b == i {
                assert(s[a].locator.spec_lt(node.locator));
            } else if a < i {
                assert(s[a].locator.spec_lt(s[b - 1].locator));
            } else if a == i {
                assert(!s[b - 1].locator.spec_lt(node.locator));
                if i < b - 1 {
                    assert(s[i].locator.spec_lt(s[b - 1].locator));
                }
                assert(!s[i].locator.spec_lt(node.locator));
            } else {
                assert(s[a - 1].locator.spec_lt(s[b - 1].locator));
            }
        }
        lemma_map_after_insert(s, after, i, node);
    }
}

/// Taking the node at a locator out of an ordered list gives an ordered
/// list that holds no node at the locator and is otherwise as before.
pub proof fn lemma_leaves_remove_map(s: Seq<LeafNode>, locator: hash::Hash)
    requires
        leaves_sorted(s),
    ensures
        leaves_sorted(leaves_remove(s, locator)),
        leaves_map(leaves_remove(s, locator)) == leaves_map(s).remove(locator),
{
    lemma_leaves_rank(s, locator);
    let i = leaves_rank(s, locator);
    lemma_leaves_remove_at(s, i, locator);
    let after = leaves_remove(s, locator);
    if i < s.len() && s[i].locator == locator {
        assert forall|a: int, b: int| 0 <= a < b < after.len()
            implies (#[trigger] after[a]).locator.spec_lt(
            (#[trigger] after[b]).locator,
        ) by {
            let a0 = if a < i {
                a
            } else {
                a + 1
            };
            let b0 = if b < i {
                b
            } else {
                b + 1
            };
            assert(s[a0].locator.spec_lt(s[b0].locator));
        }
        lemma_map_after_remove(s, after, i);
    } else {
        if leaves_contain(s, locator) {
            let j = choose|j: int| 0 <= j < s.len() && (#[trigger] s[j]).locator == locator;
            if j < i {
                assert(s[j].locator.spec_lt(locator));
            } else {
                assert(!s[j].locator.spec_lt(locator));
                if i < j {
                    assert(s[i].locator.spec_lt(s[j].locator));
                }
            }
            assert(false);
        }
        assert(leaves_map(s).remove(locator) =~= leaves_map(s));
    }
}

/// The leaf nodes under one inner node of the last inner layer, ordered by locator.
#[derive(Clone, Debug)]
pub struct LeafNodes {
    pub nodes: Vec<LeafNode>,
}

impl LeafNodes {
    pub open spec fn wf(&self) -> bool {
        leaves_sorted(self.nodes@)
    }

    pub open spec fn view(&self) -> Map<hash::Hash, LeafNode> {
        leaves_map(self.nodes@)
    }

    pub open spec fn spec_hash(&self) -> hash::Hash {
        leaves_hash(self.nodes@)
    }

    pub fn new() -> (s: LeafNodes)
        ensures
            s.wf(),
            s.nodes@.len() == 0,
            s@ == Map::<hash::Hash, LeafNode>::empty(),
    {
        let s = LeafNodes { nodes: Vec::new() };
        assert(s@ =~= Map::<hash::Hash, LeafNode>::empty());
        s
    }

    pub fn len(&self) -> (n: usize)
        ensures
            n == self.nodes@.len(),
    {
        self.nodes.len()
    }

    pub fn is_empty(&self) -> (r: bool)
        ensures
            r == (self.nodes@.len() == 0),
    {
        self.nodes.len() == 0
    }

    /// The first position whose locator is not below `locator`, and whether it holds `locator`.
    pub fn position(&self, locator: &hash::Hash) -> (r: (usize, bool))
        requires
            self.wf(),
        ensures
            r.0 <= self.nodes@.len(),
            forall|j: int| 0 <= j < r.0 ==> (#[trigger] self.nodes@[j]).locator.spec_lt(*locator),
            forall|j: int|
                r.0 <= j < self.nodes@.len() ==> !(#[trigger] self.nodes@[j]).locator.spec_lt(
                    *locator,
                ),
            r.1 == (r.0 < self.nodes@.len() && self.nodes@[r.0 as int].locator == *locator),
            r.1 == leaves_contain(self.nodes@, *locator),
            r.1 ==> leaves_at(self.nodes@, *locator) == self.nodes@[r.0 as int],
    {
        let mut i: usize = 0;
        while i < self.nodes.len() && self.nodes[i].locator.lt(locator)
            invariant
                i <= self.nodes@.len(),
                forall|j: int| 0 <= j < i ==> (#[trigger] self.nodes@[j]).locator.spec_lt(*locator),
            decreases self.nodes@.len() - i,
        {
            i = i + 1;
        }
        let found = i < self.nodes.len() && self.nodes[i].locator == *locator;
        proof {
            let s = self.nodes@;
            assert forall|j: int| i <= j < s.len() implies !(#[trigger] s[j]).locator.spec_lt(
                *locator,
            ) by {
                if i < j {
                    assert(s[i as int].locator.spec_lt(s[j].locator));
                }
            }
            if found {
                lemma_leaves_at(s, i as int);
            } else if leaves_contain(s, *locator) {
                let j = choose|j: int| 0 <= j < s.len() && (#[trigger] s[j]).locator == *locator;
                if j < i {
                    assert(s[j].locator.spec_lt(*locator));
                } else {
                    assert(!s[j].locator.spec_lt(*locator));
                    if i < j {
                        assert(s[i as int].locator.spec_lt(s[j].locator));
                    }
                }
                assert(false);
            }
        }
        (i, found)
    }

    /// The node at `locator`, if there is one.
    pub fn get(&self, locator: &hash::Hash) -> (r: Option<LeafNode>)
        requires
            self.wf(),
        ensures
            r == (if self@.contains_key(*locator) {
                Some(self@[*locator])
            } else {
                None
            }),
    {
        let (i, found) = self.position(locator);
        if found {
            Some(self.nodes[i])
        } else {
            None
        }
    }

    /// The node at position `i` in the order of locators.
    pub fn get_at(&self, i: usize) -> (n: LeafNode)
        requires
            i < self.nodes@.len(),
        ensures
            n == self.nodes@[i as int],
    {
        self.nodes[i]
    }

    /// Puts a node at `locator`, in place of the one that was there if there
    /// was one. Returns whether the group changed.
    pub fn insert(
        &mut self,
        locator: hash::Hash,
        block_id: BlockId,
        block_presence: SingleBlockPresence,
    ) -> (changed: bool)
        requires
            old(self).wf(),
        ensures
            final(self).wf(),
            final(self)@ == old(self)@.insert(
                locator,
                (LeafNode { locator, block_id, block_presence }),
            ),
            changed == !(old(self)@.contains_key(locator) && old(self)@[locator] == (LeafNode {
                locator,
                block_id,
                block_presence,
            })),
            final(self).nodes@ == leaves_insert(
                old(self).nodes@,
                (LeafNode { locator, block_id, block_presence }),
            ),
    {
        let node = LeafNode { locator, block_id, block_presence };
        let (i, found) = self.position(&locator);
        let ghost before = self.nodes@;
        proof {
            lemma_leaves_insert_at(before, i as int, node);
        }
        if found {
            let prev = self.nodes[i];
            if prev.block_id == block_id && prev.block_presence == block_presence {
                proof {
                    assert(prev == node);
                    assert(self@ =~= old(self)@.insert(locator, node));
                    assert(before.update(i as int, node) =~= before);
                }
                return false;
            }
            self.nodes.set(i, node);
            proof {
                let after = self.nodes@;
                assert forall|a: int, b: int| 0 <= a < b < after.len()
                    implies (#[trigger] after[a]).locator.spec_lt(
                    (#[trigger] after[b]).locator,
                ) by {
                    assert(before[a].locator.spec_lt(before[b].locator));
                }
                lemma_map_after_set(before, after, i as int, node);
            }
            true
        } else {
            self.nodes.insert(i, node);
            proof {
                let after = self.nodes@;
                assert forall|a: int, b: int| 0 <= a < b < after.len()
                    implies (#[trigger] after[a]).locator.spec_lt(
                    (#[trigger] after[b]).locator,
                ) by {
                    if b < i {
                        assert(before[a].locator.spec_lt(before[b].locator));
                    } else if b == i {
                        assert(before[a].locator.spec_lt(locator));
                    } else if a < i {
                        assert(before[a].locator.spec_lt(before[b - 1].locator));
                    } else if a == i {
                        assert(!before[b - 1].locator.spec_lt(locator));
                    } else {
                        assert(before[a - 1].locator.spec_lt(before[b - 1].locator));
                    }
                }
                lemma_map_after_insert(before, after, i as int, node);
            }
            true
        }
    }

    /// Takes out the node at `locator` and returns it, if there was one.
    pub fn remove(&mut self, locator: &hash::Hash) -> (r: Option<LeafNode>)
        requires
            old(self).wf(),
        ensures
            final(self).wf(),
            final(self)@ == old(self)@.remove(*locator),
            r == (if old(self)@.contains_key(*locator) {
                Some(old(self)@[*locator])
            } else {
                None
            }),
            final(self).nodes@ == leaves_remove(old(self).nodes@, *locator),
    {
        let (i, found) = self.position(locator);
        let ghost before = self.nodes@;
        proof {
            lemma_leaves_remove_at(before, i as int, *locator);
        }
        if found {
            let node = self.nodes.remove(i);
            proof {
                let after = self.nodes@;
                assert forall|a: int, b: int| 0 <= a < b < after.len()
                    implies (#[trigger] after[a]).locator.spec_lt(
                    (#[trigger] after[b]).locator,
                ) by {
                    let a0 = if a < i { a } else { a + 1 };
                    let b0 = if b < i { b } else { b + 1 };
                    assert(before[a0].locator.spec_lt(before[b0].locator));
                }
                lemma_map_after_remove(before, after, i as int);
            }
            Some(node)
        } else {
            proof {
                assert(self@ =~= old(self)@.remove(*locator));
            }
            None
        }
    }

    /// A copy of this group.
    pub fn duplicate(&self) -> (s: LeafNodes)
        ensures
            s.nodes@ == self.nodes@,
    {
        let mut nodes: Vec<LeafNode> = Vec::new();
        let mut i: usize = 0;
        while i < self.nodes.len()
            invariant
                i <= self.nodes@.len(),
                nodes@ == self.nodes@.subrange(0, i as int),
            decreases self.nodes@.len() - i,
        {
            nodes.push(self.nodes[i]);
            assert(nodes@ =~= self.nodes@.subrange(0, i + 1));
            i = i + 1;
        }
        assert(nodes@ =~= self.nodes@);
        LeafNodes { nodes }
    }

    /// Sets the presence of every leaf that refers to `block_id`. Returns
    /// whether there is such a leaf.
    pub fn set_presence(&mut self, block_id: &BlockId, block_presence: SingleBlockPresence) -> (r:
        bool)
        requires
            old(self).wf(),
        ensures
            final(self).wf(),
            final(self).nodes@ == leaves_with_presence(old(self).nodes@, *block_id, block_presence),
            final(self).spec_hash() == old(self).spec_hash(),
            r == leaves_name(old(self).nodes@, *block_id),
    {
        let mut found = false;
        let mut i: usize = 0;
        while i < self.nodes.len()
            invariant
                i <= self.nodes@.len(),
                self.nodes@.len() == old(self).nodes@.len(),
                forall|j: int|
                    0 <= j < i ==> #[trigger] self.nodes@[j] == leaves_with_presence(
                        old(self).nodes@,
                        *block_id,
                        block_presence,
                    )[j],
                forall|j: int| i <= j < self.nodes@.len()
                    ==> #[trigger] self.nodes@[j] == old(self).nodes@[j],
                found == (exists|j: int|
                    0 <= j < i && (#[trigger] old(self).nodes@[j]).block_id == *block_id),
            decreases self.nodes@.len() - i,
        {
            let node = self.nodes[i];
            if node.block_id == *block_id {
                self.nodes.set(
                    i,
                    LeafNode { locator: node.locator, block_id: node.block_id, block_presence },
                );
                found = true;
                assert(old(self).nodes@[i as int].block_id == *block_id);
            } else {
                proof {
                    if !found && (exists|j: int|
                        0 <= j < i + 1 && (#[trigger] old(self).nodes@[j]).block_id == *block_id) {
                        let j = choose|j: int|
                            0 <= j < i + 1
                                && (#[trigger] old(self).nodes@[j]).block_id == *block_id;
                        assert(j < i);
                    }
                }
            }
            i = i + 1;
        }
        proof {
            let after = leaves_with_presence(old(self).nodes@, *block_id, block_presence);
            assert(self.nodes@ =~= after);
            assert forall|a: int, b: int| 0 <= a < b < after.len()
                implies (#[trigger] after[a]).locator.spec_lt(
                (#[trigger] after[b]).locator,
            ) by {
                assert(old(self).nodes@[a].locator.spec_lt(old(self).nodes@[b].locator));
            }
            lemma_leaves_bytes_same(old(self).nodes@, after);
        }
        found
    }

    /// A copy of this group in which every block is marked as missing.
    pub fn into_missing(&self) -> (s: LeafNodes)
        ensures
            s.nodes@.len() == self.nodes@.len(),
            forall|i: int|
                0 <= i < self.nodes@.len() ==> #[trigger] s.nodes@[i] == (LeafNode {
                    block_presence: SingleBlockPresence::Missing,
                    ..self.nodes@[i]
                }),
            self.wf() ==> s.wf(),
            s.spec_hash() == self.spec_hash(),
    {
        let mut nodes: Vec<LeafNode> = Vec::new();
        let mut i: usize = 0;
        while i < self.nodes.len()
            invariant
                i <= self.nodes@.len(),
                nodes@.len() == i,
                forall|j: int|
                    0 <= j < i ==> #[trigger] nodes@[j] == (LeafNode {
                        block_presence: SingleBlockPresence::Missing,
                        ..self.nodes@[j]
                    }),
            decreases self.nodes@.len() - i,
        {
            let node = self.nodes[i];
            nodes.push(LeafNode::missing(node.locator, node.block_id));
            i = i + 1;
        }
        let s = LeafNodes { nodes };
        proof {
            lemma_leaves_bytes_same(self.nodes@, s.nodes@);
            if self.wf() {
                assert forall|a: int, b: int| 0 <= a < b < s.nodes@.len() implies (
                #[trigger] s.nodes@[a]).locator.spec_lt((#[trigger] s.nodes@[b]).locator) by {
                    assert(self.nodes@[a].locator.spec_lt(self.nodes@[b].locator));
                }
            }
        }
        s
    }

    /// The hash of this group.
    pub fn hash(&self) -> (h: hash::Hash)
        ensures
            h == self.spec_hash(),
    {
        let mut buf: Vec<u8> = Vec::new();
        buf.push(1u8);
        let mut i: usize = 0;
        while i < self.nodes.len()
            invariant
                i <= self.nodes@.len(),
                buf@ == seq![1u8] + leaves_bytes(self.nodes@.subrange(0, i as int)),
            decreases self.nodes@.len() - i,
        {
            let ghost before = buf@;
            let node = self.nodes[i];
            node.locator.write_to(&mut buf);
            node.block_id.hash.write_to(&mut buf);
            proof {
                let prefix = self.nodes@.subrange(0, i as int);
                let next = self.nodes@.subrange(0, i + 1);
                assert(next.drop_last() =~= prefix);
                assert(next.last() == node);
                assert(buf@ =~= seq![1u8] + leaves_bytes(next));
            }
            i = i + 1;
        }
        assert(self.nodes@.subrange(0, i as int) =~= self.nodes@);
        hash::Hash::digest(buf.as_slice())
    }
}

/// The list `s` with the presence of every leaf that refers to `block_id` set to `presence`.
pub open spec fn leaves_with_presence(
    s: Seq<LeafNode>,
    block_id: BlockId,
    presence: SingleBlockPresence,
) -> Seq<LeafNode> {
    Seq::new(
        s.len(),
        |j: int|
            if s[j].block_id == block_id {
                LeafNode { block_presence: presence, ..s[j] }
            } else {
                s[j]
            },
    )
}

/// Whether a leaf of `s` refers to `block_id`.
pub open spec fn leaves_name(s: Seq<LeafNode>, block_id: BlockId) -> bool {
    exists|j: int| 0 <= j < s.len() && (#[trigger] s[j]).block_id == block_id
}

/// Whether two lists of leaf nodes hold the same locators with the same block ids.
pub open spec fn same_leaves(a: Seq<LeafNode>, b: Seq<LeafNode>) -> bool {
    &&& a.len() == b.len()
    &&& forall|i: int|
        0 <= i < a.len() ==> (#[trigger] a[i]).locator == b[i].locator && a[i].block_id
            == b[i].block_id
}

/// The hash of a group of leaf nodes does not depend on the presence of their blocks.
pub proof fn lemma_leaves_bytes_same(a: Seq<LeafNode>, b: Seq<LeafNode>)
    requires
        same_leaves(a, b),
    ensures
        leaves_bytes(a) == leaves_bytes(b),
        leaves_hash(a) == leaves_hash(b),
    decreases a.len(),
{
    if a.len() > 0 {
        assert(a.last().locator == b.last().locator) by {
            assert(a[a.len() - 1].locator == b[a.len() - 1].locator);
        }
        assert forall|i: int| 0 <= i < a.drop_last().len()
            implies (#[trigger] a.drop_last()[i]).locator
            == b.drop_last()[i].locator
                && a.drop_last()[i].block_id == b.drop_last()[i].block_id by {
            assert(a[i].locator == b[i].locator);
        }
        lemma_leaves_bytes_same(a.drop_last(), b.drop_last());
    }
}

pub proof fn lemma_map_after_set(before: Seq<LeafNode>, after: Seq<LeafNode>, i: int, node: LeafNode)
    requires
        leaves_sorted(before),
        leaves_sorted(after),
        0 <= i < before.len(),
        before[i].locator == node.locator,
        after == before.update(i, node),
    ensures
        leaves_map(after) == leaves_map(before).insert(node.locator, node),
{
    let m0 = leaves_map(before).insert(node.locator, node);
    let m1 = leaves_map(after);
    assert forall|k: hash::Hash| m0.contains_key(k) <==> m1.contains_key(k) by {
        if leaves_contain(before, k) {
            let j = choose|j: int| 0 <= j < before.len() && (#[trigger] before[j]).locator == k;
            assert(after[j].locator == k);
        }
        if leaves_contain(after, k) {
            let j = choose|j: int| 0 <= j < after.len() && (#[trigger] after[j]).locator == k;
            assert(before[j].locator == k);
        }
        assert(after[i].locator == node.locator);
    }
    assert forall|k: hash::Hash| m0.contains_key(k) implies m0[k] == m1[k] by {
        let j = choose|j: int| 0 <= j < after.len() && (#[trigger] after[j]).locator == k;
        lemma_leaves_at(after, j);
        if k != node.locator {
            assert(j != i);
            assert(before[j] == after[j]);
            lemma_leaves_at(before, j);
        } else {
            lemma_sorted_index_unique(after, i, j);
        }
    }
    assert(m0 =~= m1);
}

pub proof fn lemma_map_after_insert(
    before: Seq<LeafNode>,
    after: Seq<LeafNode>,
    i: int,
    node: LeafNode,
)
    requires
        leaves_sorted(before),
        leaves_sorted(after),
        0 <= i <= before.len(),
        after == before.insert(i, node),
    ensures
        leaves_map(after) == leaves_map(before).insert(node.locator, node),
{
    let m0 = leaves_map(before).insert(node.locator, node);
    let m1 = leaves_map(after);
    assert(after[i] == node);
    assert forall|k: hash::Hash| m0.contains_key(k) <==> m1.contains_key(k) by {
        if leaves_contain(before, k) {
            let j = choose|j: int| 0 <= j < before.len() && (#[trigger] before[j]).locator == k;
            let j1 = if j < i { j } else { j + 1 };
            assert(after[j1].locator == k);
        }
        if leaves_contain(after, k) {
            let j = choose|j: int| 0 <= j < after.len() && (#[trigger] after[j]).locator == k;
            if j != i {
                let j0 = if j < i { j } else { j - 1 };
                assert(before[j0].locator == k);
            }
        }
    }
    assert forall|k: hash::Hash| m0.contains_key(k) implies m0[k] == m1[k] by {
        let j = choose|j: int| 0 <= j < after.len() && (#[trigger] after[j]).locator == k;
        lemma_leaves_at(after, j);
        if k != node.locator {
            assert(j != i);
            let j0 = if j < i { j } else { j - 1 };
            assert(before[j0] == after[j]);
            lemma_leaves_at(before, j0);
        } else {
            lemma_sorted_index_unique(after, i, j);
        }
    }
    assert(m0 =~= m1);
}

pub proof fn lemma_map_after_remove(before: Seq<LeafNode>, after: Seq<LeafNode>, i: int)
    requires
        leaves_sorted(before),
        leaves_sorted(after),
        0 <= i < before.len(),
        after == before.remove(i),
    ensures
        leaves_map(after) == leaves_map(before).remove(before[i].locator),
{
    let gone = before[i].locator;
    let m0 = leaves_map(before).remove(gone);
    let m1 = leaves_map(after);
    assert forall|k: hash::Hash| m0.contains_key(k) <==> m1.contains_key(k) by {
        if leaves_contain(before, k) && k != gone {
            let j = choose|j: int| 0 <= j < before.len() && (#[trigger] before[j]).locator == k;
            let j1 = if j < i { j } else { j - 1 };
            assert(after[j1].locator == k);
        }
        if leaves_contain(after, k) {
            let j = choose|j: int| 0 <= j < after.len() && (#[trigger] after[j]).locator == k;
            let j0 = if j < i { j } else { j + 1 };
            assert(before[j0].locator == k);
            lemma_sorted_index_unique(before, i, if k == gone { j0 } else { i });
        }
    }
    assert forall|k: hash::Hash| m0.contains_key(k) implies m0[k] == m1[k] by {
        let j = choose|j: int| 0 <= j < after.len() && (#[trigger] after[j]).locator == k;
        lemma_leaves_at(after, j);
        let j0 = if j < i { j } else { j + 1 };
        assert(before[j0] == after[j]);
        lemma_leaves_at(before, j0);
    }
    assert(m0 =~= m1);
}

/// The hash of a group of inner nodes that holds no node.
pub open spec fn spec_empty_inner_hash() -> hash::Hash {
    hash::Hash::spec_from_bytes(sha3_256(seq![0u8]))
}

/// The hash of a group of leaf nodes that holds no node.
pub open spec fn spec_empty_leaf_hash() -> hash::Hash {
    hash::Hash::spec_from_bytes(sha3_256(seq![1u8]))
}

pub fn empty_inner_hash() -> (h: hash::Hash)
    ensures
        h == spec_empty_inner_hash(),
        h == inners_hash(Seq::new(BUCKET_COUNT as nat, |i: int| None::<InnerNode>)),
{
    let mut buf: Vec<u8> = Vec::new();
    buf.push(0u8);
    proof {
        let none = Seq::new(BUCKET_COUNT as nat, |i: int| None::<InnerNode>);
        lemma_inners_bytes_none(none);
        assert(buf@ =~= seq![0u8]);
        assert(seq![0u8] + inners_bytes(none) =~= seq![0u8]);
    }
    hash::Hash::digest(buf.as_slice())
}

pub fn empty_leaf_hash() -> (h: hash::Hash)
    ensures
        h == spec_empty_leaf_hash(),
        h == leaves_hash(Seq::<LeafNode>::empty()),
{
    let mut buf: Vec<u8> = Vec::new();
    buf.push(1u8);
    proof {
        assert(buf@ =~= seq![1u8]);
        assert(seq![1u8] + leaves_bytes(Seq::<LeafNode>::empty()) =~= seq![1u8]);
    }
    hash::Hash::digest(buf.as_slice())
}

/// Whether `h` is the hash of the group of inner nodes that holds no node.
pub fn hash_eq_empty_inner(h: &hash::Hash) -> (r: bool)
    ensures
        r == (*h == spec_empty_inner_hash()),
{
    *h == empty_inner_hash()
}

/// Entry of the index that stands for a whole subtree: the hash of the group
/// of its children and the summary of what is stored of it.
#[derive(Clone, Copy, Debug, PartialEq, Eq, Structural)]
pub struct InnerNode {
    pub hash: hash::Hash,
    pub summary: Summary,
}

impl InnerNode {
    pub fn new(hash: hash::Hash, summary: Summary) -> (n: InnerNode)
        ensures
            n == (InnerNode { hash, summary }),
    {
        InnerNode { hash, summary }
    }

    /// Whether this node stands for a group without nodes.
    pub open spec fn spec_is_empty(&self) -> bool {
        self.hash == spec_empty_inner_hash() || self.hash == spec_empty_leaf_hash()
    }

    pub fn is_empty(&self) -> (r: bool)
        ensures
            r == self.spec_is_empty(),
    {
        self.hash == empty_inner_hash() || self.hash == empty_leaf_hash()
    }
}

/// What a group of inner nodes is hashed as: for each bucket that holds a
/// node, in order, the bucket and the hash of the node.
pub open spec fn inners_bytes(slots: Seq<Option<InnerNode>>) -> Seq<u8>
    decreases slots.len(),
{
    if slots.len() == 0 {
        Seq::<u8>::empty()
    } else {
        match slots.last() {
            Some(node) => inners_bytes(slots.drop_last()) + seq![(slots.len() - 1) as u8]
                + node.hash.spec_bytes(),
            None => inners_bytes(slots.drop_last()),
        }
    }
}

/// The hash of a group of inner nodes.
pub open spec fn inners_hash(slots: Seq<Option<InnerNode>>) -> hash::Hash {
    hash::Hash::spec_from_bytes(sha3_256(seq![0u8] + inners_bytes(slots)))
}

/// The hash of the node in a slot, if the slot holds one.
pub open spec fn slot_hash(slot: Option<InnerNode>) -> Option<hash::Hash> {
    match slot {
        Some(node) => Some(node.hash),
        None => None,
    }
}

/// Whether two groups of inner nodes hold nodes with the same hashes in the same buckets.
pub open spec fn same_inners(a: Seq<Option<InnerNode>>, b: Seq<Option<InnerNode>>) -> bool {
    &&& a.len() == b.len()
    &&& forall|i: int| 0 <= i < a.len() ==> slot_hash(#[trigger] a[i]) == slot_hash(b[i])
}

/// The hash of a group of inner nodes does not depend on the summaries of the nodes.
pub proof fn lemma_inners_bytes_same(a: Seq<Option<InnerNode>>, b: Seq<Option<InnerNode>>)
    requires
        same_inners(a, b),
    ensures
        inners_bytes(a) == inners_bytes(b),
        inners_hash(a) == inners_hash(b),
    decreases a.len(),
{
    if a.len() > 0 {
        assert(slot_hash(a[a.len() - 1]) == slot_hash(b[a.len() - 1]));
        assert forall|i: int| 0 <= i < a.drop_last().len() implies slot_hash(
            #[trigger] a.drop_last()[i],
        ) == slot_hash(b.drop_last()[i]) by {
            assert(slot_hash(a[i]) == slot_hash(b[i]));
        }
        lemma_inners_bytes_same(a.drop_last(), b.drop_last());
    }
}

pub proof fn lemma_inners_bytes_none(slots: Seq<Option<InnerNode>>)
    requires
        forall|i: int| 0 <= i < slots.len() ==> slots[i].is_none(),
    ensures
        inners_bytes(slots) == Seq::<u8>::empty(),
    decreases slots.len(),
{
    if slots.len() > 0 {
        lemma_inners_bytes_none(slots.drop_last());
    }
}

/// The inner nodes under one parent, by bucket.
#[derive(Clone, Debug)]
pub struct InnerNodes {
    pub slots: Vec<Option<InnerNode>>,
}

impl InnerNodes {
    pub open spec fn wf(&self) -> bool {
        self.slots@.len() == BUCKET_COUNT
    }

    pub open spec fn view(&self) -> Map<u8, InnerNode> {
        Map::new(|b: u8| self.slots@[b as int].is_some(), |b: u8| self.slots@[b as int].unwrap())
    }

    pub open spec fn spec_hash(&self) -> hash::Hash {
        inners_hash(self.slots@)
    }

    pub open spec fn spec_is_empty(&self) -> bool {
        forall|b: int| 0 <= b < self.slots@.len() ==> (#[trigger] self.slots@[b]).is_none()
    }

    pub fn new() -> (s: InnerNodes)
        ensures
            s.wf(),
            s.spec_is_empty(),
            s@ == Map::<u8, InnerNode>::empty(),
            s.slots@ == Seq::new(BUCKET_COUNT as nat, |i: int| None::<InnerNode>),
    {
        let mut slots: Vec<Option<InnerNode>> = Vec::new();
        let mut i: usize = 0;
        while i < BUCKET_COUNT
            invariant
                i <= BUCKET_COUNT,
                slots@.len() == i,
                forall|j: int| 0 <= j < i ==> (#[trigger] slots@[j]).is_none(),
            decreases BUCKET_COUNT - i,
        {
            slots.push(None);
            i = i + 1;
        }
        let s = InnerNodes { slots };
        assert(s@ =~= Map::<u8, InnerNode>::empty());
        assert(s.slots@ =~= Seq::new(BUCKET_COUNT as nat, |i: int| None::<InnerNode>));
        s
    }

    pub fn is_empty(&self) -> (r: bool)
        requires
            self.wf(),
        ensures
            r == self.spec_is_empty(),
            r == (self@ == Map::<u8, InnerNode>::empty()),
    {
        let mut i: usize = 0;
        while i < BUCKET_COUNT
            invariant
                self.wf(),
                i <= BUCKET_COUNT,
                forall|j: int| 0 <= j < i ==> (#[trigger] self.slots@[j]).is_none(),
            decreases BUCKET_COUNT - i,
        {
            if self.slots[i].is_some() {
                proof {
                    assert(self@.contains_key(i as u8));
                }
                return false;
            }
            i = i + 1;
        }
        assert(self@ =~= Map::<u8, InnerNode>::empty());
        true
    }

    /// The node at `bucket`, if there is one.
    pub fn get(&self, bucket: u8) -> (r: Option<InnerNode>)
        requires
            self.wf(),
        ensures
            r == self.slots@[bucket as int],
            r == (if self@.contains_key(bucket) {
                Some(self@[bucket])
            } else {
                None
            }),
    {
        self.slots[bucket as usize]
    }

    /// Puts `node` at `bucket` and returns what was there.
    pub fn insert(&mut self, bucket: u8, node: InnerNode) -> (prev: Option<InnerNode>)
        requires
            old(self).wf(),
        ensures
            final(self).wf(),
            final(self).slots@ == old(self).slots@.update(bucket as int, Some(node)),
            final(self)@ == old(self)@.insert(bucket, node),
            prev == old(self).slots@[bucket as int],
    {
        let prev = self.slots[bucket as usize];
        self.slots.set(bucket as usize, Some(node));
        assert(self@ =~= old(self)@.insert(bucket, node));
        prev
    }

    /// Empties `bucket` and returns what was there.
    pub fn remove(&mut self, bucket: u8) -> (prev: Option<InnerNode>)
        requires
            old(self).wf(),
        ensures
            final(self).wf(),
            final(self).slots@ == old(self).slots@.update(bucket as int, None),
            final(self)@ == old(self)@.remove(bucket),
            prev == old(self).slots@[bucket as int],
    {
        let prev = self.slots[bucket as usize];
        self.slots.set(bucket as usize, None);
        assert(self@ =~= old(self)@.remove(bucket));
        prev
    }

    /// A copy of this group.
    pub fn duplicate(&self) -> (s: InnerNodes)
        ensures
            s.slots@ == self.slots@,
    {
        let mut slots: Vec<Option<InnerNode>> = Vec::new();
        let mut i: usize = 0;
        while i < self.slots.len()
            invariant
                i <= self.slots@.len(),
                slots@ == self.slots@.subrange(0, i as int),
            decreases self.slots@.len() - i,
        {
            slots.push(self.slots[i]);
            assert(slots@ =~= self.slots@.subrange(0, i + 1));
            i = i + 1;
        }
        assert(slots@ =~= self.slots@);
        InnerNodes { slots }
    }

    /// A copy of this group in which every node is marked as incomplete.
    pub fn into_incomplete(&self) -> (s: InnerNodes)
        ensures
            s.slots@.len() == self.slots@.len(),
            forall|i: int|
                0 <= i < self.slots@.len() ==> #[trigger] s.slots@[i] == (match self.slots@[i] {
                    Some(node) => Some(
                        InnerNode { hash: node.hash, summary: Summary::spec_incomplete() },
                    ),
                    None => None,
                }),
            same_inners(self.slots@, s.slots@),
            s.spec_hash() == self.spec_hash(),
    {
        let mut slots: Vec<Option<InnerNode>> = Vec::new();
        let mut i: usize = 0;
        while i < self.slots.len()
            invariant
                i <= self.slots@.len(),
                slots@.len() == i,
                forall|j: int|
                    0 <= j < i ==> #[trigger] slots@[j] == (match self.slots@[j] {
                        Some(node) => Some(
                            InnerNode { hash: node.hash, summary: Summary::spec_incomplete() },
                        ),
                        None => None,
                    }),
            decreases self.slots@.len() - i,
        {
            match self.slots[i] {
                Some(node) => slots.push(Some(InnerNode::new(node.hash, Summary::incomplete()))),
                None => slots.push(None),
            }
            i = i + 1;
        }
        let s = InnerNodes { slots };
        proof {
            assert forall|b: int| 0 <= b < self.slots@.len() implies slot_hash(
                #[trigger] self.slots@[b],
            ) == slot_hash(s.slots@[b]) by {
                assert(s.slots@[b] == (match self.slots@[b] {
                    Some(node) => Some(
                        InnerNode { hash: node.hash, summary: Summary::spec_incomplete() },
                    ),
                    None => None,
                }));
            }
            lemma_inners_bytes_same(self.slots@, s.slots@);
        }
        s
    }

    /// The hash of this group.
    pub fn hash(&self) -> (h: hash::Hash)
        requires
            self.wf(),
        ensures
            h == self.spec_hash(),
    {
        let mut buf: Vec<u8> = Vec::new();
        buf.push(0u8);
        let mut i: usize = 0;
        while i < BUCKET_COUNT
            invariant
                self.wf(),
                i <= BUCKET_COUNT,
                buf@ == seq![0u8] + inners_bytes(self.slots@.subrange(0, i as int)),
            decreases BUCKET_COUNT - i,
        {
            proof {
                let prefix = self.slots@.subrange(0, i as int);
                let next = self.slots@.subrange(0, i + 1);
                assert(next.drop_last() =~= prefix);
                assert(next.last() == self.slots@[i as int]);
            }
            match self.slots[i] {
                Some(node) => {
                    let ghost before = buf@;
                    buf.push(i as u8);
                    node.hash.write_to(&mut buf);
                    proof {
                        let next = self.slots@.subrange(0, i + 1);
                        assert(buf@ =~= seq![0u8] + inners_bytes(next));
                    }
                },
                None => {},
            }
            i = i + 1;
        }
        assert(self.slots@.subrange(0, i as int) =~= self.slots@);
        hash::Hash::digest(buf.as_slice())
    }
}

} // verus!
