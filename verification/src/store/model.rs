//! What the tables of a store say, as predicates over their content.

use crate::crypto::hash;
use crate::protocol::node::{
    same_inners, same_leaves, spec_empty_inner_hash, spec_empty_leaf_hash, spec_get_bucket,
    InnerNode, InnerNodes, LeafNode, LeafNodes,
};
use crate::protocol::root_node::RootNode;
use crate::protocol::summary::NodeState;
use vstd::prelude::*;

verus! {

/// Whether `h` is the hash of a group without nodes. A node with such a
/// hash stands for an empty subtree, which is never stored.
pub open spec fn is_empty_hash(h: hash::Hash) -> bool {
    h == spec_empty_inner_hash() || h == spec_empty_leaf_hash()
}

/// Every stored group of inner nodes has a slot for each bucket and is
/// stored under its own hash, which is not that of an empty group.
pub open spec fn inner_groups_wf(m: Map<hash::Hash, InnerNodes>) -> bool {
    forall|k: hash::Hash| #[trigger]
        m.contains_key(k) ==> m[k].wf() && m[k].spec_hash() == k && !is_empty_hash(k)
            && !m[k].spec_is_empty()
}

/// Every stored group of leaf nodes is ordered and is stored under its own
/// hash, which is not that of an empty group.
pub open spec fn leaf_groups_wf(m: Map<hash::Hash, LeafNodes>) -> bool {
    forall|k: hash::Hash| #[trigger]
        m.contains_key(k) ==> m[k].wf() && m[k].spec_hash() == k && !is_empty_hash(k)
            && m[k].nodes@.len() > 0
}

/// The subtree of a node of the last inner layer is complete: its group of leaves is stored.
pub open spec fn leaf_complete(leaves: Map<hash::Hash, LeafNodes>, h: hash::Hash) -> bool {
    is_empty_hash(h) || leaves.contains_key(h)
}

/// Every node in `slots` has a complete group of leaves below it.
pub open spec fn slots_complete2(
    leaves: Map<hash::Hash, LeafNodes>,
    slots: Seq<Option<InnerNode>>,
) -> bool {
    forall|b: int|
        0 <= b < slots.len() && (#[trigger] slots[b]).is_some() ==> leaf_complete(
            leaves,
            slots[b].unwrap().hash,
        )
}

/// The subtree under hash `h` of the last inner layer is complete.
pub open spec fn complete2(
    i2: Map<hash::Hash, InnerNodes>,
    leaves: Map<hash::Hash, LeafNodes>,
    h: hash::Hash,
) -> bool {
    is_empty_hash(h) || (i2.contains_key(h) && slots_complete2(leaves, i2[h].slots@))
}

pub open spec fn slots_complete1(
    i2: Map<hash::Hash, InnerNodes>,
    leaves: Map<hash::Hash, LeafNodes>,
    slots: Seq<Option<InnerNode>>,
) -> bool {
    forall|b: int|
        0 <= b < slots.len() && (#[trigger] slots[b]).is_some() ==> complete2(
            i2,
            leaves,
            slots[b].unwrap().hash,
        )
}

/// The subtree under hash `h` of the second inner layer is complete.
pub open spec fn complete1(
    i1: Map<hash::Hash, InnerNodes>,
    i2: Map<hash::Hash, InnerNodes>,
    leaves: Map<hash::Hash, LeafNodes>,
    h: hash::Hash,
) -> bool {
    is_empty_hash(h) || (i1.contains_key(h) && slots_complete1(i2, leaves, i1[h].slots@))
}

pub open spec fn slots_complete0(
    i1: Map<hash::Hash, InnerNodes>,
    i2: Map<hash::Hash, InnerNodes>,
    leaves: Map<hash::Hash, LeafNodes>,
    slots: Seq<Option<InnerNode>>,
) -> bool {
    forall|b: int|
        0 <= b < slots.len() && (#[trigger] slots[b]).is_some() ==> complete1(
            i1,
            i2,
            leaves,
            slots[b].unwrap().hash,
        )
}

/// The snapshot with root hash `h` is complete: every group of nodes that
/// can be reached from the root is stored.
pub open spec fn complete0(
    i0: Map<hash::Hash, InnerNodes>,
    i1: Map<hash::Hash, InnerNodes>,
    i2: Map<hash::Hash, InnerNodes>,
    leaves: Map<hash::Hash, LeafNodes>,
    h: hash::Hash,
) -> bool {
    is_empty_hash(h) || (i0.contains_key(h) && slots_complete0(i1, i2, leaves, i0[h].slots@))
}

/// `new` has every group of `old`, with the same hashes in the same buckets.
pub open spec fn inner_extends(
    old: Map<hash::Hash, InnerNodes>,
    new: Map<hash::Hash, InnerNodes>,
) -> bool {
    forall|k: hash::Hash| #[trigger]
        old.contains_key(k) ==> new.contains_key(k) && same_inners(old[k].slots@, new[k].slots@)
}

/// `new` has every group of `old`, with the same blocks at the same locators.
pub open spec fn leaf_extends(
    old: Map<hash::Hash, LeafNodes>,
    new: Map<hash::Hash, LeafNodes>,
) -> bool {
    forall|k: hash::Hash| #[trigger]
        old.contains_key(k) ==> new.contains_key(k) && same_leaves(old[k].nodes@, new[k].nodes@)
}

/// A complete subtree stays complete when groups are added to the tables.
pub proof fn lemma_complete2_extends(
    i2: Map<hash::Hash, InnerNodes>,
    leaves: Map<hash::Hash, LeafNodes>,
    j2: Map<hash::Hash, InnerNodes>,
    new_leaves: Map<hash::Hash, LeafNodes>,
    h: hash::Hash,
)
    requires
        inner_extends(i2, j2),
        leaf_extends(leaves, new_leaves),
        complete2(i2, leaves, h),
    ensures
        complete2(j2, new_leaves, h),
{
    if !is_empty_hash(h) {
        assert(i2.contains_key(h));
        let a = i2[h].slots@;
        let c = j2[h].slots@;
        assert forall|b: int| 0 <= b < c.len() && (#[trigger] c[b]).is_some() implies leaf_complete(
            new_leaves,
            c[b].unwrap().hash,
        ) by {
            assert(crate::protocol::node::slot_hash(a[b]) == crate::protocol::node::slot_hash(
                c[b],
            ));
            assert(a[b].is_some());
            let g = a[b].unwrap().hash;
            if !is_empty_hash(g) {
                assert(leaves.contains_key(g));
            }
        }
    }
}

pub proof fn lemma_complete1_extends(
    i1: Map<hash::Hash, InnerNodes>,
    i2: Map<hash::Hash, InnerNodes>,
    leaves: Map<hash::Hash, LeafNodes>,
    j1: Map<hash::Hash, InnerNodes>,
    j2: Map<hash::Hash, InnerNodes>,
    new_leaves: Map<hash::Hash, LeafNodes>,
    h: hash::Hash,
)
    requires
        inner_extends(i1, j1),
        inner_extends(i2, j2),
        leaf_extends(leaves, new_leaves),
        complete1(i1, i2, leaves, h),
    ensures
        complete1(j1, j2, new_leaves, h),
{
    if !is_empty_hash(h) {
        assert(i1.contains_key(h));
        let a = i1[h].slots@;
        let c = j1[h].slots@;
        assert forall|b: int| 0 <= b < c.len() && (#[trigger] c[b]).is_some() implies complete2(
            j2,
            new_leaves,
            c[b].unwrap().hash,
        ) by {
            assert(crate::protocol::node::slot_hash(a[b]) == crate::protocol::node::slot_hash(
                c[b],
            ));
            assert(a[b].is_some());
            lemma_complete2_extends(i2, leaves, j2, new_leaves, a[b].unwrap().hash);
        }
    }
}

pub proof fn lemma_complete0_extends(
    i0: Map<hash::Hash, InnerNodes>,
    i1: Map<hash::Hash, InnerNodes>,
    i2: Map<hash::Hash, InnerNodes>,
    leaves: Map<hash::Hash, LeafNodes>,
    j0: Map<hash::Hash, InnerNodes>,
    j1: Map<hash::Hash, InnerNodes>,
    j2: Map<hash::Hash, InnerNodes>,
    new_leaves: Map<hash::Hash, LeafNodes>,
    h: hash::Hash,
)
    requires
        inner_extends(i0, j0),
        inner_extends(i1, j1),
        inner_extends(i2, j2),
        leaf_extends(leaves, new_leaves),
        complete0(i0, i1, i2, leaves, h),
    ensures
        complete0(j0, j1, j2, new_leaves, h),
{
    if !is_empty_hash(h) {
        assert(i0.contains_key(h));
        let a = i0[h].slots@;
        let c = j0[h].slots@;
        assert forall|b: int| 0 <= b < c.len() && (#[trigger] c[b]).is_some() implies complete1(
            j1,
            j2,
            new_leaves,
            c[b].unwrap().hash,
        ) by {
            assert(crate::protocol::node::slot_hash(a[b]) == crate::protocol::node::slot_hash(
                c[b],
            ));
            assert(a[b].is_some());
            lemma_complete1_extends(i1, i2, leaves, j1, j2, new_leaves, a[b].unwrap().hash);
        }
    }
}

/// The leaf at `locator` in the group of leaves stored under `h`.
pub open spec fn find_in_leaves(
    leaves: Map<hash::Hash, LeafNodes>,
    h: hash::Hash,
    locator: hash::Hash,
) -> Option<LeafNode> {
    if leaves.contains_key(h) && leaves[h]@.contains_key(locator) {
        Some(leaves[h]@[locator])
    } else {
        None
    }
}

/// The leaf that a descent from hash `h` of the last inner layer by the
/// bucket of `locator` ends at.
pub open spec fn find_from2(
    i2: Map<hash::Hash, InnerNodes>,
    leaves: Map<hash::Hash, LeafNodes>,
    h: hash::Hash,
    locator: hash::Hash,
) -> Option<LeafNode> {
    if !i2.contains_key(h) {
        None
    } else {
        match i2[h].slots@[spec_get_bucket(locator, 2) as int] {
            None => None,
            Some(n2) => find_in_leaves(leaves, n2.hash, locator),
        }
    }
}

/// The leaf that a descent from hash `h` of the second inner layer by the
/// buckets of `locator` ends at.
pub open spec fn find_from1(
    i1: Map<hash::Hash, InnerNodes>,
    i2: Map<hash::Hash, InnerNodes>,
    leaves: Map<hash::Hash, LeafNodes>,
    h: hash::Hash,
    locator: hash::Hash,
) -> Option<LeafNode> {
    if !i1.contains_key(h) {
        None
    } else {
        match i1[h].slots@[spec_get_bucket(locator, 1) as int] {
            None => None,
            Some(n1) => find_from2(i2, leaves, n1.hash, locator),
        }
    }
}

/// The leaf that a descent from root hash `root` by the buckets of
/// `locator` ends at, if every group on the way is stored and holds a node
/// in the bucket of `locator`.
pub open spec fn find_leaf(
    i0: Map<hash::Hash, InnerNodes>,
    i1: Map<hash::Hash, InnerNodes>,
    i2: Map<hash::Hash, InnerNodes>,
    leaves: Map<hash::Hash, LeafNodes>,
    root: hash::Hash,
    locator: hash::Hash,
) -> Option<LeafNode> {
    if !i0.contains_key(root) {
        None
    } else {
        match i0[root].slots@[spec_get_bucket(locator, 0) as int] {
            None => None,
            Some(n0) => find_from1(i1, i2, leaves, n0.hash, locator),
        }
    }
}

/// Whether `root` is the root of a snapshot that was found complete.
pub open spec fn is_settled(root: RootNode) -> bool {
    root.summary.state != NodeState::Incomplete
}

/// The snapshot ids of `roots` strictly increase and stay below `next`.
pub open spec fn roots_ordered(roots: Seq<RootNode>, next: u64) -> bool {
    &&& forall|i: int, j: int|
        0 <= i < j < roots.len() ==> (#[trigger] roots[i]).snapshot_id < (
        #[trigger] roots[j]).snapshot_id
    &&& forall|i: int| 0 <= i < roots.len() ==> (#[trigger] roots[i]).snapshot_id < next
}

} // verus!
