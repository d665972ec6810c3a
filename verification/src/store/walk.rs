//! Walking the nodes of a snapshot: how many leaves it has, and whether a
//! group of nodes belongs to it.

use crate::crypto::hash;
use crate::protocol::block::BLOCK_SIZE;
use crate::protocol::node::{
    empty_inner_hash, empty_leaf_hash, spec_empty_inner_hash, spec_empty_leaf_hash, InnerNode,
    InnerNodes, LeafNodes,
};
use crate::store::model::{complete1, complete2, leaf_complete};
use crate::store::Store;
use vstd::prelude::*;

verus! {

/// `n`, or the largest `u64` if `n` is above it.
pub open spec fn saturate(n: nat) -> u64 {
    if n > u64::MAX {
        u64::MAX
    } else {
        n as u64
    }
}

/// The sum of `a` and `b`, or the largest `u64` if the sum is above it.
pub fn saturating_sum(a: u64, b: u64) -> (r: u64)
    ensures
        r == saturate((a + b) as nat),
{
    if a > u64::MAX - b {
        u64::MAX
    } else {
        a + b
    }
}

/// Number of leaves in the group stored under `h`.
pub open spec fn leaves_under(leaves: Map<hash::Hash, LeafNodes>, h: hash::Hash) -> nat {
    if leaves.contains_key(h) {
        leaves[h].nodes@.len()
    } else {
        0
    }
}

/// Number of leaves below the nodes in `slots`, which are of the last inner layer.
pub open spec fn leaves_below2(leaves: Map<hash::Hash, LeafNodes>, slots: Seq<Option<InnerNode>>) -> nat
    decreases slots.len(),
{
    if slots.len() == 0 {
        0
    } else {
        leaves_below2(leaves, slots.drop_last()) + (match slots.last() {
            Some(n) => leaves_under(leaves, n.hash),
            None => 0,
        })
    }
}

/// Number of leaves in the subtree under hash `h` of the last inner layer.
pub open spec fn leaves_under2(
    i2: Map<hash::Hash, InnerNodes>,
    leaves: Map<hash::Hash, LeafNodes>,
    h: hash::Hash,
) -> nat {
    if i2.contains_key(h) {
        leaves_below2(leaves, i2[h].slots@)
    } else {
        0
    }
}

pub open spec fn leaves_below1(
    i2: Map<hash::Hash, InnerNodes>,
    leaves: Map<hash::Hash, LeafNodes>,
    slots: Seq<Option<InnerNode>>,
) -> nat
    decreases slots.len(),
{
    if slots.len() == 0 {
        0
    } else {
        leaves_below1(i2, leaves, slots.drop_last()) + (match slots.last() {
            Some(n) => leaves_under2(i2, leaves, n.hash),
            None => 0,
        })
    }
}

/// Number of leaves in the subtree under hash `h` of the second inner layer.
pub open spec fn leaves_under1(
    i1: Map<hash::Hash, InnerNodes>,
    i2: Map<hash::Hash, InnerNodes>,
    leaves: Map<hash::Hash, LeafNodes>,
    h: hash::Hash,
) -> nat {
    if i1.contains_key(h) {
        leaves_below1(i2, leaves, i1[h].slots@)
    } else {
        0
    }
}

pub open spec fn leaves_below0(
    i1: Map<hash::Hash, InnerNodes>,
    i2: Map<hash::Hash, InnerNodes>,
    leaves: Map<hash::Hash, LeafNodes>,
    slots: Seq<Option<InnerNode>>,
) -> nat
    decreases slots.len(),
{
    if slots.len() == 0 {
        0
    } else {
        leaves_below0(i1, i2, leaves, slots.drop_last()) + (match slots.last() {
            Some(n) => leaves_under1(i1, i2, leaves, n.hash),
            None => 0,
        })
    }
}

/// Number of leaves of the snapshot with root hash `h`, as far as it is stored.
pub open spec fn leaves_under0(
    i0: Map<hash::Hash, InnerNodes>,
    i1: Map<hash::Hash, InnerNodes>,
    i2: Map<hash::Hash, InnerNodes>,
    leaves: Map<hash::Hash, LeafNodes>,
    h: hash::Hash,
) -> nat {
    if i0.contains_key(h) {
        leaves_below0(i1, i2, leaves, i0[h].slots@)
    } else {
        0
    }
}

/// Whether a node in `slots`, which are of the last inner layer, has hash `target`.
pub open spec fn reaches_below2(slots: Seq<Option<InnerNode>>, target: hash::Hash) -> bool {
    exists|b: int| 0 <= b < slots.len() && (#[trigger] slots[b]).is_some()
        && slots[b].unwrap().hash == target
}

/// Whether `target` is `h`, of the last inner layer, or the hash of a node in the group under it.
pub open spec fn reaches2(i2: Map<hash::Hash, InnerNodes>, h: hash::Hash, target: hash::Hash) -> bool {
    h == target || (i2.contains_key(h) && reaches_below2(i2[h].slots@, target))
}

pub open spec fn reaches_below1(
    i2: Map<hash::Hash, InnerNodes>,
    slots: Seq<Option<InnerNode>>,
    target: hash::Hash,
) -> bool {
    exists|b: int|
        0 <= b < slots.len() && (#[trigger] slots[b]).is_some() && reaches2(
            i2,
            slots[b].unwrap().hash,
            target,
        )
}

pub open spec fn reaches1(
    i1: Map<hash::Hash, InnerNodes>,
    i2: Map<hash::Hash, InnerNodes>,
    h: hash::Hash,
    target: hash::Hash,
) -> bool {
    h == target || (i1.contains_key(h) && reaches_below1(i2, i1[h].slots@, target))
}

pub open spec fn reaches_below0(
    i1: Map<hash::Hash, InnerNodes>,
    i2: Map<hash::Hash, InnerNodes>,
    slots: Seq<Option<InnerNode>>,
    target: hash::Hash,
) -> bool {
    exists|b: int|
        0 <= b < slots.len() && (#[trigger] slots[b]).is_some() && reaches1(
            i1,
            i2,
            slots[b].unwrap().hash,
            target,
        )
}

/// Whether `target` is the root hash `h` or the hash of a node of the snapshot with that root.
pub open spec fn reaches0(
    i0: Map<hash::Hash, InnerNodes>,
    i1: Map<hash::Hash, InnerNodes>,
    i2: Map<hash::Hash, InnerNodes>,
    h: hash::Hash,
    target: hash::Hash,
) -> bool {
    h == target || (i0.contains_key(h) && reaches_below0(i1, i2, i0[h].slots@, target))
}

impl Store {
    /// Number of leaves of the snapshot with root hash `root`, as far as it is stored.
    pub open spec fn spec_leaf_count(&self, root: hash::Hash) -> nat {
        leaves_under0(self.inners0@, self.inners1@, self.inners2@, self.leaves@, root)
    }

    /// Whether `target` is the hash of the root or of a node of the snapshot with root hash `root`.
    pub open spec fn spec_reaches(&self, root: hash::Hash, target: hash::Hash) -> bool {
        reaches0(self.inners0@, self.inners1@, self.inners2@, root, target)
    }

    /// The bytes that the blocks of the snapshot with root hash `root` take.
    pub open spec fn spec_snapshot_size(&self, root: hash::Hash) -> nat {
        self.spec_leaf_count(root) * (BLOCK_SIZE as nat)
    }

    fn count_under2(&self, h: &hash::Hash) -> (n: u64)
        requires
            self.wf(),
        ensures
            n == saturate(leaves_under2(self.inners2@, self.leaves@, *h)),
    {
        let group = match self.inners2.get(h) {
            None => {
                return 0;
            },
            Some(group) => group,
        };
        let mut acc: u64 = 0;
        let mut b: usize = 0;
        while b < 256
            invariant
                self.wf(),
                group.wf(),
                b <= 256,
                acc == saturate(leaves_below2(self.leaves@, group.slots@.subrange(0, b as int))),
            decreases 256 - b,
        {
            proof {
                let next = group.slots@.subrange(0, b + 1);
                assert(next.drop_last() =~= group.slots@.subrange(0, b as int));
                assert(next.last() == group.slots@[b as int]);
            }
            match group.get(b as u8) {
                Some(node) => {
                    let below: u64 = match self.leaves.get(&node.hash) {
                        Some(leaves) => leaves.len() as u64,
                        None => 0,
                    };
                    acc = saturating_sum(acc, below);
                },
                None => {},
            }
            b = b + 1;
        }
        assert(group.slots@.subrange(0, 256) =~= group.slots@);
        acc
    }

    fn count_under1(&self, h: &hash::Hash) -> (n: u64)
        requires
            self.wf(),
        ensures
            n == saturate(leaves_under1(self.inners1@, self.inners2@, self.leaves@, *h)),
    {
        let group = match self.inners1.get(h) {
            None => {
                return 0;
            },
            Some(group) => group,
        };
        let mut acc: u64 = 0;
        let mut b: usize = 0;
        while b < 256
            invariant
                self.wf(),
                group.wf(),
                b <= 256,
                acc == saturate(
                    leaves_below1(self.inners2@, self.leaves@, group.slots@.subrange(0, b as int)),
                ),
            decreases 256 - b,
        {
            proof {
                let next = group.slots@.subrange(0, b + 1);
                assert(next.drop_last() =~= group.slots@.subrange(0, b as int));
                assert(next.last() == group.slots@[b as int]);
            }
            match group.get(b as u8) {
                Some(node) => {
                    let below = self.count_under2(&node.hash);
                    acc = saturating_sum(acc, below);
                },
                None => {},
            }
            b = b + 1;
        }
        assert(group.slots@.subrange(0, 256) =~= group.slots@);
        acc
    }

    /// Number of leaves of the snapshot with root hash `root`, as far as
    /// it is stored, or the largest number if there are more.
    pub fn count_leaves(&self, root: &hash::Hash) -> (n: u64)
        requires
            self.wf(),
        ensures
            n == saturate(self.spec_leaf_count(*root)),
    {
        let group = match self.inners0.get(root) {
            None => {
                return 0;
            },
            Some(group) => group,
        };
        let mut acc: u64 = 0;
        let mut b: usize = 0;
        while b < 256
            invariant
                self.wf(),
                group.wf(),
                b <= 256,
                acc == saturate(
                    leaves_below0(
                        self.inners1@,
                        self.inners2@,
                        self.leaves@,
                        group.slots@.subrange(0, b as int),
                    ),
                ),
            decreases 256 - b,
        {
            proof {
                let next = group.slots@.subrange(0, b + 1);
                assert(next.drop_last() =~= group.slots@.subrange(0, b as int));
                assert(next.last() == group.slots@[b as int]);
            }
            match group.get(b as u8) {
                Some(node) => {
                    let below = self.count_under1(&node.hash);
                    acc = saturating_sum(acc, below);
                },
                None => {},
            }
            b = b + 1;
        }
        assert(group.slots@.subrange(0, 256) =~= group.slots@);
        acc
    }

    /// Whether the blocks of the snapshot with root hash `root` fit into `quota` bytes.
    pub fn fits_quota(&self, root: &hash::Hash, quota: u64) -> (r: bool)
        requires
            self.wf(),
        ensures
            r == (self.spec_snapshot_size(*root) <= quota),
    {
        let count = self.count_leaves(root);
        let limit = quota / (BLOCK_SIZE as u64);
        proof {
            let n = self.spec_leaf_count(*root);
            assert((n * 32768 <= quota) == (n <= quota / 32768)) by (nonlinear_arith)
                requires
                    n >= 0,
                    quota >= 0,
            ;
        }
        count <= limit
    }

    fn reaches_under2(&self, h: &hash::Hash, target: &hash::Hash) -> (r: bool)
        requires
            self.wf(),
        ensures
            r == reaches2(self.inners2@, *h, *target),
    {
        if *h == *target {
            return true;
        }
        let group = match self.inners2.get(h) {
            None => {
                return false;
            },
            Some(group) => group,
        };
        let mut b: usize = 0;
        while b < 256
            invariant
                self.wf(),
                group.wf(),
                b <= 256,
                self.inners2@.contains_key(*h),
                self.inners2@[*h] == *group,
                forall|j: int|
                    0 <= j < b ==> !((#[trigger] group.slots@[j]).is_some()
                        && group.slots@[j].unwrap().hash == *target),
            decreases 256 - b,
        {
            match group.get(b as u8) {
                Some(node) => {
                    if node.hash == *target {
                        assert(group.slots@[b as int].is_some());
                        assert(reaches_below2(group.slots@, *target));
                        return true;
                    }
                },
                None => {},
            }
            b = b + 1;
        }
        false
    }

    fn reaches_under1(&self, h: &hash::Hash, target: &hash::Hash) -> (r: bool)
        requires
            self.wf(),
        ensures
            r == reaches1(self.inners1@, self.inners2@, *h, *target),
    {
        if *h == *target {
            return true;
        }
        let group = match self.inners1.get(h) {
            None => {
                return false;
            },
            Some(group) => group,
        };
        let mut b: usize = 0;
        while b < 256
            invariant
                self.wf(),
                group.wf(),
                b <= 256,
                self.inners1@.contains_key(*h),
                self.inners1@[*h] == *group,
                forall|j: int|
                    0 <= j < b ==> !((#[trigger] group.slots@[j]).is_some() && reaches2(
                        self.inners2@,
                        group.slots@[j].unwrap().hash,
                        *target,
                    )),
            decreases 256 - b,
        {
            match group.get(b as u8) {
                Some(node) => {
                    if self.reaches_under2(&node.hash, target) {
                        assert(group.slots@[b as int].is_some());
                        assert(reaches_below1(self.inners2@, group.slots@, *target));
                        return true;
                    }
                },
                None => {},
            }
            b = b + 1;
        }
        false
    }

    /// Whether `target` is the hash of the root or of a node of the snapshot with root hash `root`.
    pub fn reaches(&self, root: &hash::Hash, target: &hash::Hash) -> (r: bool)
        requires
            self.wf(),
        ensures
            r == self.spec_reaches(*root, *target),
    {
        if *root == *target {
            return true;
        }
        let group = match self.inners0.get(root) {
            None => {
                return false;
            },
            Some(group) => group,
        };
        let mut b: usize = 0;
        while b < 256
            invariant
                self.wf(),
                group.wf(),
                b <= 256,
                self.inners0@.contains_key(*root),
                self.inners0@[*root] == *group,
                forall|j: int|
                    0 <= j < b ==> !((#[trigger] group.slots@[j]).is_some() && reaches1(
                        self.inners1@,
                        self.inners2@,
                        group.slots@[j].unwrap().hash,
                        *target,
                    )),
            decreases 256 - b,
        {
            match group.get(b as u8) {
                Some(node) => {
                    if self.reaches_under1(&node.hash, target) {
                        assert(group.slots@[b as int].is_some());
                        assert(reaches_below0(self.inners1@, self.inners2@, group.slots@, *target));
                        return true;
                    }
                },
                None => {},
            }
            b = b + 1;
        }
        false
    }

    fn complete_under2(&self, h: &hash::Hash, ei: &hash::Hash, el: &hash::Hash) -> (r: bool)
        requires
            self.wf(),
            *ei == spec_empty_inner_hash(),
            *el == spec_empty_leaf_hash(),
        ensures
            r == complete2(self.inners2@, self.leaves@, *h),
    {
        if *h == *ei || *h == *el {
            return true;
        }
        let group = match self.inners2.get(h) {
            None => {
                return false;
            },
            Some(group) => group,
        };
        let mut b: usize = 0;
        while b < 256
            invariant
                self.wf(),
                group.wf(),
                b <= 256,
                *ei == spec_empty_inner_hash(),
                *el == spec_empty_leaf_hash(),
                self.inners2@.contains_key(*h),
                self.inners2@[*h] == *group,
                forall|c: int|
                    0 <= c < b && (#[trigger] group.slots@[c]).is_some() ==> leaf_complete(
                        self.leaves@,
                        group.slots@[c].unwrap().hash,
                    ),
            decreases 256 - b,
        {
            match group.get(b as u8) {
                Some(node) => {
                    if !(node.hash == *ei || node.hash == *el || self.leaves.contains_key(
                        &node.hash,
                    )) {
                        assert(group.slots@[b as int].is_some());
                        return false;
                    }
                },
                None => {},
            }
            b = b + 1;
        }
        true
    }

    fn complete_under1(&self, h: &hash::Hash, ei: &hash::Hash, el: &hash::Hash) -> (r: bool)
        requires
            self.wf(),
            *ei == spec_empty_inner_hash(),
            *el == spec_empty_leaf_hash(),
        ensures
            r == complete1(self.inners1@, self.inners2@, self.leaves@, *h),
    {
        if *h == *ei || *h == *el {
            return true;
        }
        let group = match self.inners1.get(h) {
            None => {
                return false;
            },
            Some(group) => group,
        };
        let mut b: usize = 0;
        while b < 256
            invariant
                self.wf(),
                group.wf(),
                b <= 256,
                *ei == spec_empty_inner_hash(),
                *el == spec_empty_leaf_hash(),
                self.inners1@.contains_key(*h),
                self.inners1@[*h] == *group,
                forall|c: int|
                    0 <= c < b && (#[trigger] group.slots@[c]).is_some() ==> complete2(
                        self.inners2@,
                        self.leaves@,
                        group.slots@[c].unwrap().hash,
                    ),
            decreases 256 - b,
        {
            match group.get(b as u8) {
                Some(node) => {
                    if !self.complete_under2(&node.hash, ei, el) {
                        assert(group.slots@[b as int].is_some());
                        return false;
                    }
                },
                None => {},
            }
            b = b + 1;
        }
        true
    }

    /// Whether the store holds every group of nodes of the snapshot with
    /// root hash `root`.
    pub fn is_complete(&self, root: &hash::Hash) -> (r: bool)
        requires
            self.wf(),
        ensures
            r == self.spec_complete(*root),
    {
        let ei = empty_inner_hash();
        let el = empty_leaf_hash();
        if *root == ei || *root == el {
            return true;
        }
        let group = match self.inners0.get(root) {
            None => {
                return false;
            },
            Some(group) => group,
        };
        let mut b: usize = 0;
        while b < 256
            invariant
                self.wf(),
                group.wf(),
                b <= 256,
                ei == spec_empty_inner_hash(),
                el == spec_empty_leaf_hash(),
                self.inners0@.contains_key(*root),
                self.inners0@[*root] == *group,
                forall|c: int|
                    0 <= c < b && (#[trigger] group.slots@[c]).is_some() ==> complete1(
                        self.inners1@,
                        self.inners2@,
                        self.leaves@,
                        group.slots@[c].unwrap().hash,
                    ),
            decreases 256 - b,
        {
            match group.get(b as u8) {
                Some(node) => {
                    if !self.complete_under1(&node.hash, &ei, &el) {
                        assert(group.slots@[b as int].is_some());
                        return false;
                    }
                },
                None => {},
            }
            b = b + 1;
        }
        true
    }
}

} // verus!
