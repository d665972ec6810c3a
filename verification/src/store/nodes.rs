//! Writing groups of nodes into the tables of a store.

use crate::collections::table::Table;
use crate::crypto::hash;
use crate::error::Error;
use crate::protocol::node::{
    empty_inner_hash, empty_leaf_hash, inners_hash, leaves_hash, same_inners, same_leaves,
    slot_hash, InnerNode, InnerNodes, LeafNode, LeafNodes,
};
use crate::store::model::{
    inner_extends, inner_groups_wf, is_empty_hash, leaf_extends, leaf_groups_wf,
    lemma_complete0_extends,
};
use crate::store::Store;
use vstd::prelude::*;

verus! {

/// Whether `a` and `b` hold nodes with the same hashes in the same buckets.
pub fn inners_agree(a: &InnerNodes, b: &InnerNodes) -> (r: bool)
    requires
        a.wf(),
        b.wf(),
    ensures
        r == same_inners(a.slots@, b.slots@),
{
    let mut i: usize = 0;
    while i < 256
        invariant
            a.wf(),
            b.wf(),
            i <= 256,
            forall|j: int| 0 <= j < i
                ==> slot_hash(#[trigger] a.slots@[j]) == slot_hash(b.slots@[j]),
        decreases 256 - i,
    {
        let same = match (a.get(i as u8), b.get(i as u8)) {
            (Some(x), Some(y)) => x.hash == y.hash,
            (None, None) => true,
            _ => false,
        };
        if !same {
            assert(slot_hash(a.slots@[i as int]) != slot_hash(b.slots@[i as int]));
            return false;
        }
        i = i + 1;
    }
    true
}

/// Whether `a` and `b` hold the same blocks at the same locators.
pub fn leaves_agree(a: &LeafNodes, b: &LeafNodes) -> (r: bool)
    ensures
        r == same_leaves(a.nodes@, b.nodes@),
{
    if a.len() != b.len() {
        return false;
    }
    let mut i: usize = 0;
    while i < a.len()
        invariant
            a.nodes@.len() == b.nodes@.len(),
            i <= a.nodes@.len(),
            forall|j: int|
                0 <= j < i ==> (#[trigger] a.nodes@[j]).locator == b.nodes@[j].locator
                    && a.nodes@[j].block_id == b.nodes@[j].block_id,
        decreases a.nodes@.len() - i,
    {
        let x = a.get_at(i);
        let y = b.get_at(i);
        if !(x.locator == y.locator && x.block_id == y.block_id) {
            assert(!(a.nodes@[i as int].locator == b.nodes@[i as int].locator
                && a.nodes@[i as int].block_id == b.nodes@[i as int].block_id));
            return false;
        }
        i = i + 1;
    }
    true
}

/// Whether a hash is that of a group without nodes.
pub fn hash_is_empty(h: &hash::Hash) -> (r: bool)
    ensures
        r == is_empty_hash(*h),
{
    *h == empty_inner_hash() || *h == empty_leaf_hash()
}

/// Whether the group `nodes` can be stored in `m`: its hash is not that of
/// an empty group, and if a group is stored under it already, then that
/// group holds the same hashes in the same buckets.
pub open spec fn can_save_inners(
    m: Map<hash::Hash, InnerNodes>,
    slots: Seq<Option<InnerNode>>,
) -> bool {
    let h = inners_hash(slots);
    !is_empty_hash(h) && (m.contains_key(h) ==> same_inners(m[h].slots@, slots))
}

/// Whether the group `nodes` can be stored in `m`.
pub open spec fn can_save_leaves(m: Map<hash::Hash, LeafNodes>, nodes: Seq<LeafNode>) -> bool {
    let h = leaves_hash(nodes);
    !is_empty_hash(h) && (m.contains_key(h) ==> same_leaves(m[h].nodes@, nodes))
}

/// Whether `new` is `old` with the group `slots` stored under its hash,
/// if no group was stored there, and if `slots` holds a node at all.
pub open spec fn inner_saved(
    old: Map<hash::Hash, InnerNodes>,
    new: Map<hash::Hash, InnerNodes>,
    slots: Seq<Option<InnerNode>>,
) -> bool {
    let h = inners_hash(slots);
    let holds = exists|b: int| 0 <= b < slots.len() && !(#[trigger] slots[b]).is_none();
    &&& new.dom() == (if holds {
        old.dom().insert(h)
    } else {
        old.dom()
    })
    &&& forall|k: hash::Hash| #[trigger] old.contains_key(k) ==> new[k] == old[k]
    &&& holds && !old.contains_key(h) ==> new[h].slots@ == slots
    &&& holds ==> same_inners(new[h].slots@, slots)
}

/// Whether `new` is `old` with the group of leaves `nodes` stored under
/// its hash, if no group was stored there, and if there are leaves at all.
pub open spec fn leaves_saved(
    old: Map<hash::Hash, LeafNodes>,
    new: Map<hash::Hash, LeafNodes>,
    nodes: Seq<LeafNode>,
) -> bool {
    let h = leaves_hash(nodes);
    &&& new.dom() == (if nodes.len() > 0 {
        old.dom().insert(h)
    } else {
        old.dom()
    })
    &&& forall|k: hash::Hash| #[trigger] old.contains_key(k) ==> new[k] == old[k]
    &&& nodes.len() > 0 && !old.contains_key(h) ==> new[h].nodes@ == nodes
    &&& nodes.len() > 0 ==> same_leaves(new[h].nodes@, nodes)
}

/// Stores `nodes` under its hash, unless a group is stored there already.
/// Fails, and changes nothing, if the hash is taken by a different group or
/// is that of an empty group.
pub fn save_inner_group(table: &mut Table<InnerNodes>, nodes: &InnerNodes) -> (r: Result<
    hash::Hash,
    Error,
>)
    requires
        old(table).wf(),
        inner_groups_wf(old(table)@),
        nodes.wf(),
        !nodes.spec_is_empty(),
    ensures
        final(table).wf(),
        inner_groups_wf(final(table)@),
        inner_extends(old(table)@, final(table)@),
        r.is_ok() <==> can_save_inners(old(table)@, nodes.slots@),
        r.is_err()
            ==> r == Err::<hash::Hash, Error>(Error::MalformedData) && *final(table) == *old(table),
        r.is_ok() ==> {
            let h = r.unwrap();
            &&& h == nodes.spec_hash()
            &&& final(table)@.contains_key(h)
            &&& same_inners(final(table)@[h].slots@, nodes.slots@)
            &&& forall|k: hash::Hash|
                k != h ==> (#[trigger] final(table)@.contains_key(k) == old(table)@.contains_key(k))
            &&& forall|k: hash::Hash| #[trigger]
                old(table)@.contains_key(k) ==> final(table)@[k] == old(table)@[k]
            &&& !old(table)@.contains_key(h) ==> final(table)@[h].slots@ == nodes.slots@
            &&& inner_saved(old(table)@, final(table)@, nodes.slots@)
        },
{
    let h = nodes.hash();
    if hash_is_empty(&h) {
        return Err(Error::MalformedData);
    }
    match table.get(&h) {
        Some(stored) => {
            assert(stored.wf());
            if inners_agree(stored, nodes) {
                proof {
                    assert(table@.dom() =~= table@.dom().insert(h));
                }
                Ok(h)
            } else {
                Err(Error::MalformedData)
            }
        },
        None => {
            let copy = nodes.duplicate();
            table.insert(h, copy);
            proof {
                assert(table@.dom() =~= old(table)@.dom().insert(h));
                assert(copy.slots@ == nodes.slots@);
                assert(copy.spec_hash() == h);
                assert(!copy.spec_is_empty()) by {
                    let b = choose|b: int|
                        0 <= b < nodes.slots@.len() && !(#[trigger] nodes.slots@[b]).is_none();
                    assert(!copy.slots@[b].is_none());
                }
            }
            Ok(h)
        },
    }
}

/// Stores `nodes` under its hash, unless a group is stored there already.
/// Fails, and changes nothing, if the hash is taken by a different group or
/// is that of an empty group.
pub fn save_leaf_group(table: &mut Table<LeafNodes>, nodes: &LeafNodes) -> (r: Result<
    hash::Hash,
    Error,
>)
    requires
        old(table).wf(),
        leaf_groups_wf(old(table)@),
        nodes.wf(),
        nodes.nodes@.len() > 0,
    ensures
        final(table).wf(),
        leaf_groups_wf(final(table)@),
        leaf_extends(old(table)@, final(table)@),
        r.is_ok() <==> can_save_leaves(old(table)@, nodes.nodes@),
        r.is_err()
            ==> r == Err::<hash::Hash, Error>(Error::MalformedData) && *final(table) == *old(table),
        r.is_ok() ==> {
            let h = r.unwrap();
            &&& h == nodes.spec_hash()
            &&& final(table)@.contains_key(h)
            &&& same_leaves(final(table)@[h].nodes@, nodes.nodes@)
            &&& forall|k: hash::Hash|
                k != h ==> (#[trigger] final(table)@.contains_key(k) == old(table)@.contains_key(k))
            &&& forall|k: hash::Hash| #[trigger]
                old(table)@.contains_key(k) ==> final(table)@[k] == old(table)@[k]
            &&& !old(table)@.contains_key(h) ==> final(table)@[h].nodes@ == nodes.nodes@
            &&& leaves_saved(old(table)@, final(table)@, nodes.nodes@)
        },
{
    let h = nodes.hash();
    if hash_is_empty(&h) {
        return Err(Error::MalformedData);
    }
    match table.get(&h) {
        Some(stored) => {
            if leaves_agree(stored, nodes) {
                proof {
                    assert(table@.dom() =~= table@.dom().insert(h));
                }
                Ok(h)
            } else {
                Err(Error::MalformedData)
            }
        },
        None => {
            let copy = nodes.duplicate();
            table.insert(h, copy);
            proof {
                assert(table@.dom() =~= old(table)@.dom().insert(h));
            }
            Ok(h)
        },
    }
}

impl Store {
    /// Whether every table of `self` has all that the same table of `old`
    /// has, and the snapshots and blocks are the same.
    pub open spec fn extends(&self, old: &Store) -> bool {
        &&& inner_extends(old.inners0@, self.inners0@)
        &&& inner_extends(old.inners1@, self.inners1@)
        &&& inner_extends(old.inners2@, self.inners2@)
        &&& leaf_extends(old.leaves@, self.leaves@)
        &&& self.roots == old.roots
        &&& self.next_snapshot_id == old.next_snapshot_id
        &&& self.blocks == old.blocks
    }

    /// Whether every table of nodes of `self` has all that the same table of `old` has.
    pub open spec fn tables_extend(&self, old: &Store) -> bool {
        &&& inner_extends(old.inners0@, self.inners0@)
        &&& inner_extends(old.inners1@, self.inners1@)
        &&& inner_extends(old.inners2@, self.inners2@)
        &&& leaf_extends(old.leaves@, self.leaves@)
        &&& self.blocks == old.blocks
    }

    /// A store stays well-formed when groups are added to its tables.
    pub proof fn lemma_extends_wf(&self, old: &Store)
        requires
            old.wf(),
            self.extends(old),
            self.inners0.wf(),
            self.inners1.wf(),
            self.inners2.wf(),
            self.leaves.wf(),
            inner_groups_wf(self.inners0@),
            inner_groups_wf(self.inners1@),
            inner_groups_wf(self.inners2@),
            leaf_groups_wf(self.leaves@),
        ensures
            self.wf(),
            forall|h: hash::Hash| old.spec_complete(h) ==> #[trigger] self.spec_complete(h),
    {
        assert forall|h: hash::Hash| old.spec_complete(h) implies #[trigger] self.spec_complete(
            h,
        ) by {
            lemma_complete0_extends(
                old.inners0@,
                old.inners1@,
                old.inners2@,
                old.leaves@,
                self.inners0@,
                self.inners1@,
                self.inners2@,
                self.leaves@,
                h,
            );
        }
        assert forall|i: int|
            0 <= i < self.roots@.len() && crate::store::model::is_settled(
                #[trigger] self.roots@[i],
            ) implies self.spec_complete(self.roots@[i].proof.hash) by {
            assert(old.spec_complete(old.roots@[i].proof.hash));
        }
    }
}

} // verus!
