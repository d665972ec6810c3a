//! Reclaiming the nodes that no snapshot refers to any more.

use crate::collections::table::{index_of, lemma_index_of, lemma_map_after_remove, Table};
use crate::crypto::hash;
use crate::protocol::node::{InnerNodes, LeafNodes};
use crate::store::client::{node_exists, node_in, root_in};
use crate::store::model::{
    complete0, complete1, complete2, inner_groups_wf, is_empty_hash, is_settled, leaf_complete,
    leaf_groups_wf,
};
use crate::store::Store;
use vstd::prelude::*;

verus! {

/// Whether `new` holds exactly the groups of `old` whose key is the hash of a node of `parents`.
pub open spec fn kept_under(
    parents: Map<hash::Hash, InnerNodes>,
    old: Map<hash::Hash, InnerNodes>,
    new: Map<hash::Hash, InnerNodes>,
) -> bool {
    &&& forall|k: hash::Hash|
        #![trigger new.contains_key(k)]
        new.contains_key(k) <==> (old.contains_key(k) && node_in(parents, k))
    &&& forall|k: hash::Hash| #[trigger] new.contains_key(k) ==> new[k] == old[k]
}

/// Whether `new` holds exactly the groups of leaves of `old` whose key is
/// the hash of a node of `parents`.
pub open spec fn leaves_kept_under(
    parents: Map<hash::Hash, InnerNodes>,
    old: Map<hash::Hash, LeafNodes>,
    new: Map<hash::Hash, LeafNodes>,
) -> bool {
    &&& forall|k: hash::Hash|
        #![trigger new.contains_key(k)]
        new.contains_key(k) <==> (old.contains_key(k) && node_in(parents, k))
    &&& forall|k: hash::Hash| #[trigger] new.contains_key(k) ==> new[k] == old[k]
}

/// Takes the groups out of `table` whose key is not the hash of a node of `parents`.
fn retain_under(table: &mut Table<InnerNodes>, parents: &Table<InnerNodes>)
    requires
        old(table).wf(),
        inner_groups_wf(old(table)@),
        parents.wf(),
        inner_groups_wf(parents@),
    ensures
        final(table).wf(),
        inner_groups_wf(final(table)@),
        kept_under(parents@, old(table)@, final(table)@),
{
    let ghost start = table@;
    let mut i: usize = table.len();
    while i > 0
        invariant
            table.wf(),
            parents.wf(),
            inner_groups_wf(parents@),
            inner_groups_wf(start),
            i <= table.entries@.len(),
            forall|k: hash::Hash| #[trigger] table@.contains_key(k)
                ==> start.contains_key(k) && table@[k] == start[k],
            forall|k: hash::Hash|
                #![trigger table@.contains_key(k)]
                start.contains_key(k) && node_in(parents@, k) ==> table@.contains_key(k),
            forall|j: int|
                i <= j < table.entries@.len()
                    ==> node_in(parents@, (#[trigger] table.entries@[j]).key),
        decreases i,
    {
        i = i - 1;
        let key = table.key_at(i);
        let ghost before = table.entries@;
        let ghost before_map = table@;
        if !node_exists(parents, &key) {
            proof {
                lemma_map_after_remove(before, i as int);
            }
            table.entries.remove(i);
            proof {
                assert(table@ == before_map.remove(key));
                assert forall|j: int| i <= j < table.entries@.len() implies node_in(
                    parents@,
                    (#[trigger] table.entries@[j]).key,
                ) by {
                    assert(table.entries@[j] == before[j + 1]);
                }
            }
        }
    }
    proof {
        assert forall|k: hash::Hash|
            #![trigger table@.contains_key(k)]
            table@.contains_key(k) <==> (start.contains_key(k) && node_in(parents@, k)) by {
            if table@.contains_key(k) {
                let j = index_of(table.entries@, k);
                lemma_index_of(table.entries@, j);
            }
        }
    }
}

/// Takes the groups of leaves out of `table` whose key is not the hash of a node of `parents`.
fn retain_leaves_under(table: &mut Table<LeafNodes>, parents: &Table<InnerNodes>)
    requires
        old(table).wf(),
        leaf_groups_wf(old(table)@),
        parents.wf(),
        inner_groups_wf(parents@),
    ensures
        final(table).wf(),
        leaf_groups_wf(final(table)@),
        leaves_kept_under(parents@, old(table)@, final(table)@),
{
    let ghost start = table@;
    let mut i: usize = table.len();
    while i > 0
        invariant
            table.wf(),
            parents.wf(),
            inner_groups_wf(parents@),
            leaf_groups_wf(start),
            i <= table.entries@.len(),
            forall|k: hash::Hash| #[trigger] table@.contains_key(k)
                ==> start.contains_key(k) && table@[k] == start[k],
            forall|k: hash::Hash|
                #![trigger table@.contains_key(k)]
                start.contains_key(k) && node_in(parents@, k) ==> table@.contains_key(k),
            forall|j: int|
                i <= j < table.entries@.len()
                    ==> node_in(parents@, (#[trigger] table.entries@[j]).key),
        decreases i,
    {
        i = i - 1;
        let key = table.key_at(i);
        let ghost before = table.entries@;
        let ghost before_map = table@;
        if !node_exists(parents, &key) {
            proof {
                lemma_map_after_remove(before, i as int);
            }
            table.entries.remove(i);
            proof {
                assert(table@ == before_map.remove(key));
                assert forall|j: int| i <= j < table.entries@.len() implies node_in(
                    parents@,
                    (#[trigger] table.entries@[j]).key,
                ) by {
                    assert(table.entries@[j] == before[j + 1]);
                }
            }
        }
    }
    proof {
        assert forall|k: hash::Hash|
            #![trigger table@.contains_key(k)]
            table@.contains_key(k) <==> (start.contains_key(k) && node_in(parents@, k)) by {
            if table@.contains_key(k) {
                let j = index_of(table.entries@, k);
                lemma_index_of(table.entries@, j);
            }
        }
    }
}

impl Store {
    /// Whether the tables of nodes of `self` hold exactly the groups of
    /// `old` that a snapshot of `self` refers to: the groups of the first
    /// inner layer under the hash of a root node, and the groups below
    /// under the hash of a node of a group that is kept.
    pub open spec fn is_collected_from(&self, old: &Store) -> bool {
        &&& forall|k: hash::Hash|
            #![trigger self.inners0@.contains_key(k)]
            self.inners0@.contains_key(k) <==> (old.inners0@.contains_key(k) && root_in(
                self.roots@,
                k,
            ))
        &&& forall|k: hash::Hash| #[trigger]
            self.inners0@.contains_key(k) ==> self.inners0@[k] == old.inners0@[k]
        &&& kept_under(self.inners0@, old.inners1@, self.inners1@)
        &&& kept_under(self.inners1@, old.inners2@, self.inners2@)
        &&& leaves_kept_under(self.inners2@, old.leaves@, self.leaves@)
    }

    /// Whether `self` is `old` without the groups of nodes that no
    /// snapshot of `self` refers to: the blocks are the same, and what the
    /// snapshots of `self` hold at each locator is what they held in `old`.
    pub open spec fn reclaimed_from(&self, old: &Store) -> bool {
        &&& self.is_collected_from(old)
        &&& self.blocks == old.blocks
        &&& forall|i: int, locator: hash::Hash|
            0 <= i < self.roots@.len() ==> #[trigger] self.spec_find_leaf(
                self.roots@[i].proof.hash,
                locator,
            ) == old.spec_find_leaf(self.roots@[i].proof.hash, locator)
    }

    /// Whether the tables of nodes of `self` are those of `old` after the
    /// groups of the path `p` were stored, each under its hash, and the
    /// groups that no snapshot of `self` refers to were removed.
    pub open spec fn written_path(&self, old: &Store, p: crate::index::path::PathView) -> bool {
        exists|saved: Store|
            #![trigger saved.saved_path(old, p)]
            saved.wf() && saved.saved_path(old, p) && saved.blocks == old.blocks
                && self.reclaimed_from(&saved)
    }

    /// Reclaiming from a store with the tables of `old` is reclaiming from `old`.
    pub proof fn lemma_reclaimed_from(&self, mid: &Store, old: &Store)
        requires
            self.reclaimed_from(mid),
            mid.inners0 == old.inners0,
            mid.inners1 == old.inners1,
            mid.inners2 == old.inners2,
            mid.leaves == old.leaves,
            mid.blocks == old.blocks,
        ensures
            self.reclaimed_from(old),
    {
        assert forall|i: int, locator: hash::Hash| 0 <= i < self.roots@.len()
            implies #[trigger] self.spec_find_leaf(self.roots@[i].proof.hash, locator)
            == old.spec_find_leaf(self.roots@[i].proof.hash, locator) by {
            assert(mid.spec_find_leaf(self.roots@[i].proof.hash, locator) == old.spec_find_leaf(
                self.roots@[i].proof.hash,
                locator,
            ));
        }
    }

    /// Where every snapshot that is left is empty, no group of nodes is left.
    pub proof fn law_nothing_left(&self, old: &Store)
        requires
            old.wf(),
            self.is_collected_from(old),
            forall|i: int|
                0 <= i < self.roots@.len() ==> is_empty_hash((#[trigger] self.roots@[i]).proof.hash),
        ensures
            self.inners0@ == Map::<hash::Hash, InnerNodes>::empty(),
            self.inners1@ == Map::<hash::Hash, InnerNodes>::empty(),
            self.inners2@ == Map::<hash::Hash, InnerNodes>::empty(),
            self.leaves@ == Map::<hash::Hash, LeafNodes>::empty(),
    {
        assert forall|k: hash::Hash| !self.inners0@.contains_key(k) by {
            if self.inners0@.contains_key(k) {
                assert(root_in(self.roots@, k));
                assert(old.inners0@.contains_key(k));
                assert(!is_empty_hash(k));
            }
        }
        assert forall|k: hash::Hash| !self.inners1@.contains_key(k) by {
            if self.inners1@.contains_key(k) {
                assert(node_in(self.inners0@, k));
            }
        }
        assert forall|k: hash::Hash| !self.inners2@.contains_key(k) by {
            if self.inners2@.contains_key(k) {
                assert(node_in(self.inners1@, k));
            }
        }
        assert forall|k: hash::Hash| !self.leaves@.contains_key(k) by {
            if self.leaves@.contains_key(k) {
                assert(node_in(self.inners2@, k));
            }
        }
        assert(self.inners0@ =~= Map::<hash::Hash, InnerNodes>::empty());
        assert(self.inners1@ =~= Map::<hash::Hash, InnerNodes>::empty());
        assert(self.inners2@ =~= Map::<hash::Hash, InnerNodes>::empty());
        assert(self.leaves@ =~= Map::<hash::Hash, LeafNodes>::empty());
    }

    /// Takes the groups of the first inner layer out whose key is not the hash of a root node.
    fn retain_roots(&mut self)
        requires
            old(self).inners0.wf(),
            inner_groups_wf(old(self).inners0@),
        ensures
            final(self).inners0.wf(),
            inner_groups_wf(final(self).inners0@),
            final(self).roots == old(self).roots,
            final(self).next_snapshot_id == old(self).next_snapshot_id,
            final(self).inners1 == old(self).inners1,
            final(self).inners2 == old(self).inners2,
            final(self).leaves == old(self).leaves,
            final(self).blocks == old(self).blocks,
            final(self).unreachable_blocks == old(self).unreachable_blocks,
            forall|k: hash::Hash|
                #![trigger final(self).inners0@.contains_key(k)]
                final(self).inners0@.contains_key(k) <==> (old(self).inners0@.contains_key(k)
                    && root_in(old(self).roots@, k)),
            forall|k: hash::Hash| #[trigger]
                final(self).inners0@.contains_key(k)
                    ==> final(self).inners0@[k] == old(self).inners0@[k],
    {
        let ghost start = self.inners0@;
        let mut i: usize = self.inners0.len();
        while i > 0
            invariant
                self.inners0.wf(),
                inner_groups_wf(start),
                self.roots == old(self).roots,
                self.next_snapshot_id == old(self).next_snapshot_id,
                self.inners1 == old(self).inners1,
                self.inners2 == old(self).inners2,
                self.leaves == old(self).leaves,
                self.blocks == old(self).blocks,
                self.unreachable_blocks == old(self).unreachable_blocks,
                i <= self.inners0.entries@.len(),
                forall|k: hash::Hash| #[trigger]
                    self.inners0@.contains_key(k) ==> start.contains_key(k) && self.inners0@[k]
                        == start[k],
                forall|k: hash::Hash|
                    #![trigger self.inners0@.contains_key(k)]
                    start.contains_key(k) && root_in(self.roots@, k) ==> self.inners0@.contains_key(
                        k,
                    ),
                forall|j: int|
                    i <= j < self.inners0.entries@.len() ==> root_in(
                        self.roots@,
                        (#[trigger] self.inners0.entries@[j]).key,
                    ),
            decreases i,
        {
            i = i - 1;
            let key = self.inners0.key_at(i);
            let ghost before = self.inners0.entries@;
            let ghost before_map = self.inners0@;
            if !self.root_exists(&key) {
                proof {
                    lemma_map_after_remove(before, i as int);
                }
                self.inners0.entries.remove(i);
                proof {
                    assert(self.inners0@ == before_map.remove(key));
                    assert forall|j: int| i <= j < self.inners0.entries@.len() implies root_in(
                        self.roots@,
                        (#[trigger] self.inners0.entries@[j]).key,
                    ) by {
                        assert(self.inners0.entries@[j] == before[j + 1]);
                    }
                }
            }
        }
        proof {
            assert forall|k: hash::Hash|
                #![trigger self.inners0@.contains_key(k)]
                self.inners0@.contains_key(k) <==> (start.contains_key(k) && root_in(
                    self.roots@,
                    k,
                )) by {
                if self.inners0@.contains_key(k) {
                    let j = index_of(self.inners0.entries@, k);
                    lemma_index_of(self.inners0.entries@, j);
                }
            }
        }
    }

    /// Removes the nodes that no snapshot refers to: the groups that
    /// cannot be reached from a root node by the hashes of the nodes on
    /// the way. What a snapshot refers to stays as it is.
    pub fn remove_unreachable_nodes(&mut self)
        requires
            old(self).wf(),
        ensures
            final(self).wf(),
            final(self).blocks_accounted(),
            final(self).is_collected_from(old(self)),
            final(self).reclaimed_from(old(self)),
            final(self).roots == old(self).roots,
            final(self).next_snapshot_id == old(self).next_snapshot_id,
            final(self).blocks == old(self).blocks,
            forall|i: int, locator: hash::Hash|
                0 <= i < old(self).roots@.len() ==> #[trigger] final(self).spec_find_leaf(
                    old(self).roots@[i].proof.hash,
                    locator,
                ) == old(self).spec_find_leaf(old(self).roots@[i].proof.hash, locator),
    {
        let ghost start = *self;
        self.retain_roots();
        retain_under(&mut self.inners1, &self.inners0);
        retain_under(&mut self.inners2, &self.inners1);
        retain_leaves_under(&mut self.leaves, &self.inners2);
        proof {
            assert forall|i: int|
                0 <= i < self.roots@.len() && is_settled(
                    #[trigger] self.roots@[i],
                ) implies self.spec_complete(self.roots@[i].proof.hash) by {
                assert(start.spec_complete(start.roots@[i].proof.hash));
                self.lemma_collected_complete(&start, i);
            }
            assert forall|i: int, locator: hash::Hash| 0 <= i < start.roots@.len()
                implies #[trigger] self.spec_find_leaf(
                start.roots@[i].proof.hash,
                locator,
            ) == start.spec_find_leaf(start.roots@[i].proof.hash, locator) by {
                assert(root_in(self.roots@, start.roots@[i].proof.hash));
                self.lemma_collected_find(&start, start.roots@[i].proof.hash, locator);
            }
        }
        let ghost mid = *self;
        self.mark_unreachable_blocks();
        proof {
            assert forall|i: int, locator: hash::Hash| 0 <= i < start.roots@.len()
                implies #[trigger] self.spec_find_leaf(
                start.roots@[i].proof.hash,
                locator,
            ) == start.spec_find_leaf(start.roots@[i].proof.hash, locator) by {
                assert(self.spec_find_leaf(start.roots@[i].proof.hash, locator)
                    == mid.spec_find_leaf(start.roots@[i].proof.hash, locator));
            }
        }
    }

    /// A complete snapshot is still complete after the nodes that no
    /// snapshot refers to were removed.
    proof fn lemma_collected_complete(&self, old: &Store, i: int)
        requires
            old.wf(),
            self.roots == old.roots,
            self.is_collected_from(old),
            0 <= i < old.roots@.len(),
            old.spec_complete(old.roots@[i].proof.hash),
        ensures
            self.spec_complete(old.roots@[i].proof.hash),
    {
        let root = old.roots@[i].proof.hash;
        if !is_empty_hash(root) {
            assert(root_in(self.roots@, root));
            assert(self.inners0@.contains_key(root));
            let s0 = self.inners0@[root].slots@;
            assert(old.inners0@[root].wf());
            assert forall|b0: int| 0 <= b0 < s0.len() && (#[trigger] s0[b0]).is_some()
                implies complete1(
                self.inners1@,
                self.inners2@,
                self.leaves@,
                s0[b0].unwrap().hash,
            ) by {
                let h1 = s0[b0].unwrap().hash;
                assert(complete1(old.inners1@, old.inners2@, old.leaves@, h1));
                if !is_empty_hash(h1) {
                    assert(self.inners0@[root].slots@[b0].is_some());
                    assert(node_in(self.inners0@, h1));
                    assert(self.inners1@.contains_key(h1));
                    let s1 = self.inners1@[h1].slots@;
                    assert(old.inners1@[h1].wf());
                    assert forall|b1: int|
                        0 <= b1 < s1.len() && (#[trigger] s1[b1]).is_some() implies complete2(
                        self.inners2@,
                        self.leaves@,
                        s1[b1].unwrap().hash,
                    ) by {
                        let h2 = s1[b1].unwrap().hash;
                        assert(complete2(old.inners2@, old.leaves@, h2));
                        if !is_empty_hash(h2) {
                            assert(self.inners1@[h1].slots@[b1].is_some());
                            assert(node_in(self.inners1@, h2));
                            assert(self.inners2@.contains_key(h2));
                            let s2 = self.inners2@[h2].slots@;
                            assert(old.inners2@[h2].wf());
                            assert forall|b2: int|
                                0 <= b2 < s2.len() && (
                                #[trigger] s2[b2]).is_some() implies leaf_complete(
                                self.leaves@,
                                s2[b2].unwrap().hash,
                            ) by {
                                let hl = s2[b2].unwrap().hash;
                                assert(leaf_complete(old.leaves@, hl));
                                if !is_empty_hash(hl) {
                                    assert(self.inners2@[h2].slots@[b2].is_some());
                                    assert(node_in(self.inners2@, hl));
                                }
                            }
                        }
                    }
                }
            }
        }
    }

    /// What a snapshot that is kept holds at a locator is the same after
    /// the nodes that no snapshot refers to were removed.
    pub proof fn lemma_collected_find(&self, old: &Store, root: hash::Hash, locator: hash::Hash)
        requires
            old.wf(),
            self.is_collected_from(old),
            root_in(self.roots@, root),
        ensures
            self.spec_find_leaf(root, locator) == old.spec_find_leaf(root, locator),
    {
        let b0 = crate::protocol::node::spec_get_bucket(locator, 0) as int;
        if old.inners0@.contains_key(root) {
            assert(self.inners0@.contains_key(root));
            assert(self.inners0@[root] == old.inners0@[root]);
            assert(old.inners0@[root].wf());
            match old.inners0@[root].slots@[b0] {
                Some(n0) => {
                    assert(self.inners0@[root].slots@[b0].is_some());
                    assert(node_in(self.inners0@, n0.hash));
                    lemma_kept_find1(
                        old.inners1@,
                        old.inners2@,
                        old.leaves@,
                        self.inners0@,
                        self.inners1@,
                        self.inners2@,
                        self.leaves@,
                        n0.hash,
                        locator,
                    );
                },
                None => {},
            }
        } else {
            assert(!self.inners0@.contains_key(root));
        }
    }
}

/// A descent from a node that is kept finds in the kept groups of leaves
/// what it found before.
proof fn lemma_kept_leaves(
    old_leaves: Map<hash::Hash, LeafNodes>,
    parents: Map<hash::Hash, InnerNodes>,
    leaves: Map<hash::Hash, LeafNodes>,
    h: hash::Hash,
    locator: hash::Hash,
)
    requires
        leaves_kept_under(parents, old_leaves, leaves),
        node_in(parents, h),
    ensures
        crate::store::model::find_in_leaves(leaves, h, locator)
            == crate::store::model::find_in_leaves(old_leaves, h, locator),
{
    if old_leaves.contains_key(h) {
        assert(leaves.contains_key(h));
        assert(leaves[h] == old_leaves[h]);
    } else {
        assert(!leaves.contains_key(h));
    }
}

/// A descent from a node of the second inner layer that is kept finds
/// in the kept groups what it found before.
proof fn lemma_kept_find2(
    old2: Map<hash::Hash, InnerNodes>,
    old_leaves: Map<hash::Hash, LeafNodes>,
    new1: Map<hash::Hash, InnerNodes>,
    new2: Map<hash::Hash, InnerNodes>,
    leaves: Map<hash::Hash, LeafNodes>,
    h: hash::Hash,
    locator: hash::Hash,
)
    requires
        inner_groups_wf(old2),
        kept_under(new1, old2, new2),
        leaves_kept_under(new2, old_leaves, leaves),
        node_in(new1, h),
    ensures
        crate::store::model::find_from2(new2, leaves, h, locator)
            == crate::store::model::find_from2(old2, old_leaves, h, locator),
{
    let b2 = crate::protocol::node::spec_get_bucket(locator, 2) as int;
    if old2.contains_key(h) {
        assert(new2.contains_key(h));
        assert(new2[h] == old2[h]);
        assert(old2[h].wf());
        match old2[h].slots@[b2] {
            Some(n2) => {
                assert(new2[h].slots@[b2].is_some());
                assert(node_in(new2, n2.hash));
                lemma_kept_leaves(old_leaves, new2, leaves, n2.hash, locator);
            },
            None => {},
        }
    } else {
        assert(!new2.contains_key(h));
    }
}

/// A descent from a node of the first inner layer that is kept finds in
/// the kept groups what it found before.
proof fn lemma_kept_find1(
    old1: Map<hash::Hash, InnerNodes>,
    old2: Map<hash::Hash, InnerNodes>,
    old_leaves: Map<hash::Hash, LeafNodes>,
    new0: Map<hash::Hash, InnerNodes>,
    new1: Map<hash::Hash, InnerNodes>,
    new2: Map<hash::Hash, InnerNodes>,
    leaves: Map<hash::Hash, LeafNodes>,
    h: hash::Hash,
    locator: hash::Hash,
)
    requires
        inner_groups_wf(old1),
        inner_groups_wf(old2),
        kept_under(new0, old1, new1),
        kept_under(new1, old2, new2),
        leaves_kept_under(new2, old_leaves, leaves),
        node_in(new0, h),
    ensures
        crate::store::model::find_from1(new1, new2, leaves, h, locator)
            == crate::store::model::find_from1(old1, old2, old_leaves, h, locator),
{
    let b1 = crate::protocol::node::spec_get_bucket(locator, 1) as int;
    if old1.contains_key(h) {
        assert(new1.contains_key(h));
        assert(new1[h] == old1[h]);
        assert(old1[h].wf());
        match old1[h].slots@[b1] {
            Some(n1) => {
                assert(new1[h].slots@[b1].is_some());
                assert(node_in(new1, n1.hash));
                lemma_kept_find2(old2, old_leaves, new1, new2, leaves, n1.hash, locator);
            },
            None => {},
        }
    } else {
        assert(!new1.contains_key(h));
    }
}

} // verus!
