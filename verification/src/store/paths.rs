//! Reading the path to a locator out of a store and writing one back.

use crate::crypto::hash;
use crate::error::Error;
use crate::index::path::{all_none, Path, PathView};
use crate::protocol::node::{
    lemma_leaves_at, same_inners, same_leaves, slot_hash, spec_get_bucket, InnerNode, InnerNodes,
    LeafNode, LeafNodes,
};
use crate::protocol::summary::Summary;
use crate::store::model::{
    complete0, complete1, complete2, inner_extends, is_empty_hash, leaf_complete, leaf_extends,
    lemma_complete1_extends, lemma_complete2_extends, slots_complete0, slots_complete1,
    slots_complete2,
};
use crate::store::nodes::{
    can_save_inners, can_save_leaves, inner_saved, leaves_saved, save_inner_group,
    save_leaf_group,
};
use crate::store::Store;
use vstd::prelude::*;

verus! {

/// Two ordered groups with the same blocks at the same locators hold a
/// leaf at the same locators, with the same block.
pub proof fn lemma_same_leaves_lookup(a: LeafNodes, b: LeafNodes, locator: hash::Hash)
    requires
        a.wf(),
        b.wf(),
        same_leaves(a.nodes@, b.nodes@),
    ensures
        a@.contains_key(locator) == b@.contains_key(locator),
        a@.contains_key(locator) ==> a@[locator].block_id == b@[locator].block_id,
{
    if a@.contains_key(locator) {
        let i = choose|i: int|
            0 <= i < a.nodes@.len() && (#[trigger] a.nodes@[i]).locator == locator;
        assert(b.nodes@[i].locator == locator);
        lemma_leaves_at(a.nodes@, i);
        lemma_leaves_at(b.nodes@, i);
    }
    if b@.contains_key(locator) {
        let i = choose|i: int|
            0 <= i < b.nodes@.len() && (#[trigger] b.nodes@[i]).locator == locator;
        assert(a.nodes@[i].locator == locator);
        lemma_leaves_at(a.nodes@, i);
        lemma_leaves_at(b.nodes@, i);
    }
}

/// The slots of the group stored under `h`, or slots without nodes if none is stored.
pub open spec fn slots_or_empty(m: Map<hash::Hash, InnerNodes>, h: Option<hash::Hash>) -> Seq<
    Option<InnerNode>,
> {
    if h.is_some() && m.contains_key(h.unwrap()) {
        m[h.unwrap()].slots@
    } else {
        Seq::new(256, |i: int| None::<InnerNode>)
    }
}

/// The leaves stored under `h`, or none.
pub open spec fn leaves_or_empty(m: Map<hash::Hash, LeafNodes>, h: Option<hash::Hash>) -> Seq<
    LeafNode,
> {
    if h.is_some() && m.contains_key(h.unwrap()) {
        m[h.unwrap()].nodes@
    } else {
        Seq::<LeafNode>::empty()
    }
}

impl Store {
    /// Whether the subtrees below the nodes of `path` that lie off its own
    /// way down are complete in this store.
    pub open spec fn path_sound(&self, path: &Path) -> bool {
        &&& forall|b: int|
            0 <= b < 256 && b != path.spec_bucket(0) && (#[trigger] path.inner0.slots@[b]).is_some()
                ==> complete1(
                self.inners1@,
                self.inners2@,
                self.leaves@,
                path.inner0.slots@[b].unwrap().hash,
            )
        &&& forall|b: int|
            0 <= b < 256 && b != path.spec_bucket(1) && (#[trigger] path.inner1.slots@[b]).is_some()
                ==> complete2(self.inners2@, self.leaves@, path.inner1.slots@[b].unwrap().hash)
        &&& forall|b: int|
            0 <= b < 256 && b != path.spec_bucket(2) && (#[trigger] path.inner2.slots@[b]).is_some()
                ==> leaf_complete(self.leaves@, path.inner2.slots@[b].unwrap().hash)
    }

    /// Whether the groups of `path` are those that this store holds on the
    /// way from the root of `path` to its locator.
    pub open spec fn path_loaded(&self, path: &Path) -> bool {
        &&& path.wf()
        &&& path.inner0.slots@ == slots_or_empty(self.inners0@, Some(path.root_hash))
        &&& path.inner1.slots@ == slots_or_empty(self.inners1@, slot_hash(path.node0()))
        &&& path.inner2.slots@ == slots_or_empty(self.inners2@, slot_hash(path.node1()))
        &&& path.leaves.nodes@ == leaves_or_empty(self.leaves@, slot_hash(path.node2()))
    }

    /// Loads the groups of nodes on the way from the root with hash
    /// `root_hash` to `locator`, as far as they are stored.
    pub fn load_path(&self, root_hash: hash::Hash, root_summary: Summary, locator: hash::Hash) -> (path:
        Path)
        requires
            self.wf(),
        ensures
            path.locator == locator,
            path.root_hash == root_hash,
            path.root_summary == root_summary,
            self.path_loaded(&path),
            path@ == self.spec_load_path(root_hash, root_summary, locator),
            path.spec_leaf() == self.spec_find_leaf(root_hash, locator),
            self.spec_find_leaf(root_hash, locator).is_some() ==> path.linked(),
            self.spec_complete(root_hash) ==> self.path_sound(&path),
    {
        let mut path = Path::new(root_hash, root_summary, locator);
        proof {
            assert(path.inner0.slots@ =~= Seq::new(256, |i: int| None::<InnerNode>));
            assert(path.inner1.slots@ =~= Seq::new(256, |i: int| None::<InnerNode>));
            assert(path.inner2.slots@ =~= Seq::new(256, |i: int| None::<InnerNode>));
            assert(path.leaves.nodes@ =~= Seq::<LeafNode>::empty());
            assert(!path.leaves@.contains_key(locator));
        }
        match self.inners0.get(&root_hash) {
            None => {
                return path;
            },
            Some(group) => {
                path.inner0 = group.duplicate();
            },
        }
        let n0 = match path.inner0.get(path.get_bucket(0)) {
            None => {
                return path;
            },
            Some(node) => node,
        };
        proof {
            if self.spec_complete(root_hash) {
                assert(path.inner0.slots@[path.spec_bucket(0)].is_some());
                assert(complete1(self.inners1@, self.inners2@, self.leaves@, n0.hash));
            }
        }
        match self.inners1.get(&n0.hash) {
            None => {
                return path;
            },
            Some(group) => {
                path.inner1 = group.duplicate();
            },
        }
        let n1 = match path.inner1.get(path.get_bucket(1)) {
            None => {
                return path;
            },
            Some(node) => node,
        };
        proof {
            if self.spec_complete(root_hash) {
                assert(path.inner1.slots@[path.spec_bucket(1)].is_some());
                assert(complete2(self.inners2@, self.leaves@, n1.hash));
            }
        }
        match self.inners2.get(&n1.hash) {
            None => {
                return path;
            },
            Some(group) => {
                path.inner2 = group.duplicate();
            },
        }
        let n2 = match path.inner2.get(path.get_bucket(2)) {
            None => {
                return path;
            },
            Some(node) => node,
        };
        match self.leaves.get(&n2.hash) {
            None => {
                return path;
            },
            Some(group) => {
                path.leaves = group.duplicate();
            },
        }
        proof {
            assert(path.leaves@ =~= self.leaves@[n2.hash]@);
        }
        path
    }

    /// Whether every group of the path `p` that holds a node can be stored.
    pub open spec fn can_save_path(&self, p: PathView) -> bool {
        &&& p.leaves.len() > 0 ==> can_save_leaves(self.leaves@, p.leaves)
        &&& !all_none(p.inner2) ==> can_save_inners(self.inners2@, p.inner2)
        &&& !all_none(p.inner1) ==> can_save_inners(self.inners1@, p.inner1)
        &&& !all_none(p.inner0) ==> can_save_inners(self.inners0@, p.inner0)
    }

    /// The path from the root with hash `root_hash` to `locator`, as far as it is stored.
    pub open spec fn spec_load_path(
        &self,
        root_hash: hash::Hash,
        root_summary: Summary,
        locator: hash::Hash,
    ) -> PathView {
        let inner0 = slots_or_empty(self.inners0@, Some(root_hash));
        let inner1 = slots_or_empty(
            self.inners1@,
            slot_hash(inner0[spec_get_bucket(locator, 0) as int]),
        );
        let inner2 = slots_or_empty(
            self.inners2@,
            slot_hash(inner1[spec_get_bucket(locator, 1) as int]),
        );
        let leaves = leaves_or_empty(
            self.leaves@,
            slot_hash(inner2[spec_get_bucket(locator, 2) as int]),
        );
        PathView { locator, root_hash, root_summary, inner0, inner1, inner2, leaves }
    }

    /// Whether the tables of nodes of `self` are those of `old` with every
    /// group of the path `p` that holds a node stored under its hash,
    /// where no group was stored under that hash.
    pub open spec fn saved_path(&self, old: &Store, p: PathView) -> bool {
        &&& leaves_saved(old.leaves@, self.leaves@, p.leaves)
        &&& inner_saved(old.inners2@, self.inners2@, p.inner2)
        &&& inner_saved(old.inners1@, self.inners1@, p.inner1)
        &&& inner_saved(old.inners0@, self.inners0@, p.inner0)
    }

    /// Stores the groups of `path` that hold a node, each under its hash,
    /// from the leaves up. Afterwards the snapshot with the root hash of
    /// the path is complete, and a descent from that root to the locator of
    /// the path ends where the path ends.
    pub fn save_path_groups(&mut self, path: &Path) -> (r: Result<(), Error>)
        requires
            old(self).wf(),
            path.wf(),
            path.linked(),
            old(self).path_sound(path),
        ensures
            final(self).wf(),
            final(self).extends(old(self)),
            r.is_ok() <==> old(self).can_save_path(path@),
            r.is_err() ==> r == Err::<(), Error>(Error::MalformedData),
            r.is_ok() ==> final(self).spec_complete(path.root_hash),
            r.is_ok() ==> final(self).saved_path(old(self), path@),
            r.is_ok() ==> (match final(self).spec_find_leaf(path.root_hash, path.locator) {
                Some(leaf) => path.spec_leaf().is_some() && leaf.block_id
                    == path.spec_leaf().unwrap().block_id,
                None => path.spec_leaf().is_none(),
            }),
    {
        let ghost start = *self;
        if !path.leaves.is_empty() {
            match save_leaf_group(&mut self.leaves, &path.leaves) {
                Err(e) => {
                    proof {
                        self.lemma_extends_wf(&start);
                    }
                    return Err(e);
                },
                Ok(_) => {},
            }
        }
        proof {
            self.lemma_extends_wf(&start);
            assert(self.path_sound_after(&start, path));
        }
        let ghost mid3 = *self;
        if !path.inner2.is_empty() {
            match save_inner_group(&mut self.inners2, &path.inner2) {
                Err(e) => {
                    proof {
                        self.lemma_extends_wf(&start);
                    }
                    return Err(e);
                },
                Ok(_) => {},
            }
        }
        proof {
            self.lemma_extends_wf(&start);
        }
        if !path.inner1.is_empty() {
            match save_inner_group(&mut self.inners1, &path.inner1) {
                Err(e) => {
                    proof {
                        self.lemma_extends_wf(&start);
                    }
                    return Err(e);
                },
                Ok(_) => {},
            }
        }
        proof {
            self.lemma_extends_wf(&start);
        }
        if !path.inner0.is_empty() {
            match save_inner_group(&mut self.inners0, &path.inner0) {
                Err(e) => {
                    proof {
                        self.lemma_extends_wf(&start);
                    }
                    return Err(e);
                },
                Ok(_) => {},
            }
        }
        proof {
            self.lemma_extends_wf(&start);
            self.lemma_saved_path(&start, path);
        }
        Ok(())
    }

    /// Whether the subtrees below the nodes of `path` off its own way down
    /// are still complete after groups were added to `old`.
    pub open spec fn path_sound_after(&self, old: &Store, path: &Path) -> bool {
        self.extends(old) && old.path_sound(path)
    }

    /// Whether this store holds every group of `path` that holds a node,
    /// with the same hashes in the same buckets.
    pub open spec fn holds_path(&self, path: &Path) -> bool {
        &&& path.leaves.nodes@.len() > 0 ==> {
            &&& self.leaves@.contains_key(path.leaves.spec_hash())
            &&& same_leaves(self.leaves@[path.leaves.spec_hash()].nodes@, path.leaves.nodes@)
        }
        &&& !path.inner2.spec_is_empty() ==> {
            &&& self.inners2@.contains_key(path.inner2.spec_hash())
            &&& same_inners(self.inners2@[path.inner2.spec_hash()].slots@, path.inner2.slots@)
        }
        &&& !path.inner1.spec_is_empty() ==> {
            &&& self.inners1@.contains_key(path.inner1.spec_hash())
            &&& same_inners(self.inners1@[path.inner1.spec_hash()].slots@, path.inner1.slots@)
        }
        &&& !path.inner0.spec_is_empty() ==> {
            &&& self.inners0@.contains_key(path.inner0.spec_hash())
            &&& same_inners(self.inners0@[path.inner0.spec_hash()].slots@, path.inner0.slots@)
        }
    }

    /// In a store that holds the groups of a linked path, and in which the
    /// subtrees off the path were complete before, the snapshot of the path
    /// is complete and a descent to the locator of the path ends where the
    /// path ends.
    pub proof fn lemma_saved_path(&self, old: &Store, path: &Path)
        requires
            self.wf(),
            old.wf(),
            self.extends(old),
            path.wf(),
            path.linked(),
            old.path_sound(path),
            self.holds_path(path),
        ensures
            self.spec_complete(path.root_hash),
            match self.spec_find_leaf(path.root_hash, path.locator) {
                Some(leaf) => path.spec_leaf().is_some() && leaf.block_id
                    == path.spec_leaf().unwrap().block_id,
                None => path.spec_leaf().is_none(),
            },
    {
        let i0 = self.inners0@;
        let i1 = self.inners1@;
        let i2 = self.inners2@;
        let lv = self.leaves@;
        let b0 = path.spec_bucket(0);
        let b1 = path.spec_bucket(1);
        let b2 = path.spec_bucket(2);
        // Leaves.
        if path.leaves.nodes@.len() == 0 {
            assert(!path.leaves@.contains_key(path.locator));
        } else {
            lemma_same_leaves_lookup(lv[path.leaves.spec_hash()], path.leaves, path.locator);
        }
        // Third inner layer.
        assert(slots_complete2(lv, path.inner2.slots@)) by {
            assert forall|b: int|
                0 <= b < 256 && (#[trigger] path.inner2.slots@[b]).is_some() implies leaf_complete(
                lv,
                path.inner2.slots@[b].unwrap().hash,
            ) by {
                let h = path.inner2.slots@[b].unwrap().hash;
                if b == b2 {
                    assert(h == path.leaves.spec_hash());
                } else {
                    assert(leaf_complete(old.leaves@, h));
                    if !is_empty_hash(h) {
                        assert(old.leaves@.contains_key(h));
                    }
                }
            }
        }
        if !path.inner2.spec_is_empty() {
            let h2 = path.inner2.spec_hash();
            let stored = i2[h2].slots@;
            assert forall|b: int| 0 <= b < 256 && (#[trigger] stored[b]).is_some()
                implies leaf_complete(
                lv,
                stored[b].unwrap().hash,
            ) by {
                assert(slot_hash(stored[b]) == slot_hash(path.inner2.slots@[b]));
                assert(path.inner2.slots@[b].is_some());
            }
            assert(complete2(i2, lv, h2));
        }
        // Second inner layer.
        assert(slots_complete1(i2, lv, path.inner1.slots@)) by {
            assert forall|b: int|
                0 <= b < 256 && (#[trigger] path.inner1.slots@[b]).is_some() implies complete2(
                i2,
                lv,
                path.inner1.slots@[b].unwrap().hash,
            ) by {
                let h = path.inner1.slots@[b].unwrap().hash;
                if b == b1 {
                    assert(h == path.inner2.spec_hash());
                } else {
                    lemma_complete2_extends(old.inners2@, old.leaves@, i2, lv, h);
                }
            }
        }
        if !path.inner1.spec_is_empty() {
            let h1 = path.inner1.spec_hash();
            let stored = i1[h1].slots@;
            assert forall|b: int| 0 <= b < 256 && (#[trigger] stored[b]).is_some()
                implies complete2(
                i2,
                lv,
                stored[b].unwrap().hash,
            ) by {
                assert(slot_hash(stored[b]) == slot_hash(path.inner1.slots@[b]));
                assert(path.inner1.slots@[b].is_some());
            }
            assert(complete1(i1, i2, lv, h1));
        }
        // First inner layer.
        assert(slots_complete0(i1, i2, lv, path.inner0.slots@)) by {
            assert forall|b: int|
                0 <= b < 256 && (#[trigger] path.inner0.slots@[b]).is_some() implies complete1(
                i1,
                i2,
                lv,
                path.inner0.slots@[b].unwrap().hash,
            ) by {
                let h = path.inner0.slots@[b].unwrap().hash;
                if b == b0 {
                    assert(h == path.inner1.spec_hash());
                } else {
                    lemma_complete1_extends(
                        old.inners1@,
                        old.inners2@,
                        old.leaves@,
                        i1,
                        i2,
                        lv,
                        h,
                    );
                }
            }
        }
        if !path.inner0.spec_is_empty() {
            let h0 = path.inner0.spec_hash();
            let stored = i0[h0].slots@;
            assert forall|b: int| 0 <= b < 256 && (#[trigger] stored[b]).is_some()
                implies complete1(
                i1,
                i2,
                lv,
                stored[b].unwrap().hash,
            ) by {
                assert(slot_hash(stored[b]) == slot_hash(path.inner0.slots@[b]));
                assert(path.inner0.slots@[b].is_some());
            }
            assert(complete0(i0, i1, i2, lv, h0));
            // The descent.
            assert(slot_hash(stored[b0]) == slot_hash(path.inner0.slots@[b0]));
            if path.node0().is_some() {
                let s1 = i1[path.inner1.spec_hash()].slots@;
                assert(slot_hash(s1[b1]) == slot_hash(path.inner1.slots@[b1]));
                if path.node1().is_some() {
                    let s2 = i2[path.inner2.spec_hash()].slots@;
                    assert(slot_hash(s2[b2]) == slot_hash(path.inner2.slots@[b2]));
                }
            }
        } else {
            crate::protocol::node::lemma_inners_bytes_none(path.inner0.slots@);
            assert(seq![0u8] + Seq::<u8>::empty() =~= seq![0u8]);
            assert(is_empty_hash(path.root_hash));
            assert(!i0.contains_key(path.root_hash));
        }
    }
}

} // verus!
