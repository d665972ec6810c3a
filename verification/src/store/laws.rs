//! What holds of every store, and of what its operations do one after the other.

use crate::crypto::hash;
use crate::crypto::sign::PublicKey;
use crate::error::Error;
use crate::index::branch_data::{path_leaf, SnapshotData};
use crate::index::path::{all_none, PathView};
use crate::protocol::block::BlockId;
use crate::protocol::node::{
    inners_hash, leaves_at, leaves_contain, leaves_hash, leaves_sorted, spec_empty_inner_hash,
    spec_get_bucket, InnerNode, InnerNodes, LeafNode, LeafNodes,
};
use crate::protocol::root_node::RootNode;
use crate::protocol::signed::Proof;
use crate::protocol::summary::{has_incomplete, MultiBlockPresence, NodeState, Summary};
use crate::store::client::root_action;
use crate::store::model::{complete1, complete2, is_empty_hash, leaf_complete};
use crate::store::receive::decided_summary;
use crate::store::summaries::{
    consistent_with_inners, consistent_with_leaves, summary_of_inners, summary_of_leaves,
};
use crate::store::Store;
use vstd::prelude::*;

verus! {

/// Every stored group of inner nodes is stored under the hash of its
/// nodes: a node that stands for the group holds the hash of its children.
pub proof fn law_inner_nodes_hash(store: &Store, layer: int, parent: hash::Hash)
    requires
        store.wf(),
        0 <= layer < 3,
        (if layer == 0 {
            store.inners0@
        } else if layer == 1 {
            store.inners1@
        } else {
            store.inners2@
        }).contains_key(parent),
    ensures
        parent == inners_hash(
            (if layer == 0 {
                store.inners0@
            } else if layer == 1 {
                store.inners1@
            } else {
                store.inners2@
            })[parent].slots@,
        ),
{
}

/// Every stored group of leaf nodes is stored under the hash of its nodes.
pub proof fn law_leaf_nodes_hash(store: &Store, parent: hash::Hash)
    requires
        store.wf(),
        store.leaves@.contains_key(parent),
    ensures
        parent == leaves_hash(store.leaves@[parent].nodes@),
{
}

/// The id of every stored block is the hash of its content.
pub proof fn law_block_id(store: &Store, id: BlockId)
    requires
        store.wf(),
        store.blocks@.contains_key(id.hash),
    ensures
        store.blocks@[id.hash].id == id,
        id == BlockId::spec_from_content(store.blocks@[id.hash].content@),
{
}

/// Where every node of the last inner layer carries the summary of the
/// leaves below it, a complete subtree of that layer has a summary that
/// is not incomplete.
pub proof fn lemma_complete2_summary(
    leaves: Map<hash::Hash, LeafNodes>,
    n2: Map<hash::Hash, InnerNodes>,
    h: hash::Hash,
)
    requires
        consistent_with_leaves(leaves, n2),
        complete2(n2, leaves, h),
    ensures
        summary_of_inners(n2, h).state == NodeState::Complete,
{
    if !is_empty_hash(h) {
        let slots = n2[h].slots@;
        if has_incomplete(slots) {
            let b = choose|b: int|
                0 <= b < slots.len() && (#[trigger] slots[b]).is_some()
                    && !slots[b].unwrap().spec_is_empty() && slots[b].unwrap().summary.state
                    == NodeState::Incomplete;
            assert(leaf_complete(leaves, slots[b].unwrap().hash));
            assert(n2[h].slots@[b].is_some());
        }
    }
}

pub proof fn lemma_complete1_summary(
    leaves: Map<hash::Hash, LeafNodes>,
    n2: Map<hash::Hash, InnerNodes>,
    n1: Map<hash::Hash, InnerNodes>,
    h: hash::Hash,
)
    requires
        consistent_with_leaves(leaves, n2),
        consistent_with_inners(n2, n1),
        complete1(n1, n2, leaves, h),
    ensures
        summary_of_inners(n1, h).state == NodeState::Complete,
{
    if !is_empty_hash(h) {
        let slots = n1[h].slots@;
        if has_incomplete(slots) {
            let b = choose|b: int|
                0 <= b < slots.len() && (#[trigger] slots[b]).is_some()
                    && !slots[b].unwrap().spec_is_empty() && slots[b].unwrap().summary.state
                    == NodeState::Incomplete;
            assert(complete2(n2, leaves, slots[b].unwrap().hash));
            lemma_complete2_summary(leaves, n2, slots[b].unwrap().hash);
            assert(n1[h].slots@[b].is_some());
        }
    }
}

/// The snapshot of every root node that is approved is complete: a walk
/// from the root by any buckets `b0`, `b1` and `b2` finds every group of
/// nodes on its way stored, down to the leaves. Where the summaries are
/// up to date, as they are after `finalize`, none of the nodes on the way
/// is marked as incomplete.
pub proof fn law_approved_is_complete(store: &Store, i: int, b0: int, b1: int, b2: int)
    requires
        store.wf(),
        0 <= i < store.roots@.len(),
        store.roots@[i].summary.state == NodeState::Approved,
        0 <= b0 < 256,
        0 <= b1 < 256,
        0 <= b2 < 256,
    ensures
        ({
            let root = store.roots@[i].proof.hash;
            &&& store.spec_complete(root)
            &&& !is_empty_hash(root) ==> store.inners0@.contains_key(root)
            &&& !is_empty_hash(root) && store.inners0@[root].slots@[b0].is_some() ==> {
                let n0 = store.inners0@[root].slots@[b0].unwrap();
                &&& !is_empty_hash(n0.hash) ==> store.inners1@.contains_key(n0.hash)
                &&& store.summaries_consistent() ==> n0.summary.state == NodeState::Complete
                &&& !is_empty_hash(n0.hash) && store.inners1@[n0.hash].slots@[b1].is_some() ==> {
                    let n1 = store.inners1@[n0.hash].slots@[b1].unwrap();
                    &&& !is_empty_hash(n1.hash) ==> store.inners2@.contains_key(n1.hash)
                    &&& store.summaries_consistent() ==> n1.summary.state == NodeState::Complete
                    &&& !is_empty_hash(n1.hash) && store.inners2@[n1.hash].slots@[b2].is_some()
                        ==> {
                        let n2 = store.inners2@[n1.hash].slots@[b2].unwrap();
                        &&& !is_empty_hash(n2.hash) ==> store.leaves@.contains_key(n2.hash)
                        &&& store.summaries_consistent() ==> n2.summary.state
                            == NodeState::Complete
                    }
                }
            }
        }),
{
    let root = store.roots@[i].proof.hash;
    let i0 = store.inners0@;
    let i1 = store.inners1@;
    let i2 = store.inners2@;
    let lv = store.leaves@;
    assert(crate::store::model::is_settled(store.roots@[i]));
    assert(store.spec_complete(root));
    if !is_empty_hash(root) && i0[root].slots@[b0].is_some() {
        assert(i0[root].wf());
        let n0 = i0[root].slots@[b0].unwrap();
        assert(complete1(i1, i2, lv, n0.hash));
        if store.summaries_consistent() {
            lemma_complete1_summary(lv, i2, i1, n0.hash);
            assert(n0.summary == summary_of_inners(i1, n0.hash));
        }
        if !is_empty_hash(n0.hash) && i1[n0.hash].slots@[b1].is_some() {
            assert(i1[n0.hash].wf());
            let n1 = i1[n0.hash].slots@[b1].unwrap();
            assert(complete2(i2, lv, n1.hash));
            if store.summaries_consistent() {
                lemma_complete2_summary(lv, i2, n1.hash);
                assert(n1.summary == summary_of_inners(i2, n1.hash));
            }
            if !is_empty_hash(n1.hash) && i2[n1.hash].slots@[b2].is_some() {
                assert(i2[n1.hash].wf());
                let n2 = i2[n1.hash].slots@[b2].unwrap();
                assert(leaf_complete(lv, n2.hash));
                if store.summaries_consistent() {
                    assert(n2.summary == summary_of_leaves(lv, n2.hash));
                }
            }
        }
    }
}

/// Where the list of unreachable blocks is exact, as every operation that
/// changes the store leaves it, each stored block is referred to by a
/// leaf of an approved snapshot or listed as unreachable, and never both.
pub proof fn law_block_referenced_or_listed(store: &Store, id: BlockId)
    requires
        store.blocks_accounted(),
        store.blocks@.contains_key(id.hash),
    ensures
        store.spec_is_referenced(id) != store.spec_is_listed(id),
{
}

/// The leaf of the path that is loaded for a locator is the leaf that a
/// descent to the locator ends at.
pub proof fn lemma_loaded_leaf(
    store: &Store,
    root: hash::Hash,
    summary: Summary,
    locator: hash::Hash,
)
    requires
        store.wf(),
    ensures
        path_leaf(store.spec_load_path(root, summary, locator)) == store.spec_find_leaf(
            root,
            locator,
        ),
{
    let p = store.spec_load_path(root, summary, locator);
    let b0 = spec_get_bucket(locator, 0) as int;
    let b1 = spec_get_bucket(locator, 1) as int;
    let b2 = spec_get_bucket(locator, 2) as int;
    let none = Seq::new(256, |i: int| None::<InnerNode>);
    assert(none[b0].is_none() && none[b1].is_none() && none[b2].is_none());
    if store.inners0@.contains_key(root) {
        assert(store.inners0@[root].wf());
        match store.inners0@[root].slots@[b0] {
            Some(n0) => {
                if store.inners1@.contains_key(n0.hash) {
                    assert(store.inners1@[n0.hash].wf());
                    match store.inners1@[n0.hash].slots@[b1] {
                        Some(n1) => {
                            if store.inners2@.contains_key(n1.hash) {
                                assert(store.inners2@[n1.hash].wf());
                            }
                        },
                        None => {},
                    }
                }
            },
            None => {},
        }
    }
}

/// After a block was inserted at a locator, it is found there in the
/// branch: the new snapshot is the latest approved one of its writer, and
/// the descent from its root to the locator ends at the block.
pub proof fn law_insert_then_find(
    store: &Store,
    snapshot: &SnapshotData,
    before: &RootNode,
    old_store: &Store,
    root: hash::Hash,
    summary: Summary,
    locator: hash::Hash,
    block_id: BlockId,
)
    requires
        store.wf(),
        snapshot.succeeds(store, before, old_store, root, summary),
        summary.state == NodeState::Approved,
        store.spec_find_leaf(root, locator).is_some(),
        store.spec_find_leaf(root, locator).unwrap().block_id == block_id,
    ensures
        store.spec_latest_approved(before.proof.writer_id) == store.roots@.len() - 1,
        store.roots@[store.spec_latest_approved(before.proof.writer_id)].proof.hash == root,
        store.spec_find_leaf(
            store.roots@[store.spec_latest_approved(before.proof.writer_id)].proof.hash,
            locator,
        ).unwrap().block_id == block_id,
{
    let last = store.roots@.len() - 1;
    assert(store.is_approved_of(last, before.proof.writer_id));
}

/// After the block at a locator was removed, nothing is found there, and
/// removing it again changes nothing: it fails with `EntryNotFound`.
pub proof fn law_remove_twice(store: &Store, root: &RootNode, locator: hash::Hash, expected: Option<
    BlockId,
>)
    requires
        store.wf(),
        store.spec_complete(root.proof.hash),
        store.spec_find_leaf(root.proof.hash, locator).is_none(),
    ensures
        SnapshotData::spec_remove_result(store, root, locator, expected) == Err::<bool, Error>(
            Error::EntryNotFound,
        ),
{
    lemma_loaded_leaf(store, root.proof.hash, root.summary, locator);
}

/// A proof that is stored is not stored again: where a snapshot with the
/// writer and the version vector of `proof` is stored, `proof` is not
/// inserted, so that the number of stored root nodes does not grow.
pub proof fn law_receive_twice(
    roots: Seq<RootNode>,
    proof: &Proof,
    presence: MultiBlockPresence,
    i: int,
)
    requires
        0 <= i < roots.len(),
        roots[i].proof.writer_id == proof.writer_id,
        roots[i].proof.version_vector.versions@ == proof.version_vector.versions@,
        proof.wf(),
    ensures
        !root_action(roots, proof, presence).insert,
{
    let stored = roots[i].proof.version_vector;
    if stored.spec_lt(&proof.version_vector) {
        assert forall|w: PublicKey| #[trigger] proof.version_vector.spec_get(w) <= stored.spec_get(
            w,
        ) by {}
        assert(false);
    }
    assert(!crate::store::client::allows_insert(roots[i], proof));
}

/// A snapshot without leaves is approved as soon as its root node was
/// received, whatever the quota is.
pub proof fn law_empty_snapshot_approves(
    store: &Store,
    roots: Seq<RootNode>,
    i: int,
    quota: Option<u64>,
)
    requires
        store.wf(),
        0 <= i < roots.len(),
        roots[i].proof.hash == spec_empty_inner_hash(),
        roots[i].summary.state == NodeState::Incomplete,
    ensures
        decided_summary(
            store.spec_refreshed_summary(roots, i),
            store.spec_fits(roots, i, quota),
        ).state == NodeState::Approved,
{
    assert(is_empty_hash(roots[i].proof.hash));
    assert(!store.inners0@.contains_key(roots[i].proof.hash));
    assert(store.spec_leaf_count(roots[i].proof.hash) == 0);
    assert(store.spec_snapshot_size(roots[i].proof.hash) == 0);
}

/// The block that a leaf refers to, if there is a leaf.
pub open spec fn block_of(leaf: Option<LeafNode>) -> Option<BlockId> {
    match leaf {
        Some(leaf) => Some(leaf.block_id),
        None => None,
    }
}

/// The leaf of the ordered list `s` at `locator`, if there is one.
pub open spec fn lookup(s: Seq<LeafNode>, locator: hash::Hash) -> Option<LeafNode> {
    if leaves_contain(s, locator) {
        Some(leaves_at(s, locator))
    } else {
        None
    }
}

/// Whether the groups of the path `p` are linked: the root hash is that
/// of the first group, each node on the path holds the hash of the group
/// below it, which holds a node, and below a missing node there is nothing.
pub open spec fn view_linked(p: PathView) -> bool {
    &&& p.inner0.len() == 256 && p.inner1.len() == 256 && p.inner2.len() == 256
    &&& p.root_hash == inners_hash(p.inner0)
    &&& match p.inner0[p.bucket(0)] {
        Some(n0) => n0.hash == inners_hash(p.inner1) && !all_none(p.inner1),
        None => all_none(p.inner1),
    }
    &&& match p.inner1[p.bucket(1)] {
        Some(n1) => n1.hash == inners_hash(p.inner2) && !all_none(p.inner2),
        None => all_none(p.inner2),
    }
    &&& match p.inner2[p.bucket(2)] {
        Some(n2) => n2.hash == leaves_hash(p.leaves) && p.leaves.len() > 0,
        None => p.leaves.len() == 0,
    }
}

/// Whether the path `changed` is the path `loaded` after a change to its
/// leaf: the nodes off the path are as before, the groups are linked
/// anew, and the leaves at other locators refer to the same blocks.
pub open spec fn is_update_of(changed: PathView, loaded: PathView) -> bool {
    &&& changed.locator == loaded.locator
    &&& loaded.inner0.len() == 256 && loaded.inner1.len() == 256 && loaded.inner2.len() == 256
    &&& view_linked(changed)
    &&& forall|b: int|
        0 <= b < 256 && b != loaded.bucket(0) ==> #[trigger] changed.inner0[b] == loaded.inner0[b]
    &&& forall|b: int|
        0 <= b < 256 && b != loaded.bucket(1) ==> #[trigger] changed.inner1[b] == loaded.inner1[b]
    &&& forall|b: int|
        0 <= b < 256 && b != loaded.bucket(2) ==> #[trigger] changed.inner2[b] == loaded.inner2[b]
    &&& leaves_sorted(changed.leaves)
    &&& forall|other: hash::Hash|
        other != loaded.locator ==> block_of(#[trigger] lookup(changed.leaves, other)) == block_of(
            lookup(loaded.leaves, other),
        )
}

/// A path with its leaf set is an update of the path as it was.
pub proof fn lemma_set_leaf_is_update(
    loaded: PathView,
    block_id: BlockId,
    presence: crate::protocol::summary::SingleBlockPresence,
)
    requires
        loaded.inner0.len() == 256 && loaded.inner1.len() == 256 && loaded.inner2.len() == 256,
        leaves_sorted(loaded.leaves),
    ensures
        is_update_of(loaded.spec_set_leaf(block_id, presence), loaded),
{
    let node = LeafNode { locator: loaded.locator, block_id, block_presence: presence };
    let changed = loaded.spec_set_leaf(block_id, presence);
    crate::protocol::node::lemma_leaves_insert_map(loaded.leaves, node);
    assert(crate::protocol::node::leaves_map(changed.leaves).contains_key(loaded.locator));
    assert(leaves_contain(changed.leaves, loaded.locator));
    assert(changed.leaves.len() > 0);
    assert(changed.inner2[loaded.bucket(2)].is_some());
    assert(changed.inner1[loaded.bucket(1)].is_some());
    assert(changed.inner0[loaded.bucket(0)].is_some());
    assert forall|other: hash::Hash| other != loaded.locator implies block_of(
        #[trigger] lookup(changed.leaves, other),
    ) == block_of(lookup(loaded.leaves, other)) by {
        let before = crate::protocol::node::leaves_map(loaded.leaves);
        let after = crate::protocol::node::leaves_map(changed.leaves);
        assert(after.contains_key(other) == before.contains_key(other));
        if before.contains_key(other) {
            assert(after[other] == before[other]);
        }
    }
}

/// A path with its leaf removed is an update of the path as it was.
pub proof fn lemma_remove_leaf_is_update(loaded: PathView)
    requires
        loaded.inner0.len() == 256 && loaded.inner1.len() == 256 && loaded.inner2.len() == 256,
        leaves_sorted(loaded.leaves),
        leaves_contain(loaded.leaves, loaded.locator),
    ensures
        is_update_of(loaded.spec_remove_leaf(), loaded),
{
    let changed = loaded.spec_remove_leaf();
    crate::protocol::node::lemma_leaves_remove_map(loaded.leaves, loaded.locator);
    assert forall|other: hash::Hash| other != loaded.locator implies block_of(
        #[trigger] lookup(changed.leaves, other),
    ) == block_of(lookup(loaded.leaves, other)) by {
        let before = crate::protocol::node::leaves_map(loaded.leaves);
        let after = crate::protocol::node::leaves_map(changed.leaves);
        assert(after.contains_key(other) == before.contains_key(other));
        if before.contains_key(other) {
            assert(after[other] == before[other]);
        }
    }
    let b0 = loaded.bucket(0);
    let b1 = loaded.bucket(1);
    let b2 = loaded.bucket(2);
    if changed.leaves.len() > 0 {
        assert(changed.inner2[b2].is_some());
        assert(changed.inner1[b1].is_some());
        assert(changed.inner0[b0].is_some());
    } else {
        let i2 = loaded.inner2.update(b2, None);
        assert(i2[b2].is_none());
        if !all_none(i2) {
            assert(changed.inner1[b1].is_some());
            assert(changed.inner0[b0].is_some());
        } else {
            let i1 = loaded.inner1.update(b1, None);
            assert(i1[b1].is_none());
            if !all_none(i1) {
                assert(changed.inner0[b0].is_some());
            } else {
                let i0 = loaded.inner0.update(b0, None);
                assert(i0[b0].is_none());
                if all_none(i0) {
                    crate::protocol::node::lemma_inners_bytes_none(i0);
                    assert(seq![0u8] + Seq::<u8>::empty() =~= seq![0u8]);
                }
            }
        }
    }
}

/// Whether `new` has every group of nodes that `old` has, as it is in `old`.
pub open spec fn keeps_groups(old: &Store, new: &Store) -> bool {
    &&& forall|k: hash::Hash| #[trigger]
        old.inners1@.contains_key(k) ==> new.inners1@.contains_key(k) && new.inners1@[k]
            == old.inners1@[k]
    &&& forall|k: hash::Hash| #[trigger]
        old.inners2@.contains_key(k) ==> new.inners2@.contains_key(k) && new.inners2@[k]
            == old.inners2@[k]
    &&& forall|k: hash::Hash| #[trigger]
        old.leaves@.contains_key(k) ==> new.leaves@.contains_key(k) && new.leaves@[k]
            == old.leaves@[k]
}

proof fn lemma_stable_leaves(old: &Store, new: &Store, h: hash::Hash, other: hash::Hash)
    requires
        old.wf(),
        new.wf(),
        keeps_groups(old, new),
        leaf_complete(old.leaves@, h),
    ensures
        crate::store::model::find_in_leaves(new.leaves@, h, other)
            == crate::store::model::find_in_leaves(old.leaves@, h, other),
{
}

proof fn lemma_stable2(old: &Store, new: &Store, h: hash::Hash, other: hash::Hash)
    requires
        old.wf(),
        new.wf(),
        keeps_groups(old, new),
        complete2(old.inners2@, old.leaves@, h),
    ensures
        crate::store::model::find_from2(new.inners2@, new.leaves@, h, other)
            == crate::store::model::find_from2(old.inners2@, old.leaves@, h, other),
{
    if !is_empty_hash(h) {
        assert(old.inners2@[h].wf());
        let slot = old.inners2@[h].slots@[spec_get_bucket(other, 2) as int];
        if slot.is_some() {
            lemma_stable_leaves(old, new, slot.unwrap().hash, other);
        }
    }
}

proof fn lemma_stable1(old: &Store, new: &Store, h: hash::Hash, other: hash::Hash)
    requires
        old.wf(),
        new.wf(),
        keeps_groups(old, new),
        complete1(old.inners1@, old.inners2@, old.leaves@, h),
    ensures
        crate::store::model::find_from1(new.inners1@, new.inners2@, new.leaves@, h, other)
            == crate::store::model::find_from1(old.inners1@, old.inners2@, old.leaves@, h, other),
{
    if !is_empty_hash(h) {
        assert(old.inners1@[h].wf());
        let slot = old.inners1@[h].slots@[spec_get_bucket(other, 1) as int];
        if slot.is_some() {
            lemma_stable2(old, new, slot.unwrap().hash, other);
        }
    }
}

/// Two ordered lists with the same blocks at the same locators hold a
/// leaf at the same locators, with the same block.
proof fn lemma_same_leaves_block(a: Seq<LeafNode>, b: Seq<LeafNode>, locator: hash::Hash)
    requires
        leaves_sorted(a),
        leaves_sorted(b),
        crate::protocol::node::same_leaves(a, b),
    ensures
        block_of(lookup(a, locator)) == block_of(lookup(b, locator)),
{
    if leaves_contain(a, locator) {
        let i = choose|i: int| 0 <= i < a.len() && (#[trigger] a[i]).locator == locator;
        assert(b[i].locator == locator);
        crate::protocol::node::lemma_leaves_at(a, i);
        crate::protocol::node::lemma_leaves_at(b, i);
    }
    if leaves_contain(b, locator) {
        let i = choose|i: int| 0 <= i < b.len() && (#[trigger] b[i]).locator == locator;
        assert(a[i].locator == locator);
        crate::protocol::node::lemma_leaves_at(a, i);
        crate::protocol::node::lemma_leaves_at(b, i);
    }
}

/// What a descent from the node of the path in the last inner layer finds in `store`.
pub open spec fn below2(store: &Store, p: PathView, other: hash::Hash) -> Option<LeafNode> {
    match p.inner2[p.bucket(2)] {
        Some(n2) => crate::store::model::find_in_leaves(store.leaves@, n2.hash, other),
        None => None,
    }
}

/// What a descent from the node of the path in the second inner layer finds in `store`.
pub open spec fn below1(store: &Store, p: PathView, other: hash::Hash) -> Option<LeafNode> {
    match p.inner1[p.bucket(1)] {
        Some(n1) => crate::store::model::find_from2(store.inners2@, store.leaves@, n1.hash, other),
        None => None,
    }
}

/// What a descent from the node of the path in the first inner layer finds in `store`.
pub open spec fn below0(store: &Store, p: PathView, other: hash::Hash) -> Option<LeafNode> {
    match p.inner0[p.bucket(0)] {
        Some(n0) => crate::store::model::find_from1(
            store.inners1@,
            store.inners2@,
            store.leaves@,
            n0.hash,
            other,
        ),
        None => None,
    }
}

/// Whether the subtrees below the nodes of the path `loaded` are complete in `old`.
pub open spec fn loaded_complete(old: &Store, loaded: PathView) -> bool {
    &&& forall|b: int|
        0 <= b < 256 && (#[trigger] loaded.inner0[b]).is_some() ==> complete1(
            old.inners1@,
            old.inners2@,
            old.leaves@,
            loaded.inner0[b].unwrap().hash,
        )
    &&& forall|b: int|
        0 <= b < 256 && (#[trigger] loaded.inner1[b]).is_some() ==> complete2(
            old.inners2@,
            old.leaves@,
            loaded.inner1[b].unwrap().hash,
        )
    &&& forall|b: int|
        0 <= b < 256 && (#[trigger] loaded.inner2[b]).is_some() ==> leaf_complete(
            old.leaves@,
            loaded.inner2[b].unwrap().hash,
        )
}

proof fn lemma_on_path2(
    old: &Store,
    new: &Store,
    loaded: PathView,
    changed: PathView,
    other: hash::Hash,
)
    requires
        old.wf(),
        new.wf(),
        is_update_of(changed, loaded),
        loaded.leaves == crate::store::paths::leaves_or_empty(
            old.leaves@,
            crate::protocol::node::slot_hash(loaded.inner2[loaded.bucket(2)]),
        ),
        crate::store::nodes::leaves_saved(old.leaves@, new.leaves@, changed.leaves),
        other != loaded.locator,
    ensures
        block_of(below2(new, changed, other)) == block_of(below2(old, loaded, other)),
{
    // What the old store finds below the node of the path is the leaf of the loaded path.
    assert(below2(old, loaded, other) == lookup(loaded.leaves, other)) by {
        match loaded.inner2[loaded.bucket(2)] {
            Some(n2) => {
                if old.leaves@.contains_key(n2.hash) {
                    assert(old.leaves@[n2.hash]@
                        == crate::protocol::node::leaves_map(loaded.leaves));
                }
            },
            None => {},
        }
    }
    assert(block_of(lookup(changed.leaves, other)) == block_of(lookup(loaded.leaves, other)));
    match changed.inner2[changed.bucket(2)] {
        Some(n2) => {
            let h = leaves_hash(changed.leaves);
            assert(new.leaves@.dom().contains(h));
            assert(new.leaves@.contains_key(h));
            assert(new.leaves@[h].wf());
            lemma_same_leaves_block(new.leaves@[h].nodes@, changed.leaves, other);
            assert(new.leaves@[h]@ == crate::protocol::node::leaves_map(new.leaves@[h].nodes@));
        },
        None => {},
    }
}

proof fn lemma_on_path1(
    old: &Store,
    new: &Store,
    loaded: PathView,
    changed: PathView,
    other: hash::Hash,
)
    requires
        old.wf(),
        new.wf(),
        keeps_groups(old, new),
        is_update_of(changed, loaded),
        loaded_complete(old, loaded),
        loaded.inner2 == crate::store::paths::slots_or_empty(
            old.inners2@,
            crate::protocol::node::slot_hash(loaded.inner1[loaded.bucket(1)]),
        ),
        loaded.leaves == crate::store::paths::leaves_or_empty(
            old.leaves@,
            crate::protocol::node::slot_hash(loaded.inner2[loaded.bucket(2)]),
        ),
        crate::store::nodes::leaves_saved(old.leaves@, new.leaves@, changed.leaves),
        crate::store::nodes::inner_saved(old.inners2@, new.inners2@, changed.inner2),
        other != loaded.locator,
    ensures
        block_of(below1(new, changed, other)) == block_of(below1(old, loaded, other)),
{
    let o2 = spec_get_bucket(other, 2) as int;
    let b2 = loaded.bucket(2);
    lemma_on_path2(old, new, loaded, changed, other);
    let none = Seq::new(256, |i: int| None::<InnerNode>);
    assert(none[o2].is_none());
    // What the old store finds below the node of the path goes by the loaded group.
    let old_slot = loaded.inner2[o2];
    assert(below1(old, loaded, other) == (match old_slot {
        Some(n) => crate::store::model::find_in_leaves(old.leaves@, n.hash, other),
        None => None,
    })) by {
        match loaded.inner1[loaded.bucket(1)] {
            Some(n1) => {
                if old.inners2@.contains_key(n1.hash) {
                    assert(old.inners2@[n1.hash].wf());
                }
            },
            None => {},
        }
    }
    match changed.inner1[changed.bucket(1)] {
        Some(n1) => {
            let h = inners_hash(changed.inner2);
            assert(!all_none(changed.inner2));
            assert(new.inners2@.dom().contains(h));
            assert(new.inners2@.contains_key(h));
            assert(new.inners2@[h].wf());
            assert(crate::protocol::node::slot_hash(new.inners2@[h].slots@[o2])
                == crate::protocol::node::slot_hash(changed.inner2[o2]));
            if o2 != b2 {
                assert(changed.inner2[o2] == loaded.inner2[o2]);
                if old_slot.is_some() {
                    lemma_stable_leaves(old, new, old_slot.unwrap().hash, other);
                }
            }
        },
        None => {
            assert(all_none(changed.inner2));
            assert(changed.inner2[b2].is_none());
            if o2 != b2 {
                assert(changed.inner2[o2] == loaded.inner2[o2]);
                assert(changed.inner2[o2].is_none());
            }
        },
    }
}

proof fn lemma_on_path0(
    old: &Store,
    new: &Store,
    loaded: PathView,
    changed: PathView,
    other: hash::Hash,
)
    requires
        old.wf(),
        new.wf(),
        keeps_groups(old, new),
        is_update_of(changed, loaded),
        loaded_complete(old, loaded),
        loaded.inner1 == crate::store::paths::slots_or_empty(
            old.inners1@,
            crate::protocol::node::slot_hash(loaded.inner0[loaded.bucket(0)]),
        ),
        loaded.inner2 == crate::store::paths::slots_or_empty(
            old.inners2@,
            crate::protocol::node::slot_hash(loaded.inner1[loaded.bucket(1)]),
        ),
        loaded.leaves == crate::store::paths::leaves_or_empty(
            old.leaves@,
            crate::protocol::node::slot_hash(loaded.inner2[loaded.bucket(2)]),
        ),
        crate::store::nodes::leaves_saved(old.leaves@, new.leaves@, changed.leaves),
        crate::store::nodes::inner_saved(old.inners2@, new.inners2@, changed.inner2),
        crate::store::nodes::inner_saved(old.inners1@, new.inners1@, changed.inner1),
        other != loaded.locator,
    ensures
        block_of(below0(new, changed, other)) == block_of(below0(old, loaded, other)),
{
    let o1 = spec_get_bucket(other, 1) as int;
    let b1 = loaded.bucket(1);
    lemma_on_path1(old, new, loaded, changed, other);
    let none = Seq::new(256, |i: int| None::<InnerNode>);
    assert(none[o1].is_none());
    let old_slot = loaded.inner1[o1];
    assert(below0(old, loaded, other) == (match old_slot {
        Some(n) => crate::store::model::find_from2(old.inners2@, old.leaves@, n.hash, other),
        None => None,
    })) by {
        match loaded.inner0[loaded.bucket(0)] {
            Some(n0) => {
                if old.inners1@.contains_key(n0.hash) {
                    assert(old.inners1@[n0.hash].wf());
                }
            },
            None => {},
        }
    }
    match changed.inner0[changed.bucket(0)] {
        Some(n0) => {
            let h = inners_hash(changed.inner1);
            assert(!all_none(changed.inner1));
            assert(new.inners1@.dom().contains(h));
            assert(new.inners1@.contains_key(h));
            assert(new.inners1@[h].wf());
            assert(crate::protocol::node::slot_hash(new.inners1@[h].slots@[o1])
                == crate::protocol::node::slot_hash(changed.inner1[o1]));
            if o1 != b1 {
                assert(changed.inner1[o1] == loaded.inner1[o1]);
                if old_slot.is_some() {
                    lemma_stable2(old, new, old_slot.unwrap().hash, other);
                }
            }
        },
        None => {
            assert(all_none(changed.inner1));
            assert(changed.inner1[b1].is_none());
            if o1 != b1 {
                assert(changed.inner1[o1] == loaded.inner1[o1]);
                assert(changed.inner1[o1].is_none());
            }
        },
    }
}

/// Storing the path to one locator leaves what stands at every other
/// locator as it is: the snapshot after a change to the leaf at `locator`
/// refers, at every other locator, to the block that the snapshot before
/// referred to.
pub proof fn law_write_keeps_others(
    old: &Store,
    new: &Store,
    root: hash::Hash,
    summary: Summary,
    locator: hash::Hash,
    changed: PathView,
    other: hash::Hash,
)
    requires
        old.wf(),
        new.wf(),
        old.spec_complete(root),
        is_update_of(changed, old.spec_load_path(root, summary, locator)),
        new.saved_path(old, changed),
        other != locator,
    ensures
        block_of(new.spec_find_leaf(changed.root_hash, other)) == block_of(
            old.spec_find_leaf(root, other),
        ),
{
    let loaded = old.spec_load_path(root, summary, locator);
    let o0 = spec_get_bucket(other, 0) as int;
    let b0 = loaded.bucket(0);
    let none = Seq::new(256, |i: int| None::<InnerNode>);
    assert(none[o0].is_none() && none[b0].is_none());
    assert(keeps_groups(old, new)) by {
        assert forall|k: hash::Hash| #[trigger] old.inners1@.contains_key(k)
            implies new.inners1@.contains_key(
            k,
        ) by {
            assert(old.inners1@.dom().contains(k));
        }
        assert forall|k: hash::Hash| #[trigger] old.inners2@.contains_key(k)
            implies new.inners2@.contains_key(
            k,
        ) by {
            assert(old.inners2@.dom().contains(k));
        }
        assert forall|k: hash::Hash| #[trigger] old.leaves@.contains_key(k)
            implies new.leaves@.contains_key(
            k,
        ) by {
            assert(old.leaves@.dom().contains(k));
        }
    }
    assert(loaded_complete(old, loaded)) by {
        lemma_loaded_complete(old, root, summary, locator);
    }
    lemma_on_path0(old, new, loaded, changed, other);
    let old_slot = loaded.inner0[o0];
    assert(old.spec_find_leaf(root, other) == (match old_slot {
        Some(n) => crate::store::model::find_from1(
            old.inners1@,
            old.inners2@,
            old.leaves@,
            n.hash,
            other,
        ),
        None => None,
    })) by {
        if old.inners0@.contains_key(root) {
            assert(old.inners0@[root].wf());
        }
    }
    if all_none(changed.inner0) {
        crate::protocol::node::lemma_inners_bytes_none(changed.inner0);
        assert(seq![0u8] + Seq::<u8>::empty() =~= seq![0u8]);
        assert(is_empty_hash(changed.root_hash));
        assert(!new.inners0@.contains_key(changed.root_hash));
        assert(changed.inner0[b0].is_none());
        if o0 != b0 {
            assert(changed.inner0[o0] == loaded.inner0[o0]);
            assert(changed.inner0[o0].is_none());
        }
    } else {
        let h = changed.root_hash;
        assert(new.inners0@.dom().contains(h));
        assert(new.inners0@.contains_key(h));
        assert(new.inners0@[h].wf());
        assert(crate::protocol::node::slot_hash(new.inners0@[h].slots@[o0])
            == crate::protocol::node::slot_hash(changed.inner0[o0]));
        if o0 != b0 {
            assert(changed.inner0[o0] == loaded.inner0[o0]);
            if old_slot.is_some() {
                lemma_stable1(old, new, old_slot.unwrap().hash, other);
            }
        }
    }
}

/// The subtrees below the nodes of the path that is loaded from a
/// complete snapshot are complete.
proof fn lemma_loaded_complete(old: &Store, root: hash::Hash, summary: Summary, locator: hash::Hash)
    requires
        old.wf(),
        old.spec_complete(root),
    ensures
        loaded_complete(old, old.spec_load_path(root, summary, locator)),
{
    let loaded = old.spec_load_path(root, summary, locator);
    let b0 = loaded.bucket(0);
    let b1 = loaded.bucket(1);
    if old.inners0@.contains_key(root) {
        assert(old.inners0@[root].wf());
        assert(!is_empty_hash(root));
        match loaded.inner0[b0] {
            Some(n0) => {
                assert(complete1(old.inners1@, old.inners2@, old.leaves@, n0.hash));
                if old.inners1@.contains_key(n0.hash) {
                    assert(old.inners1@[n0.hash].wf());
                    assert(!is_empty_hash(n0.hash));
                    match loaded.inner1[b1] {
                        Some(n1) => {
                            assert(complete2(old.inners2@, old.leaves@, n1.hash));
                            if old.inners2@.contains_key(n1.hash) {
                                assert(old.inners2@[n1.hash].wf());
                                assert(!is_empty_hash(n1.hash));
                            }
                        },
                        None => {},
                    }
                }
            },
            None => {},
        }
    }
}

/// The groups of a path that is loaded from a store have a slot for
/// every bucket, and its leaves are in order.
proof fn lemma_loaded_shape(old: &Store, root: hash::Hash, summary: Summary, locator: hash::Hash)
    requires
        old.wf(),
    ensures
        ({
            let loaded = old.spec_load_path(root, summary, locator);
            &&& loaded.inner0.len() == 256
            &&& loaded.inner1.len() == 256
            &&& loaded.inner2.len() == 256
            &&& leaves_sorted(loaded.leaves)
        }),
{
    let loaded = old.spec_load_path(root, summary, locator);
    if old.inners0@.contains_key(root) {
        assert(old.inners0@[root].wf());
    }
    let h0 = crate::protocol::node::slot_hash(loaded.inner0[loaded.bucket(0)]);
    if h0.is_some() && old.inners1@.contains_key(h0.unwrap()) {
        assert(old.inners1@[h0.unwrap()].wf());
    }
    let h1 = crate::protocol::node::slot_hash(loaded.inner1[loaded.bucket(1)]);
    if h1.is_some() && old.inners2@.contains_key(h1.unwrap()) {
        assert(old.inners2@[h1.unwrap()].wf());
    }
    let h2 = crate::protocol::node::slot_hash(loaded.inner2[loaded.bucket(2)]);
    if h2.is_some() && old.leaves@.contains_key(h2.unwrap()) {
        assert(old.leaves@[h2.unwrap()].wf());
    }
}

/// Inserting a block at one locator of a complete snapshot leaves every
/// other locator with the block that it had.
pub proof fn law_insert_keeps_others(
    old: &Store,
    new: &Store,
    root: hash::Hash,
    summary: Summary,
    locator: hash::Hash,
    block_id: BlockId,
    presence: crate::protocol::summary::SingleBlockPresence,
    other: hash::Hash,
)
    requires
        old.wf(),
        new.wf(),
        old.spec_complete(root),
        new.written_path(
            old,
            old.spec_load_path(root, summary, locator).spec_set_leaf(block_id, presence),
        ),
        crate::store::client::root_in(
            new.roots@,
            old.spec_load_path(root, summary, locator).spec_set_leaf(block_id, presence).root_hash,
        ),
        other != locator,
    ensures
        block_of(
            new.spec_find_leaf(
                old.spec_load_path(root, summary, locator).spec_set_leaf(
                    block_id,
                    presence,
                ).root_hash,
                other,
            ),
        ) == block_of(old.spec_find_leaf(root, other)),
{
    let loaded = old.spec_load_path(root, summary, locator);
    lemma_loaded_shape(old, root, summary, locator);
    lemma_set_leaf_is_update(loaded, block_id, presence);
    let changed = loaded.spec_set_leaf(block_id, presence);
    let saved = choose|saved: Store|
        #![trigger saved.saved_path(old, changed)]
        saved.wf() && saved.saved_path(old, changed) && saved.blocks == old.blocks
            && new.reclaimed_from(&saved);
    law_write_keeps_others(old, &saved, root, summary, locator, changed, other);
    new.lemma_collected_find(&saved, changed.root_hash, other);
}

/// Removing the block at one locator of a complete snapshot leaves every
/// other locator with the block that it had.
pub proof fn law_remove_keeps_others(
    old: &Store,
    new: &Store,
    root: hash::Hash,
    summary: Summary,
    locator: hash::Hash,
    other: hash::Hash,
)
    requires
        old.wf(),
        new.wf(),
        old.spec_complete(root),
        path_leaf(old.spec_load_path(root, summary, locator)).is_some(),
        new.written_path(old, old.spec_load_path(root, summary, locator).spec_remove_leaf()),
        crate::store::client::root_in(
            new.roots@,
            old.spec_load_path(root, summary, locator).spec_remove_leaf().root_hash,
        ),
        other != locator,
    ensures
        block_of(
            new.spec_find_leaf(
                old.spec_load_path(root, summary, locator).spec_remove_leaf().root_hash,
                other,
            ),
        ) == block_of(old.spec_find_leaf(root, other)),
{
    let loaded = old.spec_load_path(root, summary, locator);
    lemma_loaded_shape(old, root, summary, locator);
    lemma_remove_leaf_is_update(loaded);
    let changed = loaded.spec_remove_leaf();
    let saved = choose|saved: Store|
        #![trigger saved.saved_path(old, changed)]
        saved.wf() && saved.saved_path(old, changed) && saved.blocks == old.blocks
            && new.reclaimed_from(&saved);
    law_write_keeps_others(old, &saved, root, summary, locator, changed, other);
    new.lemma_collected_find(&saved, changed.root_hash, other);
}

/// Whether the snapshots of each writer were stored in the order of their
/// version vectors: of two snapshots of one writer, the one with the lower
/// id has the lower version vector.
pub open spec fn in_version_order(roots: Seq<RootNode>) -> bool {
    forall|i: int, j: int|
        0 <= i < roots.len() && 0 <= j < roots.len() && (#[trigger] roots[i]).proof.writer_id == (
        #[trigger] roots[j]).proof.writer_id && roots[i].snapshot_id < roots[j].snapshot_id
            ==> roots[i].proof.version_vector.spec_lt(&roots[j].proof.version_vector)
}

/// Whether `new` holds the snapshots of `old` in their places, with their
/// ids and proofs, and with every approved one still approved, and
/// perhaps more snapshots behind them.
pub open spec fn roots_grown(old: Seq<RootNode>, new: Seq<RootNode>) -> bool {
    &&& old.len() <= new.len()
    &&& forall|i: int|
        0 <= i < old.len() ==> (#[trigger] new[i]).snapshot_id == old[i].snapshot_id && new[i].proof
            == old[i].proof && (old[i].summary.state == NodeState::Approved
            ==> new[i].summary.state == NodeState::Approved)
}

/// A snapshot that is received and stored is newer than every stored
/// snapshot of its writer: where the snapshots were stored in the order
/// of their version vectors, they still are with the new one.
pub proof fn law_received_in_order(
    roots: Seq<RootNode>,
    proof: Proof,
    presence: MultiBlockPresence,
    summary: Summary,
    id: u64,
)
    requires
        in_version_order(roots),
        forall|i: int| 0 <= i < roots.len() ==> (#[trigger] roots[i]).snapshot_id < id,
        root_action(roots, &proof, presence).insert,
    ensures
        in_version_order(roots.push(RootNode { snapshot_id: id, proof, summary })),
{
    let added = roots.push(RootNode { snapshot_id: id, proof, summary });
    assert forall|i: int, j: int|
        0 <= i < added.len() && 0 <= j < added.len() && (#[trigger] added[i]).proof.writer_id == (
        #[trigger] added[j]).proof.writer_id && added[i].snapshot_id
            < added[j].snapshot_id implies added[i].proof.version_vector.spec_lt(
        &added[j].proof.version_vector,
    ) by {
        if j == roots.len() {
            assert(i < roots.len());
            assert(crate::store::client::allows_insert(roots[i], &proof));
        } else if i == roots.len() {
            assert(roots[j].snapshot_id < id);
        } else {
            assert(roots[i].proof.version_vector.spec_lt(&roots[j].proof.version_vector));
        }
    }
}

/// The order of the version vectors is kept where snapshots are removed
/// or their summaries change: every snapshot of `new` is one of `old`,
/// with its id and proof.
pub proof fn law_order_is_kept(old: Seq<RootNode>, new: Seq<RootNode>)
    requires
        in_version_order(old),
        forall|j: int|
            0 <= j < new.len() ==> exists|i: int|
                0 <= i < old.len() && (#[trigger] old[i]).snapshot_id == (
                #[trigger] new[j]).snapshot_id && old[i].proof == new[j].proof,
    ensures
        in_version_order(new),
{
    assert forall|a: int, b: int|
        0 <= a < new.len() && 0 <= b < new.len() && (#[trigger] new[a]).proof.writer_id == (
        #[trigger] new[b]).proof.writer_id && new[a].snapshot_id
            < new[b].snapshot_id implies new[a].proof.version_vector.spec_lt(
        &new[b].proof.version_vector,
    ) by {
        let i = choose|i: int|
            0 <= i < old.len() && (#[trigger] old[i]).snapshot_id == new[a].snapshot_id
                && old[i].proof == new[a].proof;
        let j = choose|j: int|
            0 <= j < old.len() && (#[trigger] old[j]).snapshot_id == new[b].snapshot_id
                && old[j].proof == new[b].proof;
        assert(old[i].proof.version_vector.spec_lt(&old[j].proof.version_vector));
    }
}

/// After `finalize` the snapshots are in their places, and every approved
/// one is still approved.
pub proof fn law_finalize_grows(
    store: &Store,
    roots: Seq<RootNode>,
    hash: hash::Hash,
    quota: Option<u64>,
    status: crate::store::receive::ReceiveStatus,
)
    requires
        store.finalized_roots(roots, hash, quota, status),
    ensures
        roots_grown(roots, store.roots@),
{
}

/// No approved snapshot of `writer` among the first `end` stands behind the latest of them.
proof fn lemma_latest_is_last(store: &Store, writer: PublicKey, end: int, i: int)
    requires
        0 <= i < end <= store.roots@.len(),
        store.is_approved_of(i, writer),
    ensures
        i <= store.spec_latest_approved_before(writer, end) < end,
    decreases end,
{
    if !store.is_approved_of(end - 1, writer) {
        lemma_latest_is_last(store, writer, end - 1, i);
    }
}

/// Where the snapshots of a writer are stored in the order of their
/// version vectors, the latest approved snapshot of the writer dominates
/// every approved snapshot of the writer.
pub proof fn law_latest_is_newest(store: &Store, writer: PublicKey, i: int)
    requires
        store.wf(),
        in_version_order(store.roots@),
        store.is_approved_of(i, writer),
    ensures
        i <= store.spec_latest_approved(writer) < store.roots@.len(),
        store.roots@[i].proof.version_vector.spec_le(
            &store.roots@[store.spec_latest_approved(writer)].proof.version_vector,
        ),
{
    let last = store.spec_latest_approved(writer);
    lemma_latest_is_last(store, writer, store.roots@.len() as int, i);
    store.lemma_latest_approved(writer, store.roots@.len() as int);
    if i < last {
        assert(store.roots@[i].snapshot_id < store.roots@[last].snapshot_id);
        assert(store.roots@[i].proof.version_vector.spec_lt(
            &store.roots@[last].proof.version_vector,
        ));
    }
}

/// The latest approved snapshot of a writer never goes back: after
/// snapshots were received, it dominates what it was before.
pub proof fn law_latest_never_older(old: &Store, new: &Store, writer: PublicKey)
    requires
        old.wf(),
        new.wf(),
        in_version_order(new.roots@),
        roots_grown(old.roots@, new.roots@),
        old.spec_latest_approved(writer) >= 0,
    ensures
        old.spec_latest_approved(writer) <= new.spec_latest_approved(writer),
        old.roots@[old.spec_latest_approved(writer)].proof.version_vector.spec_le(
            &new.roots@[new.spec_latest_approved(writer)].proof.version_vector,
        ),
{
    let i = old.spec_latest_approved(writer);
    old.lemma_latest_approved(writer, old.roots@.len() as int);
    assert(new.roots@[i].proof == old.roots@[i].proof);
    assert(new.is_approved_of(i, writer));
    law_latest_is_newest(new, writer, i);
}

/// Snapshots that were received after `old` leave its snapshots in their places.
pub proof fn law_receive_grows(old: Seq<RootNode>, received: RootNode, new: Seq<RootNode>)
    requires
        roots_grown(old.push(received), new),
    ensures
        roots_grown(old, new),
{
    assert forall|i: int| 0 <= i < old.len() implies (#[trigger] new[i]).snapshot_id
        == old[i].snapshot_id && new[i].proof == old[i].proof && (old[i].summary.state
        == NodeState::Approved ==> new[i].summary.state == NodeState::Approved) by {
        assert(old.push(received)[i] == old[i]);
    }
}

/// The previous approved snapshot of a branch is kept when the branch is
/// pruned, if the snapshot that is pruned for is a draft of it, or lacks
/// blocks that it has.
pub proof fn law_fallback_is_kept(store: &Store, pos: int)
    requires
        store.wf(),
        0 <= pos < store.roots@.len(),
        store.spec_latest_approved_before(store.roots@[pos].proof.writer_id, pos) >= 0,
        crate::store::prune::keeps(
            store.roots@[store.spec_latest_approved_before(
                store.roots@[pos].proof.writer_id,
                pos,
            )],
            store.roots@[pos],
        ),
    ensures
        !store.is_outdated_at(
            pos,
            store.spec_latest_approved_before(store.roots@[pos].proof.writer_id, pos),
        ),
{
    let writer = store.roots@[pos].proof.writer_id;
    let p = store.spec_latest_approved_before(writer, pos);
    store.lemma_latest_approved(writer, pos);
    if store.is_pruned(writer, pos, pos, p) {
        assert(store.is_pruned(writer, p, p, p));
        store.lemma_pruned_before(writer, p, p, p);
    }
}

/// What `spec_prev_approved` gives is an approved snapshot of the writer
/// with an id below the bound, and none such stands behind it.
proof fn lemma_prev_approved(store: &Store, writer: PublicKey, below: u64, n: int, m: int)
    requires
        0 <= n <= store.roots@.len(),
    ensures
        -1 <= store.spec_prev_approved(writer, below, n) < n,
        store.spec_prev_approved(writer, below, n) >= 0 ==> store.is_approved_of(
            store.spec_prev_approved(writer, below, n),
            writer,
        ) && store.roots@[store.spec_prev_approved(writer, below, n)].snapshot_id < below,
        0 <= m < n && store.is_approved_of(m, writer) && store.roots@[m].snapshot_id < below ==> m
            <= store.spec_prev_approved(writer, below, n),
    decreases n,
{
    if n > 0 && !(store.is_approved_of(n - 1, writer) && store.roots@[n - 1].snapshot_id < below) {
        lemma_prev_approved(store, writer, below, n - 1, m);
    }
}

/// After a branch was pruned, the snapshot before the one that it was
/// pruned for is the previous approved snapshot that was kept: where the
/// fallback is kept, it is what `load_prev` finds.
pub proof fn law_kept_is_previous(old: &Store, new: &Store, pos: int)
    requires
        old.wf(),
        new.wf(),
        0 <= pos < old.roots@.len(),
        old.spec_latest_approved_before(old.roots@[pos].proof.writer_id, pos) >= 0,
        !old.is_outdated_at(
            pos,
            old.spec_latest_approved_before(old.roots@[pos].proof.writer_id, pos),
        ),
        forall|r: RootNode|
            #![trigger crate::store::roots::has_root(new.roots@, r)]
            crate::store::roots::has_root(new.roots@, r) <==> (exists|i: int|
                0 <= i < old.roots@.len() && #[trigger] old.roots@[i] == r && !old.is_outdated_at(
                    pos,
                    i,
                )),
    ensures
        ({
            let writer = old.roots@[pos].proof.writer_id;
            let k = new.spec_prev_approved(
                writer,
                old.roots@[pos].snapshot_id,
                new.roots@.len() as int,
            );
            &&& 0 <= k < new.roots@.len()
            &&& new.roots@[k] == old.roots@[old.spec_latest_approved_before(writer, pos)]
        }),
{
    let writer = old.roots@[pos].proof.writer_id;
    let below = old.roots@[pos].snapshot_id;
    let p = old.spec_latest_approved_before(writer, pos);
    old.lemma_latest_approved(writer, pos);
    let kept = old.roots@[p];
    assert(old.roots@[p].snapshot_id < old.roots@[pos].snapshot_id);
    // The snapshot is still there.
    assert(crate::store::roots::has_root(new.roots@, kept));
    let k1 = choose|k1: int| 0 <= k1 < new.roots@.len() && #[trigger] new.roots@[k1] == kept;
    let n = new.roots@.len() as int;
    let k = new.spec_prev_approved(writer, below, n);
    lemma_prev_approved(new, writer, below, n, k1);
    assert(k1 <= k);
    // What is found was there before, and does not stand behind it.
    let found = new.roots@[k];
    assert(crate::store::roots::has_root(new.roots@, found));
    let m = choose|m: int|
        0 <= m < old.roots@.len() && #[trigger] old.roots@[m] == found && !old.is_outdated_at(
            pos,
            m,
        );
    if m >= pos {
        if m > pos {
            assert(old.roots@[pos].snapshot_id < old.roots@[m].snapshot_id);
        }
        assert(false);
    }
    lemma_latest_is_last(old, writer, pos, m);
    if m < p {
        assert(old.roots@[m].snapshot_id < old.roots@[p].snapshot_id);
        if k1 < k {
            assert(new.roots@[k1].snapshot_id < new.roots@[k].snapshot_id);
        }
        assert(false);
    }
}

/// Whether the groups that both stores hold under one hash are the same
/// group: the same hashes in the same buckets, the same blocks at the
/// same locators. This holds unless the digest has a collision.
pub open spec fn groups_agree(a: &Store, b: &Store) -> bool {
    &&& forall|k: hash::Hash|
        #![trigger a.inners0@.contains_key(k)]
        a.inners0@.contains_key(k) && b.inners0@.contains_key(k)
            ==> crate::protocol::node::same_inners(a.inners0@[k].slots@, b.inners0@[k].slots@)
    &&& forall|k: hash::Hash|
        #![trigger a.inners1@.contains_key(k)]
        a.inners1@.contains_key(k) && b.inners1@.contains_key(k)
            ==> crate::protocol::node::same_inners(a.inners1@[k].slots@, b.inners1@[k].slots@)
    &&& forall|k: hash::Hash|
        #![trigger a.inners2@.contains_key(k)]
        a.inners2@.contains_key(k) && b.inners2@.contains_key(k)
            ==> crate::protocol::node::same_inners(a.inners2@[k].slots@, b.inners2@[k].slots@)
    &&& forall|k: hash::Hash|
        #![trigger a.leaves@.contains_key(k)]
        a.leaves@.contains_key(k) && b.leaves@.contains_key(k)
            ==> crate::protocol::node::same_leaves(a.leaves@[k].nodes@, b.leaves@[k].nodes@)
}

proof fn lemma_agree_leaves(a: &Store, b: &Store, h: hash::Hash, locator: hash::Hash)
    requires
        a.wf(),
        b.wf(),
        groups_agree(a, b),
        leaf_complete(a.leaves@, h),
        leaf_complete(b.leaves@, h),
    ensures
        block_of(crate::store::model::find_in_leaves(a.leaves@, h, locator)) == block_of(
            crate::store::model::find_in_leaves(b.leaves@, h, locator),
        ),
{
    if a.leaves@.contains_key(h) {
        assert(!is_empty_hash(h));
        assert(b.leaves@.contains_key(h));
        assert(a.leaves@[h].wf() && b.leaves@[h].wf());
        lemma_same_leaves_block(a.leaves@[h].nodes@, b.leaves@[h].nodes@, locator);
    } else if b.leaves@.contains_key(h) {
        assert(!is_empty_hash(h));
    }
}

proof fn lemma_agree2(a: &Store, b: &Store, h: hash::Hash, locator: hash::Hash)
    requires
        a.wf(),
        b.wf(),
        groups_agree(a, b),
        complete2(a.inners2@, a.leaves@, h),
        complete2(b.inners2@, b.leaves@, h),
    ensures
        block_of(crate::store::model::find_from2(a.inners2@, a.leaves@, h, locator)) == block_of(
            crate::store::model::find_from2(b.inners2@, b.leaves@, h, locator),
        ),
{
    let bucket = spec_get_bucket(locator, 2) as int;
    if a.inners2@.contains_key(h) {
        assert(!is_empty_hash(h));
        assert(b.inners2@.contains_key(h));
        assert(a.inners2@[h].wf() && b.inners2@[h].wf());
        let x = a.inners2@[h].slots@[bucket];
        let y = b.inners2@[h].slots@[bucket];
        assert(crate::protocol::node::slot_hash(x) == crate::protocol::node::slot_hash(y));
        if x.is_some() {
            lemma_agree_leaves(a, b, x.unwrap().hash, locator);
        }
    } else if b.inners2@.contains_key(h) {
        assert(!is_empty_hash(h));
    }
}

proof fn lemma_agree1(a: &Store, b: &Store, h: hash::Hash, locator: hash::Hash)
    requires
        a.wf(),
        b.wf(),
        groups_agree(a, b),
        complete1(a.inners1@, a.inners2@, a.leaves@, h),
        complete1(b.inners1@, b.inners2@, b.leaves@, h),
    ensures
        block_of(
            crate::store::model::find_from1(a.inners1@, a.inners2@, a.leaves@, h, locator),
        ) == block_of(
            crate::store::model::find_from1(b.inners1@, b.inners2@, b.leaves@, h, locator),
        ),
{
    let bucket = spec_get_bucket(locator, 1) as int;
    if a.inners1@.contains_key(h) {
        assert(!is_empty_hash(h));
        assert(b.inners1@.contains_key(h));
        assert(a.inners1@[h].wf() && b.inners1@[h].wf());
        let x = a.inners1@[h].slots@[bucket];
        let y = b.inners1@[h].slots@[bucket];
        assert(crate::protocol::node::slot_hash(x) == crate::protocol::node::slot_hash(y));
        if x.is_some() {
            lemma_agree2(a, b, x.unwrap().hash, locator);
        }
    } else if b.inners1@.contains_key(h) {
        assert(!is_empty_hash(h));
    }
}

/// Two stores that hold the whole snapshot with root hash `root` find
/// the same block at every locator of it, unless the digest has a
/// collision: a replica that has received the root hash and every node
/// below it holds what the sender holds.
pub proof fn law_same_root_same_blocks(a: &Store, b: &Store, root: hash::Hash, locator: hash::Hash)
    requires
        a.wf(),
        b.wf(),
        groups_agree(a, b),
        a.spec_complete(root),
        b.spec_complete(root),
    ensures
        block_of(a.spec_find_leaf(root, locator)) == block_of(b.spec_find_leaf(root, locator)),
{
    let bucket = spec_get_bucket(locator, 0) as int;
    if a.inners0@.contains_key(root) {
        assert(!is_empty_hash(root));
        assert(b.inners0@.contains_key(root));
        assert(a.inners0@[root].wf() && b.inners0@[root].wf());
        let x = a.inners0@[root].slots@[bucket];
        let y = b.inners0@[root].slots@[bucket];
        assert(crate::protocol::node::slot_hash(x) == crate::protocol::node::slot_hash(y));
        if x.is_some() {
            lemma_agree1(a, b, x.unwrap().hash, locator);
        }
    } else if b.inners0@.contains_key(root) {
        assert(!is_empty_hash(root));
    }
}

} // verus!
