//! Bringing the summaries of the stored nodes up to date with what is
//! stored below them.

use crate::collections::table::{lemma_index_of, Table};
use crate::crypto::hash;
use crate::protocol::node::{
    lemma_inners_bytes_same, same_inners, slot_hash, InnerNode, InnerNodes, LeafNodes,
};
use crate::protocol::summary::{has_incomplete, MultiBlockPresence, NodeState, Summary};
use crate::store::model::{
    complete0, complete1, complete2, inner_extends, inner_groups_wf, is_empty_hash, leaf_complete,
    leaf_groups_wf,
};
use crate::store::nodes::hash_is_empty;
use vstd::prelude::*;

verus! {

/// The summary of an empty subtree: complete, with no block present.
pub open spec fn empty_summary() -> Summary {
    Summary { state: NodeState::Complete, block_presence: MultiBlockPresence::Absent }
}

/// The summary of the subtree under a node with hash `h` whose children
/// are leaves: that of the stored group, and incomplete if none is stored.
pub open spec fn summary_of_leaves(leaves: Map<hash::Hash, LeafNodes>, h: hash::Hash) -> Summary {
    if is_empty_hash(h) {
        empty_summary()
    } else if leaves.contains_key(h) {
        Summary::spec_from_leaves(leaves[h].nodes@)
    } else {
        Summary::spec_incomplete()
    }
}

/// The summary of the subtree under a node with hash `h` whose children
/// are inner nodes: that of the stored group, and incomplete if none is stored.
pub open spec fn summary_of_inners(children: Map<hash::Hash, InnerNodes>, h: hash::Hash) -> Summary {
    if is_empty_hash(h) {
        empty_summary()
    } else if children.contains_key(h) {
        Summary::spec_from_inners(children[h].slots@)
    } else {
        Summary::spec_incomplete()
    }
}

/// The slot `slot` with the summary of its node set to that of the leaves stored below it.
pub open spec fn refreshed_from_leaves(
    leaves: Map<hash::Hash, LeafNodes>,
    slot: Option<InnerNode>,
) -> Option<InnerNode> {
    match slot {
        Some(n) => Some(InnerNode { hash: n.hash, summary: summary_of_leaves(leaves, n.hash) }),
        None => None,
    }
}

/// The slot `slot` with the summary of its node set to that of the group stored below it.
pub open spec fn refreshed_from_inners(
    children: Map<hash::Hash, InnerNodes>,
    slot: Option<InnerNode>,
) -> Option<InnerNode> {
    match slot {
        Some(n) => Some(InnerNode { hash: n.hash, summary: summary_of_inners(children, n.hash) }),
        None => None,
    }
}

/// Whether `new` is `old` with the summary of every node set to that of the leaves below it.
pub open spec fn is_refresh_from_leaves(
    leaves: Map<hash::Hash, LeafNodes>,
    old: Map<hash::Hash, InnerNodes>,
    new: Map<hash::Hash, InnerNodes>,
) -> bool {
    &&& new.dom() == old.dom()
    &&& forall|k: hash::Hash| #[trigger]
        old.contains_key(k) ==> new[k].slots@.len() == old[k].slots@.len() && (forall|b: int|
            0 <= b < old[k].slots@.len() ==> #[trigger] new[k].slots@[b] == refreshed_from_leaves(
                leaves,
                old[k].slots@[b],
            ))
}

/// Whether `new` is `old` with the summary of every node set to that of the group below it.
pub open spec fn is_refresh_from_inners(
    children: Map<hash::Hash, InnerNodes>,
    old: Map<hash::Hash, InnerNodes>,
    new: Map<hash::Hash, InnerNodes>,
) -> bool {
    &&& new.dom() == old.dom()
    &&& forall|k: hash::Hash| #[trigger]
        old.contains_key(k) ==> new[k].slots@.len() == old[k].slots@.len() && (forall|b: int|
            0 <= b < old[k].slots@.len() ==> #[trigger] new[k].slots@[b] == refreshed_from_inners(
                children,
                old[k].slots@[b],
            ))
}

/// The summary of the subtree of leaves under hash `h`.
pub fn compute_leaves_summary(leaves: &Table<LeafNodes>, h: &hash::Hash) -> (s: Summary)
    requires
        leaves.wf(),
    ensures
        s == summary_of_leaves(leaves@, *h),
{
    if hash_is_empty(h) {
        return Summary { state: NodeState::Complete, block_presence: MultiBlockPresence::Absent };
    }
    match leaves.get(h) {
        Some(group) => Summary::from_leaves(group),
        None => Summary::incomplete(),
    }
}

/// The summary of the subtree of inner nodes under hash `h`.
pub fn compute_inners_summary(children: &Table<InnerNodes>, h: &hash::Hash) -> (s: Summary)
    requires
        children.wf(),
        inner_groups_wf(children@),
    ensures
        s == summary_of_inners(children@, *h),
{
    if hash_is_empty(h) {
        return Summary { state: NodeState::Complete, block_presence: MultiBlockPresence::Absent };
    }
    match children.get(h) {
        Some(group) => Summary::from_inners(group),
        None => Summary::incomplete(),
    }
}

/// A copy of `group` with the summary of every node set to that of the leaves stored below it.
fn refresh_group_from_leaves(group: &InnerNodes, leaves: &Table<LeafNodes>) -> (out: InnerNodes)
    requires
        group.wf(),
        leaves.wf(),
    ensures
        out.wf(),
        forall|b: int|
            0 <= b < 256 ==> #[trigger] out.slots@[b] == refreshed_from_leaves(
                leaves@,
                group.slots@[b],
            ),
{
    let mut out = InnerNodes::new();
    let mut b: usize = 0;
    while b < 256
        invariant
            group.wf(),
            leaves.wf(),
            out.wf(),
            b <= 256,
            forall|j: int|
                0 <= j < b ==> #[trigger] out.slots@[j] == refreshed_from_leaves(
                    leaves@,
                    group.slots@[j],
                ),
            forall|j: int| b <= j < 256 ==> (#[trigger] out.slots@[j]).is_none(),
        decreases 256 - b,
    {
        match group.get(b as u8) {
            Some(node) => {
                let summary = compute_leaves_summary(leaves, &node.hash);
                out.insert(b as u8, InnerNode::new(node.hash, summary));
            },
            None => {},
        }
        b = b + 1;
    }
    out
}

/// A copy of `group` with the summary of every node set to that of the group stored below it.
fn refresh_group_from_inners(group: &InnerNodes, children: &Table<InnerNodes>) -> (out: InnerNodes)
    requires
        group.wf(),
        children.wf(),
        inner_groups_wf(children@),
    ensures
        out.wf(),
        forall|b: int|
            0 <= b < 256 ==> #[trigger] out.slots@[b] == refreshed_from_inners(
                children@,
                group.slots@[b],
            ),
{
    let mut out = InnerNodes::new();
    let mut b: usize = 0;
    while b < 256
        invariant
            group.wf(),
            children.wf(),
            inner_groups_wf(children@),
            out.wf(),
            b <= 256,
            forall|j: int|
                0 <= j < b ==> #[trigger] out.slots@[j] == refreshed_from_inners(
                    children@,
                    group.slots@[j],
                ),
            forall|j: int| b <= j < 256 ==> (#[trigger] out.slots@[j]).is_none(),
        decreases 256 - b,
    {
        match group.get(b as u8) {
            Some(node) => {
                let summary = compute_inners_summary(children, &node.hash);
                out.insert(b as u8, InnerNode::new(node.hash, summary));
            },
            None => {},
        }
        b = b + 1;
    }
    out
}

/// A group keeps its hash, and stays non-empty, when only the summaries of its nodes change.
pub proof fn lemma_refreshed_group(before: InnerNodes, after: InnerNodes, k: hash::Hash)
    requires
        before.wf(),
        after.wf(),
        before.spec_hash() == k,
        !before.spec_is_empty(),
        same_inners(before.slots@, after.slots@),
    ensures
        after.spec_hash() == k,
        !after.spec_is_empty(),
{
    lemma_inners_bytes_same(before.slots@, after.slots@);
    let b = choose|b: int| 0 <= b < before.slots@.len() && !(#[trigger] before.slots@[b]).is_none();
    assert(slot_hash(before.slots@[b]) == slot_hash(after.slots@[b]));
    assert(!after.slots@[b].is_none());
}

/// Sets the summary of every node in `parents` to that of the leaves stored below it.
pub fn refresh_from_leaves(parents: &mut Table<InnerNodes>, leaves: &Table<LeafNodes>)
    requires
        old(parents).wf(),
        inner_groups_wf(old(parents)@),
        leaves.wf(),
    ensures
        final(parents).wf(),
        inner_groups_wf(final(parents)@),
        is_refresh_from_leaves(leaves@, old(parents)@, final(parents)@),
{
    let ghost start = parents@;
    let ghost keys = parents.entries@;
    let mut i: usize = 0;
    while i < parents.len()
        invariant
            parents.wf(),
            leaves.wf(),
            inner_groups_wf(start),
            start == crate::collections::table::as_map(keys),
            crate::collections::table::sorted(keys),
            parents.entries@.len() == keys.len(),
            i <= keys.len(),
            forall|j: int| 0 <= j < keys.len()
                ==> (#[trigger] parents.entries@[j]).key == keys[j].key,
            forall|j: int| i <= j < keys.len() ==> #[trigger] parents.entries@[j] == keys[j],
            forall|j: int|
                0 <= j < i ==> (#[trigger] parents.entries@[j]).value.wf() && (forall|b: int|
                    0 <= b < 256 ==> #[trigger] parents.entries@[j].value.slots@[b]
                        == refreshed_from_leaves(leaves@, keys[j].value.slots@[b])),
        decreases keys.len() - i,
    {
        proof {
            lemma_index_of(keys, i as int);
        }
        let fresh = refresh_group_from_leaves(parents.value_at(i), leaves);
        parents.set_value_at(i, fresh);
        i = i + 1;
    }
    proof {
        let after = parents.entries@;
        assert forall|k: hash::Hash| start.contains_key(k) <==> parents@.contains_key(k) by {
            if start.contains_key(k) {
                let j = crate::collections::table::index_of(keys, k);
                lemma_index_of(after, j);
            }
            if parents@.contains_key(k) {
                let j = crate::collections::table::index_of(after, k);
                lemma_index_of(keys, j);
            }
        }
        assert(parents@.dom() =~= start.dom());
        assert forall|k: hash::Hash| #[trigger] start.contains_key(k)
            implies parents@[k].slots@.len()
            == start[k].slots@.len() && (forall|b: int|
            0 <= b < start[k].slots@.len() ==> #[trigger] parents@[k].slots@[b]
                == refreshed_from_leaves(leaves@, start[k].slots@[b])) by {
            let j = crate::collections::table::index_of(keys, k);
            lemma_index_of(keys, j);
            lemma_index_of(after, j);
            assert(after[j].value.wf());
        }
        assert forall|k: hash::Hash| #[trigger] parents@.contains_key(k) implies parents@[k].wf()
            && parents@[k].spec_hash() == k && !is_empty_hash(k)
                && !parents@[k].spec_is_empty() by {
            let j = crate::collections::table::index_of(keys, k);
            lemma_index_of(keys, j);
            lemma_index_of(after, j);
            assert(start.contains_key(k));
            assert forall|b: int| 0 <= b < 256 implies slot_hash(
                #[trigger] start[k].slots@[b],
            ) == slot_hash(parents@[k].slots@[b]) by {
                assert(parents@[k].slots@[b] == refreshed_from_leaves(leaves@, start[k].slots@[b]));
            }
            lemma_refreshed_group(start[k], parents@[k], k);
        }
    }
}

/// Sets the summary of every node in `parents` to that of the group stored below it.
pub fn refresh_from_inners(parents: &mut Table<InnerNodes>, children: &Table<InnerNodes>)
    requires
        old(parents).wf(),
        inner_groups_wf(old(parents)@),
        children.wf(),
        inner_groups_wf(children@),
    ensures
        final(parents).wf(),
        inner_groups_wf(final(parents)@),
        is_refresh_from_inners(children@, old(parents)@, final(parents)@),
{
    let ghost start = parents@;
    let ghost keys = parents.entries@;
    let mut i: usize = 0;
    while i < parents.len()
        invariant
            parents.wf(),
            children.wf(),
            inner_groups_wf(children@),
            inner_groups_wf(start),
            start == crate::collections::table::as_map(keys),
            crate::collections::table::sorted(keys),
            parents.entries@.len() == keys.len(),
            i <= keys.len(),
            forall|j: int| 0 <= j < keys.len()
                ==> (#[trigger] parents.entries@[j]).key == keys[j].key,
            forall|j: int| i <= j < keys.len() ==> #[trigger] parents.entries@[j] == keys[j],
            forall|j: int|
                0 <= j < i ==> (#[trigger] parents.entries@[j]).value.wf() && (forall|b: int|
                    0 <= b < 256 ==> #[trigger] parents.entries@[j].value.slots@[b]
                        == refreshed_from_inners(children@, keys[j].value.slots@[b])),
        decreases keys.len() - i,
    {
        proof {
            lemma_index_of(keys, i as int);
        }
        let fresh = refresh_group_from_inners(parents.value_at(i), children);
        parents.set_value_at(i, fresh);
        i = i + 1;
    }
    proof {
        let after = parents.entries@;
        assert forall|k: hash::Hash| start.contains_key(k) <==> parents@.contains_key(k) by {
            if start.contains_key(k) {
                let j = crate::collections::table::index_of(keys, k);
                lemma_index_of(after, j);
            }
            if parents@.contains_key(k) {
                let j = crate::collections::table::index_of(after, k);
                lemma_index_of(keys, j);
            }
        }
        assert(parents@.dom() =~= start.dom());
        assert forall|k: hash::Hash| #[trigger] start.contains_key(k)
            implies parents@[k].slots@.len()
            == start[k].slots@.len() && (forall|b: int|
            0 <= b < start[k].slots@.len() ==> #[trigger] parents@[k].slots@[b]
                == refreshed_from_inners(children@, start[k].slots@[b])) by {
            let j = crate::collections::table::index_of(keys, k);
            lemma_index_of(keys, j);
            lemma_index_of(after, j);
            assert(after[j].value.wf());
        }
        assert forall|k: hash::Hash| #[trigger] parents@.contains_key(k) implies parents@[k].wf()
            && parents@[k].spec_hash() == k && !is_empty_hash(k)
                && !parents@[k].spec_is_empty() by {
            let j = crate::collections::table::index_of(keys, k);
            lemma_index_of(keys, j);
            lemma_index_of(after, j);
            assert(start.contains_key(k));
            assert forall|b: int| 0 <= b < 256 implies slot_hash(
                #[trigger] start[k].slots@[b],
            ) == slot_hash(parents@[k].slots@[b]) by {
                assert(parents@[k].slots@[b] == refreshed_from_inners(
                    children@,
                    start[k].slots@[b],
                ));
            }
            lemma_refreshed_group(start[k], parents@[k], k);
        }
    }
}

/// Where every node of the last inner layer carries the summary of the
/// leaves below it, a group of that layer whose summary is not incomplete
/// has a complete subtree.
pub proof fn lemma_sound2(
    leaves: Map<hash::Hash, LeafNodes>,
    n2: Map<hash::Hash, InnerNodes>,
    h: hash::Hash,
)
    requires
        consistent_with_leaves(leaves, n2),
        summary_of_inners(n2, h).state != NodeState::Incomplete,
    ensures
        complete2(n2, leaves, h),
{
    if !is_empty_hash(h) {
        assert(n2.contains_key(h));
        let slots = n2[h].slots@;
        assert(!has_incomplete(slots));
        assert forall|b: int| 0 <= b < slots.len() && (#[trigger] slots[b]).is_some()
            implies leaf_complete(
            leaves,
            slots[b].unwrap().hash,
        ) by {
            let n = slots[b].unwrap();
            assert(n2[h].slots@[b].is_some());
            if !n.spec_is_empty() {
                assert(n.summary.state != NodeState::Incomplete);
            }
        }
    }
}

pub proof fn lemma_sound1(
    leaves: Map<hash::Hash, LeafNodes>,
    n2: Map<hash::Hash, InnerNodes>,
    n1: Map<hash::Hash, InnerNodes>,
    h: hash::Hash,
)
    requires
        consistent_with_leaves(leaves, n2),
        consistent_with_inners(n2, n1),
        summary_of_inners(n1, h).state != NodeState::Incomplete,
    ensures
        complete1(n1, n2, leaves, h),
{
    if !is_empty_hash(h) {
        assert(n1.contains_key(h));
        let slots = n1[h].slots@;
        assert(!has_incomplete(slots));
        assert forall|b: int| 0 <= b < slots.len() && (#[trigger] slots[b]).is_some()
            implies complete2(
            n2,
            leaves,
            slots[b].unwrap().hash,
        ) by {
            let n = slots[b].unwrap();
            assert(n1[h].slots@[b].is_some());
            if !n.spec_is_empty() {
                assert(n.summary.state != NodeState::Incomplete);
                lemma_sound2(leaves, n2, n.hash);
            }
        }
    }
}

/// Where every node carries the summary of what is stored below it, a
/// snapshot whose first group has a summary that is not incomplete is complete.
pub proof fn lemma_sound0(
    leaves: Map<hash::Hash, LeafNodes>,
    n2: Map<hash::Hash, InnerNodes>,
    n1: Map<hash::Hash, InnerNodes>,
    n0: Map<hash::Hash, InnerNodes>,
    h: hash::Hash,
)
    requires
        consistent_with_leaves(leaves, n2),
        consistent_with_inners(n2, n1),
        consistent_with_inners(n1, n0),
        summary_of_inners(n0, h).state != NodeState::Incomplete,
    ensures
        complete0(n0, n1, n2, leaves, h),
{
    if !is_empty_hash(h) {
        assert(n0.contains_key(h));
        let slots = n0[h].slots@;
        assert(!has_incomplete(slots));
        assert forall|b: int| 0 <= b < slots.len() && (#[trigger] slots[b]).is_some()
            implies complete1(
            n1,
            n2,
            leaves,
            slots[b].unwrap().hash,
        ) by {
            let n = slots[b].unwrap();
            assert(n0[h].slots@[b].is_some());
            if !n.spec_is_empty() {
                assert(n.summary.state != NodeState::Incomplete);
                lemma_sound1(leaves, n2, n1, n.hash);
            }
        }
    }
}

/// A table whose nodes only got new summaries holds the same groups with the same hashes.
pub proof fn lemma_refresh_extends_leaves(
    leaves: Map<hash::Hash, LeafNodes>,
    old: Map<hash::Hash, InnerNodes>,
    new: Map<hash::Hash, InnerNodes>,
)
    requires
        is_refresh_from_leaves(leaves, old, new),
    ensures
        inner_extends(old, new),
        inner_extends(new, old),
{
    assert forall|k: hash::Hash| #[trigger] old.contains_key(k) implies new.contains_key(k)
        && same_inners(old[k].slots@, new[k].slots@) && same_inners(
        new[k].slots@,
        old[k].slots@,
    ) by {
        assert(new.dom().contains(k));
        assert forall|b: int| 0 <= b < old[k].slots@.len() implies slot_hash(
            #[trigger] old[k].slots@[b],
        ) == slot_hash(new[k].slots@[b]) by {
            assert(new[k].slots@[b] == refreshed_from_leaves(leaves, old[k].slots@[b]));
        }
    }
    assert forall|k: hash::Hash| #[trigger] new.contains_key(k) implies old.contains_key(k)
        && same_inners(new[k].slots@, old[k].slots@) by {
        assert(old.dom().contains(k));
    }
}

pub proof fn lemma_refresh_extends_inners(
    children: Map<hash::Hash, InnerNodes>,
    old: Map<hash::Hash, InnerNodes>,
    new: Map<hash::Hash, InnerNodes>,
)
    requires
        is_refresh_from_inners(children, old, new),
    ensures
        inner_extends(old, new),
        inner_extends(new, old),
{
    assert forall|k: hash::Hash| #[trigger] old.contains_key(k) implies new.contains_key(k)
        && same_inners(old[k].slots@, new[k].slots@) && same_inners(
        new[k].slots@,
        old[k].slots@,
    ) by {
        assert(new.dom().contains(k));
        assert forall|b: int| 0 <= b < old[k].slots@.len() implies slot_hash(
            #[trigger] old[k].slots@[b],
        ) == slot_hash(new[k].slots@[b]) by {
            assert(new[k].slots@[b] == refreshed_from_inners(children, old[k].slots@[b]));
        }
    }
    assert forall|k: hash::Hash| #[trigger] new.contains_key(k) implies old.contains_key(k)
        && same_inners(new[k].slots@, old[k].slots@) by {
        assert(old.dom().contains(k));
    }
}

/// The summary of a root node after a refresh: the presence is that of
/// the group below it, and a snapshot that was incomplete takes the state
/// of that group.
pub open spec fn refreshed_root_summary(before: Summary, below: Summary) -> Summary {
    Summary {
        state: if before.state == NodeState::Incomplete {
            below.state
        } else {
            before.state
        },
        block_presence: below.block_presence,
    }
}

/// Whether every node of `parents` carries the summary of the leaves stored below it.
pub open spec fn consistent_with_leaves(
    leaves: Map<hash::Hash, LeafNodes>,
    parents: Map<hash::Hash, InnerNodes>,
) -> bool {
    forall|k: hash::Hash, b: int|
        parents.contains_key(k) && 0 <= b < parents[k].slots@.len() && (
        #[trigger] parents[k].slots@[b]).is_some() ==> parents[k].slots@[b].unwrap().summary
            == summary_of_leaves(leaves, parents[k].slots@[b].unwrap().hash)
}

/// Whether every node of `parents` carries the summary of the group stored below it.
pub open spec fn consistent_with_inners(
    children: Map<hash::Hash, InnerNodes>,
    parents: Map<hash::Hash, InnerNodes>,
) -> bool {
    forall|k: hash::Hash, b: int|
        parents.contains_key(k) && 0 <= b < parents[k].slots@.len() && (
        #[trigger] parents[k].slots@[b]).is_some() ==> parents[k].slots@[b].unwrap().summary
            == summary_of_inners(children, parents[k].slots@[b].unwrap().hash)
}

pub proof fn lemma_refresh_consistent_leaves(
    leaves: Map<hash::Hash, LeafNodes>,
    old: Map<hash::Hash, InnerNodes>,
    new: Map<hash::Hash, InnerNodes>,
)
    requires
        is_refresh_from_leaves(leaves, old, new),
    ensures
        consistent_with_leaves(leaves, new),
{
    assert forall|k: hash::Hash, b: int|
        new.contains_key(k) && 0 <= b < new[k].slots@.len() && (
        #[trigger] new[k].slots@[b]).is_some() implies new[k].slots@[b].unwrap().summary
        == summary_of_leaves(leaves, new[k].slots@[b].unwrap().hash) by {
        assert(old.dom().contains(k));
        assert(old.contains_key(k));
        assert(new[k].slots@[b] == refreshed_from_leaves(leaves, old[k].slots@[b]));
    }
}

pub proof fn lemma_refresh_consistent_inners(
    children: Map<hash::Hash, InnerNodes>,
    old: Map<hash::Hash, InnerNodes>,
    new: Map<hash::Hash, InnerNodes>,
)
    requires
        is_refresh_from_inners(children, old, new),
    ensures
        consistent_with_inners(children, new),
{
    assert forall|k: hash::Hash, b: int|
        new.contains_key(k) && 0 <= b < new[k].slots@.len() && (
        #[trigger] new[k].slots@[b]).is_some() implies new[k].slots@[b].unwrap().summary
        == summary_of_inners(children, new[k].slots@[b].unwrap().hash) by {
        assert(old.dom().contains(k));
        assert(old.contains_key(k));
        assert(new[k].slots@[b] == refreshed_from_inners(children, old[k].slots@[b]));
    }
}

} // verus!
