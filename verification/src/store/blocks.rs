//! The block store, and what changes in the index when a block comes or goes.

use crate::collections::table::{index_of, lemma_index_of, Entry, Table};
use crate::crypto::hash;
use crate::crypto::sign::PublicKey;
use crate::error::Error;
use crate::protocol::block::{Block, BlockId, BLOCK_NONCE_SIZE, BLOCK_SIZE};
use crate::protocol::node::{
    leaves_name, leaves_with_presence, same_leaves, LeafNodes,
};
use crate::protocol::root_node::RootNode;
use crate::protocol::summary::SingleBlockPresence;
use crate::store::model::{is_empty_hash, leaf_extends, leaf_groups_wf};
use crate::store::Store;
use vstd::prelude::*;

verus! {

/// How far the blocks that the index refers to have been received.
#[derive(Clone, Copy, Debug, PartialEq, Eq, Structural)]
pub struct Progress {
    /// Number of blocks in the block store.
    pub value: u64,
    /// Number of leaf nodes in the index.
    pub total: u64,
}

/// Whether a leaf of a group of `m` refers to `id`.
pub open spec fn leaf_names(m: Map<hash::Hash, LeafNodes>, id: BlockId) -> bool {
    exists|k: hash::Hash| #[trigger] m.contains_key(k) && leaves_name(m[k].nodes@, id)
}

/// Whether `new` is `old` with the presence of every leaf that refers to `id` set to `presence`.
pub open spec fn is_presence_update(
    old: Map<hash::Hash, LeafNodes>,
    new: Map<hash::Hash, LeafNodes>,
    id: BlockId,
    presence: SingleBlockPresence,
) -> bool {
    &&& new.dom() == old.dom()
    &&& forall|k: hash::Hash| #[trigger]
        old.contains_key(k) ==> new[k].nodes@ == leaves_with_presence(old[k].nodes@, id, presence)
}

/// Number of leaves in the first `n` groups of `entries`.
pub open spec fn leaf_total(entries: Seq<Entry<LeafNodes>>, n: int) -> nat
    decreases n,
{
    if n <= 0 {
        0
    } else {
        leaf_total(entries, n - 1) + entries[n - 1].value.nodes@.len()
    }
}

/// The writers of the first `n` root nodes of `roots` whose snapshots refer to `id`, in order.
pub open spec fn writers_referring(store: &Store, id: BlockId, n: int) -> Seq<PublicKey>
    decreases n,
{
    if n <= 0 {
        Seq::<PublicKey>::empty()
    } else if store.spec_refers(store.roots@[n - 1].proof.hash, id) {
        writers_referring(store, id, n - 1).push(store.roots@[n - 1].proof.writer_id)
    } else {
        writers_referring(store, id, n - 1)
    }
}

/// Sets the presence of every leaf of `leaves` that refers to `id`.
/// Returns whether there is such a leaf.
pub fn set_presence_in(leaves: &mut Table<LeafNodes>, id: &BlockId, presence: SingleBlockPresence) -> (r:
    bool)
    requires
        old(leaves).wf(),
        leaf_groups_wf(old(leaves)@),
    ensures
        final(leaves).wf(),
        leaf_groups_wf(final(leaves)@),
        is_presence_update(old(leaves)@, final(leaves)@, *id, presence),
        leaf_extends(old(leaves)@, final(leaves)@),
        r == leaf_names(old(leaves)@, *id),
{
    let ghost start = leaves@;
    let ghost keys = leaves.entries@;
    let mut found = false;
    let mut i: usize = 0;
    while i < leaves.len()
        invariant
            leaves.wf(),
            leaf_groups_wf(start),
            start == crate::collections::table::as_map(keys),
            crate::collections::table::sorted(keys),
            leaves.entries@.len() == keys.len(),
            i <= keys.len(),
            forall|j: int| 0 <= j < keys.len()
                ==> (#[trigger] leaves.entries@[j]).key == keys[j].key,
            forall|j: int| i <= j < keys.len() ==> #[trigger] leaves.entries@[j] == keys[j],
            forall|j: int|
                0 <= j < i ==> (#[trigger] leaves.entries@[j]).value.nodes@ == leaves_with_presence(
                    keys[j].value.nodes@,
                    *id,
                    presence,
                ) && leaves.entries@[j].value.wf() && leaves.entries@[j].value.spec_hash()
                    == keys[j].value.spec_hash(),
            found == (exists|j: int| 0 <= j < i
                && leaves_name((#[trigger] keys[j]).value.nodes@, *id)),
        decreases keys.len() - i,
    {
        proof {
            lemma_index_of(keys, i as int);
        }
        let mut group = leaves.value_at(i).duplicate();
        assert(group.wf());
        let hit = group.set_presence(id, presence);
        leaves.set_value_at(i, group);
        proof {
            if hit {
                assert(leaves_name(keys[i as int].value.nodes@, *id));
            } else if !found && (exists|j: int|
                0 <= j < i + 1 && leaves_name((#[trigger] keys[j]).value.nodes@, *id)) {
                let j = choose|j: int|
                    0 <= j < i + 1 && leaves_name((#[trigger] keys[j]).value.nodes@, *id);
                assert(j < i);
            }
        }
        found = found || hit;
        i = i + 1;
    }
    proof {
        let after = leaves.entries@;
        assert forall|k: hash::Hash| start.contains_key(k) <==> leaves@.contains_key(k) by {
            if start.contains_key(k) {
                let j = index_of(keys, k);
                lemma_index_of(after, j);
            }
            if leaves@.contains_key(k) {
                let j = index_of(after, k);
                lemma_index_of(keys, j);
            }
        }
        assert(leaves@.dom() =~= start.dom());
        assert forall|k: hash::Hash| #[trigger] start.contains_key(k) implies leaves@[k].nodes@
            == leaves_with_presence(start[k].nodes@, *id, presence) && leaves@[k].wf()
            && leaves@[k].spec_hash() == k && same_leaves(start[k].nodes@, leaves@[k].nodes@) by {
            let j = index_of(keys, k);
            lemma_index_of(keys, j);
            lemma_index_of(after, j);
        }
        assert forall|k: hash::Hash| #[trigger] leaves@.contains_key(k) implies leaves@[k].wf()
            && leaves@[k].spec_hash() == k && !is_empty_hash(k) && leaves@[k].nodes@.len() > 0 by {
            assert(start.contains_key(k));
        }
        if found {
            let j = choose|j: int| 0 <= j < i
                && leaves_name((#[trigger] keys[j]).value.nodes@, *id);
            lemma_index_of(keys, j);
            assert(start.contains_key(keys[j].key));
        }
        if leaf_names(start, *id) {
            let k = choose|k: hash::Hash| #[trigger] start.contains_key(k)
                && leaves_name(start[k].nodes@, *id);
            let j = index_of(keys, k);
            lemma_index_of(keys, j);
            assert(leaves_name(keys[j].value.nodes@, *id));
        }
    }
    found
}

impl Store {
    /// Number of blocks in the block store.
    pub fn count_blocks(&self) -> (n: usize)
        ensures
            n == self.blocks.entries@.len(),
    {
        self.blocks.len()
    }

    /// Checks whether the block exists in the store.
    pub fn block_exists(&self, id: &BlockId) -> (r: bool)
        requires
            self.wf(),
        ensures
            r == self.blocks@.contains_key(id.hash),
    {
        self.blocks.contains_key(&id.hash)
    }

    /// Reads a block from the store.
    pub fn read_block(&self, id: &BlockId) -> (r: Result<&Block, Error>)
        requires
            self.wf(),
        ensures
            r.is_ok() <==> self.blocks@.contains_key(id.hash),
            r.is_err() ==> r.unwrap_err() == Error::BlockNotFound,
            r.is_ok() ==> *r.unwrap() == self.blocks@[id.hash] && r.unwrap().id == *id
                && r.unwrap().wf(),
    {
        match self.blocks.get(&id.hash) {
            Some(block) => Ok(block),
            None => Err(Error::BlockNotFound),
        }
    }

    /// Whether a stored leaf node refers to block `id`.
    pub open spec fn spec_is_named(&self, id: BlockId) -> bool {
        leaf_names(self.leaves@, id)
    }

    /// The writers of the snapshots that refer to block `id`, in the order of the snapshots.
    pub fn writers_referring_to(&self, id: &BlockId) -> (out: Vec<PublicKey>)
        requires
            self.wf(),
        ensures
            out@ == writers_referring(self, *id, self.roots@.len() as int),
    {
        let mut out: Vec<PublicKey> = Vec::new();
        let mut i: usize = 0;
        while i < self.roots.len()
            invariant
                self.wf(),
                i <= self.roots@.len(),
                out@ == writers_referring(self, *id, i as int),
            decreases self.roots@.len() - i,
        {
            let root = &self.roots[i];
            if self.refers(&root.proof.hash, id) {
                out.push(root.proof.writer_id);
            }
            i = i + 1;
        }
        out
    }

    /// Number of blocks in the store and number of leaf nodes in the index.
    pub fn sync_progress(&self) -> (p: Progress)
        requires
            self.wf(),
        ensures
            p.value == crate::store::walk::saturate(self.blocks.entries@.len() as nat),
            p.total == crate::store::walk::saturate(
                leaf_total(self.leaves.entries@, self.leaves.entries@.len() as int),
            ),
    {
        let mut total: u64 = 0;
        let mut i: usize = 0;
        while i < self.leaves.len()
            invariant
                i <= self.leaves.entries@.len(),
                total == crate::store::walk::saturate(leaf_total(self.leaves.entries@, i as int)),
            decreases self.leaves.entries@.len() - i,
        {
            let len = self.leaves.value_at(i).len() as u64;
            total = crate::store::walk::saturating_sum(total, len);
            i = i + 1;
        }
        Progress { value: self.blocks.len() as u64, total }
    }
}

impl Store {
    /// Sets the presence of every stored leaf that refers to `id`. Returns
    /// whether there is such a leaf.
    pub fn set_block_presence(&mut self, id: &BlockId, presence: SingleBlockPresence) -> (r: bool)
        requires
            old(self).wf(),
        ensures
            final(self).wf(),
            r == old(self).spec_is_named(*id),
            is_presence_update(old(self).leaves@, final(self).leaves@, *id, presence),
            final(self).roots == old(self).roots,
            final(self).next_snapshot_id == old(self).next_snapshot_id,
            final(self).inners0 == old(self).inners0,
            final(self).inners1 == old(self).inners1,
            final(self).inners2 == old(self).inners2,
            final(self).blocks == old(self).blocks,
            final(self).unreachable_blocks == old(self).unreachable_blocks,
            forall|h: hash::Hash| old(self).spec_complete(h)
                ==> #[trigger] final(self).spec_complete(h),
    {
        let ghost start = *self;
        let r = set_presence_in(&mut self.leaves, id, presence);
        proof {
            self.lemma_extends_wf(&start);
        }
        r
    }

    /// What `write_received_block` fails with, if it fails.
    pub open spec fn spec_received_block_error(
        &self,
        content: Seq<u8>,
        nonce: Seq<u8>,
        expected: BlockId,
    ) -> Option<Error> {
        if content.len() != BLOCK_SIZE || nonce.len() != BLOCK_NONCE_SIZE {
            Some(Error::WrongBlockLength)
        } else if BlockId::spec_from_content(content) != expected {
            Some(Error::WrongBlockId)
        } else if !self.spec_is_named(expected) {
            Some(Error::BlockNotReferenced)
        } else {
            None
        }
    }

    /// Writes a block received from a remote replica to the block store,
    /// marks the leaves that refer to it as present and brings the
    /// summaries up to date.
    ///
    /// The block is rejected if its content does not hash to `expected`,
    /// the id that it was asked for by, and if no leaf node of the index
    /// refers to it. Returns the writers of the snapshots that refer to
    /// the block.
    pub fn write_received_block(&mut self, content: Vec<u8>, nonce: Vec<u8>, expected: &BlockId) -> (r:
        Result<Vec<PublicKey>, Error>)
        requires
            old(self).wf(),
        ensures
            final(self).wf(),
            r.is_err() <==> old(self).spec_received_block_error(
                content@,
                nonce@,
                *expected,
            ).is_some(),
            r.is_err() ==> r.unwrap_err() == old(self).spec_received_block_error(
                content@,
                nonce@,
                *expected,
            ).unwrap() && *final(self) == *old(self),
            r.is_ok() ==> {
                &&& r.unwrap()@
                    == writers_referring(old(self), *expected, old(self).roots@.len() as int)
                &&& final(self).blocks@.dom() == old(self).blocks@.dom().insert(expected.hash)
                &&& final(self).blocks@[expected.hash].content@ == content@
                &&& final(self).blocks@[expected.hash].nonce@ == nonce@
                &&& forall|k: hash::Hash|
                    k != expected.hash && #[trigger] old(self).blocks@.contains_key(k)
                        ==> final(self).blocks@[k] == old(self).blocks@[k]
                &&& is_presence_update(
                    old(self).leaves@,
                    final(self).leaves@,
                    *expected,
                    SingleBlockPresence::Present,
                )
                &&& final(self).inners0@.dom() == old(self).inners0@.dom()
                &&& final(self).inners1@.dom() == old(self).inners1@.dom()
                &&& final(self).inners2@.dom() == old(self).inners2@.dom()
                &&& crate::store::model::inner_extends(old(self).inners0@, final(self).inners0@)
                &&& crate::store::model::inner_extends(old(self).inners1@, final(self).inners1@)
                &&& crate::store::model::inner_extends(old(self).inners2@, final(self).inners2@)
                &&& final(self).summaries_consistent()
                &&& final(self).roots_refreshed(old(self).roots@)
                &&& final(self).next_snapshot_id == old(self).next_snapshot_id
                &&& final(self).blocks_accounted()
            },
    {
        let block = match Block::new(content, nonce) {
            None => {
                return Err(Error::WrongBlockLength);
            },
            Some(block) => block,
        };
        if block.id != *expected {
            return Err(Error::WrongBlockId);
        }
        let writers = self.writers_referring_to(expected);
        let ghost start = *self;
        // Nothing is written where no leaf refers to the block.
        if !self.names(expected) {
            return Err(Error::BlockNotReferenced);
        }
        self.set_block_presence(expected, SingleBlockPresence::Present);
        self.blocks.insert(expected.hash, block);
        proof {
            assert(self.blocks@.dom() =~= start.blocks@.dom().insert(expected.hash));
            assert(self.wf());
        }
        let ghost mid = *self;
        self.update_summaries();
        self.mark_unreachable_blocks();
        proof {
            assert(self.inners0@.dom() == start.inners0@.dom());
        }
        Ok(writers)
    }

    /// Whether a stored leaf node refers to block `id`.
    pub fn names(&self, id: &BlockId) -> (r: bool)
        requires
            self.wf(),
        ensures
            r == self.spec_is_named(*id),
    {
        let mut i: usize = 0;
        while i < self.leaves.len()
            invariant
                self.wf(),
                i <= self.leaves.entries@.len(),
                forall|j: int|
                    0 <= j < i
                        ==> !leaves_name((#[trigger] self.leaves.entries@[j]).value.nodes@, *id),
            decreases self.leaves.entries@.len() - i,
        {
            let key = self.leaves.key_at(i);
            let group = self.leaves.value_at(i);
            let mut j: usize = 0;
            while j < group.len()
                invariant
                    j <= group.nodes@.len(),
                    self.leaves@.contains_key(key),
                    self.leaves@[key] == *group,
                    forall|c: int| 0 <= c < j ==> (#[trigger] group.nodes@[c]).block_id != *id,
                decreases group.nodes@.len() - j,
            {
                if group.get_at(j).block_id == *id {
                    assert(leaves_name(group.nodes@, *id));
                    return true;
                }
                j = j + 1;
            }
            i = i + 1;
        }
        proof {
            if self.spec_is_named(*id) {
                let k = choose|k: hash::Hash| #[trigger]
                    self.leaves@.contains_key(k) && leaves_name(self.leaves@[k].nodes@, *id);
                let j = index_of(self.leaves.entries@, k);
                lemma_index_of(self.leaves.entries@, j);
                assert(false);
            }
        }
        false
    }

    /// Writes a block that was made locally to the block store.
    pub fn write_block(&mut self, block: Block)
        requires
            old(self).wf(),
            block.wf(),
        ensures
            final(self).wf(),
            final(self).blocks@ == old(self).blocks@.insert(block.id.hash, block),
            final(self).roots == old(self).roots,
            final(self).next_snapshot_id == old(self).next_snapshot_id,
            final(self).inners0 == old(self).inners0,
            final(self).inners1 == old(self).inners1,
            final(self).inners2 == old(self).inners2,
            final(self).leaves == old(self).leaves,
            final(self).blocks_accounted(),
    {
        self.blocks.insert(block.id.hash, block);
        self.mark_unreachable_blocks();
    }

    /// Evicts a block that was not used for a long time: it is removed
    /// from the store and marked as expired in the index. Peers are still
    /// told that the block is here; it is asked for again when it is needed.
    pub fn expire_block(&mut self, id: &BlockId)
        requires
            old(self).wf(),
        ensures
            final(self).wf(),
            final(self).blocks@ == old(self).blocks@.remove(id.hash),
            is_presence_update(
                old(self).leaves@,
                final(self).leaves@,
                *id,
                SingleBlockPresence::Expired,
            ),
            final(self).inners0@.dom() == old(self).inners0@.dom(),
            final(self).inners1@.dom() == old(self).inners1@.dom(),
            final(self).inners2@.dom() == old(self).inners2@.dom(),
            crate::store::model::inner_extends(old(self).inners0@, final(self).inners0@),
            crate::store::model::inner_extends(old(self).inners1@, final(self).inners1@),
            crate::store::model::inner_extends(old(self).inners2@, final(self).inners2@),
            final(self).summaries_consistent(),
            final(self).roots_refreshed(old(self).roots@),
            final(self).next_snapshot_id == old(self).next_snapshot_id,
            final(self).blocks_accounted(),
    {
        let ghost start = *self;
        self.blocks.remove(&id.hash);
        self.set_block_presence(id, SingleBlockPresence::Expired);
        self.update_summaries();
        self.mark_unreachable_blocks();
        proof {
            assert(self.inners0@.dom() == start.inners0@.dom());
        }
    }

    /// Removes the specified block from the store, marks it as missing in
    /// the index and brings the summaries up to date.
    pub fn remove_block(&mut self, id: &BlockId)
        requires
            old(self).wf(),
        ensures
            final(self).wf(),
            final(self).blocks@ == old(self).blocks@.remove(id.hash),
            is_presence_update(
                old(self).leaves@,
                final(self).leaves@,
                *id,
                SingleBlockPresence::Missing,
            ),
            final(self).inners0@.dom() == old(self).inners0@.dom(),
            final(self).inners1@.dom() == old(self).inners1@.dom(),
            final(self).inners2@.dom() == old(self).inners2@.dom(),
            crate::store::model::inner_extends(old(self).inners0@, final(self).inners0@),
            crate::store::model::inner_extends(old(self).inners1@, final(self).inners1@),
            crate::store::model::inner_extends(old(self).inners2@, final(self).inners2@),
            final(self).summaries_consistent(),
            final(self).roots_refreshed(old(self).roots@),
            final(self).next_snapshot_id == old(self).next_snapshot_id,
            final(self).blocks_accounted(),
    {
        let ghost start = *self;
        self.blocks.remove(&id.hash);
        self.set_block_presence(id, SingleBlockPresence::Missing);
        self.update_summaries();
        self.mark_unreachable_blocks();
        proof {
            assert(self.inners0@.dom() == start.inners0@.dom());
        }
    }
}

/// The leaves `nodes` with every leaf that refers to one of the first `n`
/// blocks of `list` marked as missing.
pub open spec fn cleared(nodes: Seq<crate::protocol::node::LeafNode>, list: Seq<BlockId>, n: int) -> Seq<
    crate::protocol::node::LeafNode,
> {
    Seq::new(
        nodes.len(),
        |j: int|
            if exists|m: int| 0 <= m < n && #[trigger] list[m] == nodes[j].block_id {
                crate::protocol::node::LeafNode {
                    block_presence: SingleBlockPresence::Missing,
                    ..nodes[j]
                }
            } else {
                nodes[j]
            },
    )
}

/// Whether one of the first `n` blocks of `list` is `id`.
pub open spec fn listed_before(list: Seq<BlockId>, n: int, id: BlockId) -> bool {
    exists|m: int| 0 <= m < n && #[trigger] list[m] == id
}

/// Two lists that name the same blocks, once each, are of the same length.
pub proof fn lemma_same_listing(a: Seq<BlockId>, b: Seq<BlockId>)
    requires
        forall|i: int, j: int| 0 <= i < j < a.len() ==> #[trigger] a[i] != #[trigger] a[j],
        forall|i: int, j: int| 0 <= i < j < b.len() ==> #[trigger] b[i] != #[trigger] b[j],
        forall|id: BlockId|
            #![trigger listed_before(a, a.len() as int, id)]
            listed_before(a, a.len() as int, id) <==> listed_before(b, b.len() as int, id),
    ensures
        a.len() == b.len(),
{
    assert(a.no_duplicates()) by {
        assert forall|i: int, j: int| 0 <= i < a.len() && 0 <= j < a.len() && i != j implies a[i]
            != a[j] by {
            if i < j {
                assert(a[i] != a[j]);
            } else {
                assert(a[j] != a[i]);
            }
        }
    }
    assert(b.no_duplicates()) by {
        assert forall|i: int, j: int| 0 <= i < b.len() && 0 <= j < b.len() && i != j implies b[i]
            != b[j] by {
            if i < j {
                assert(b[i] != b[j]);
            } else {
                assert(b[j] != b[i]);
            }
        }
    }
    assert forall|id: BlockId| a.to_set().contains(id) == b.to_set().contains(id) by {
        if a.to_set().contains(id) {
            let m = choose|m: int| 0 <= m < a.len() && a[m] == id;
            assert(listed_before(a, a.len() as int, id));
            let n = choose|n: int| 0 <= n < b.len() && #[trigger] b[n] == id;
            assert(b.contains(id));
        }
        if b.to_set().contains(id) {
            let n = choose|n: int| 0 <= n < b.len() && b[n] == id;
            assert(listed_before(b, b.len() as int, id));
            assert(listed_before(a, a.len() as int, id));
            let m = choose|m: int| 0 <= m < a.len() && #[trigger] a[m] == id;
            assert(a.contains(id));
        }
    }
    assert(a.to_set() =~= b.to_set());
    a.unique_seq_to_set();
    b.unique_seq_to_set();
}

impl Store {
    /// Where every stored block is referred to by a leaf of an approved
    /// snapshot, no block is listed as unreachable.
    pub proof fn lemma_nothing_listed(&self)
        requires
            self.blocks_accounted(),
            forall|k: hash::Hash| #[trigger]
                self.blocks@.contains_key(k) ==> self.spec_is_referenced(BlockId { hash: k }),
        ensures
            self.unreachable_blocks@.len() == 0,
    {
        if self.unreachable_blocks@.len() > 0 {
            let id = self.unreachable_blocks@[0];
            assert(self.spec_is_listed(id));
            assert(self.blocks@.contains_key(id.hash));
            assert(id == BlockId { hash: id.hash });
        }
    }

    /// Two exact lists of the unreachable blocks of stores with the same
    /// blocks and the same references are of the same length.
    pub proof fn lemma_lists_agree(&self, other: &Store)
        requires
            self.blocks_accounted(),
            other.blocks_accounted(),
            self.blocks@ == other.blocks@,
            forall|id: BlockId| self.spec_is_referenced(id) == other.spec_is_referenced(id),
        ensures
            self.unreachable_blocks@.len() == other.unreachable_blocks@.len(),
    {
        let a = self.unreachable_blocks@;
        let b = other.unreachable_blocks@;
        assert forall|id: BlockId|
            #![trigger listed_before(a, a.len() as int, id)]
            listed_before(a, a.len() as int, id) <==> listed_before(b, b.len() as int, id) by {
            assert(self.spec_is_listed(id) <==> other.spec_is_listed(id));
            if listed_before(a, a.len() as int, id) {
                let m = choose|m: int| 0 <= m < a.len() && #[trigger] a[m] == id;
                assert(self.unreachable_blocks@[m] == id);
                assert(self.spec_is_listed(id));
                let n = choose|n: int|
                    0 <= n < other.unreachable_blocks@.len()
                        && #[trigger] other.unreachable_blocks@[n] == id;
                assert(b[n] == id);
            }
            if listed_before(b, b.len() as int, id) {
                let n = choose|n: int| 0 <= n < b.len() && #[trigger] b[n] == id;
                assert(other.unreachable_blocks@[n] == id);
                assert(other.spec_is_listed(id));
                let m = choose|m: int|
                    0 <= m < self.unreachable_blocks@.len()
                        && #[trigger] self.unreachable_blocks@[m] == id;
                assert(a[m] == id);
            }
        }
        lemma_same_listing(a, b);
    }
}

impl Store {
    /// Removes the blocks that no leaf of an approved snapshot refers to,
    /// marks them as missing in the index, so that they are asked for
    /// again if they are needed again, and brings the summaries up to
    /// date. Returns how many blocks were removed: as many as were listed
    /// as unreachable, if the list was exact. Afterwards none is listed.
    pub fn remove_unreachable_blocks(&mut self) -> (count: usize)
        requires
            old(self).wf(),
        ensures
            final(self).wf(),
            final(self).blocks_accounted(),
            forall|k: hash::Hash|
                #![trigger final(self).blocks@.contains_key(k)]
                final(self).blocks@.contains_key(k)
                    <==> (old(self).blocks@.contains_key(k)
                    && old(self).spec_is_referenced(BlockId { hash: k })),
            forall|k: hash::Hash| #[trigger]
                final(self).blocks@.contains_key(k)
                    ==> final(self).blocks@[k] == old(self).blocks@[k],
            count + final(self).blocks.entries@.len() == old(self).blocks.entries@.len(),
            final(self).leaves@.dom() == old(self).leaves@.dom(),
            forall|k: hash::Hash, j: int|
                old(self).leaves@.contains_key(k) && 0 <= j < old(self).leaves@[k].nodes@.len()
                    ==> #[trigger] final(self).leaves@[k].nodes@[j] == ({
                    let leaf = old(self).leaves@[k].nodes@[j];
                    if old(self).blocks@.contains_key(leaf.block_id.hash)
                        && !old(self).spec_is_referenced(leaf.block_id) {
                        crate::protocol::node::LeafNode {
                            block_presence: SingleBlockPresence::Missing,
                            ..leaf
                        }
                    } else {
                        leaf
                    }
                }),
            final(self).inners0@.dom() == old(self).inners0@.dom(),
            final(self).inners1@.dom() == old(self).inners1@.dom(),
            final(self).inners2@.dom() == old(self).inners2@.dom(),
            crate::store::model::inner_extends(old(self).inners0@, final(self).inners0@),
            crate::store::model::inner_extends(old(self).inners1@, final(self).inners1@),
            crate::store::model::inner_extends(old(self).inners2@, final(self).inners2@),
            final(self).summaries_consistent(),
            final(self).roots_refreshed(old(self).roots@),
            final(self).next_snapshot_id == old(self).next_snapshot_id,
            final(self).unreachable_blocks@.len() == 0,
            old(self).blocks_accounted() ==> count == old(self).unreachable_blocks@.len(),
    {
        self.mark_unreachable_blocks();
        let ghost marked = *self;
        let count = self.sweep_listed_blocks();
        proof {
            assert forall|id: BlockId| marked.spec_is_referenced(id)
                == old(self).spec_is_referenced(id) by {}
            if old(self).blocks_accounted() {
                marked.lemma_lists_agree(old(self));
            }
            self.lemma_swept(&marked);
        }
        count
    }

    /// After the blocks that were listed were removed, none is listed.
    proof fn lemma_swept(&self, marked: &Store)
        requires
            self.blocks_accounted(),
            forall|k: hash::Hash|
                #![trigger self.blocks@.contains_key(k)]
                self.blocks@.contains_key(k) ==> marked.spec_is_referenced(BlockId { hash: k }),
            self.leaves@.dom() == marked.leaves@.dom(),
            forall|k: hash::Hash| #[trigger]
                marked.leaves@.contains_key(k) ==> self.leaves@[k].nodes@.len()
                    == marked.leaves@[k].nodes@.len(),
            forall|k: hash::Hash, j: int|
                marked.leaves@.contains_key(k) && 0 <= j < marked.leaves@[k].nodes@.len() ==> (
                #[trigger] self.leaves@[k].nodes@[j]).block_id
                    == marked.leaves@[k].nodes@[j].block_id && self.leaves@[k].nodes@[j].locator
                    == marked.leaves@[k].nodes@[j].locator,
            crate::store::model::inner_extends(marked.inners0@, self.inners0@),
            crate::store::model::inner_extends(marked.inners1@, self.inners1@),
            crate::store::model::inner_extends(marked.inners2@, self.inners2@),
            self.roots_refreshed(marked.roots@),
        ensures
            self.unreachable_blocks@.len() == 0,
    {
        assert(crate::store::model::leaf_extends(marked.leaves@, self.leaves@)) by {
            assert forall|k: hash::Hash| #[trigger] marked.leaves@.contains_key(k)
                implies self.leaves@.contains_key(k) && crate::protocol::node::same_leaves(
                marked.leaves@[k].nodes@,
                self.leaves@[k].nodes@,
            ) by {
                assert(self.leaves@.dom().contains(k));
                assert forall|j: int| 0 <= j < marked.leaves@[k].nodes@.len() implies (
                #[trigger] marked.leaves@[k].nodes@[j]).locator == self.leaves@[k].nodes@[j].locator
                    && marked.leaves@[k].nodes@[j].block_id
                    == self.leaves@[k].nodes@[j].block_id by {
                    assert(self.leaves@[k].nodes@[j].block_id
                        == marked.leaves@[k].nodes@[j].block_id);
                }
            }
        }
        assert forall|k: hash::Hash| #[trigger] self.blocks@.contains_key(k)
            implies self.spec_is_referenced(BlockId { hash: k }) by {
            self.lemma_referenced_extends(marked, BlockId { hash: k });
        }
        self.lemma_nothing_listed();
    }

    /// Removes the blocks that are listed as unreachable, marks them as
    /// missing in the index and brings the summaries up to date.
    fn sweep_listed_blocks(&mut self) -> (count: usize)
        requires
            old(self).wf(),
            old(self).blocks_accounted(),
        ensures
            final(self).wf(),
            final(self).blocks_accounted(),
            forall|k: hash::Hash|
                #![trigger final(self).blocks@.contains_key(k)]
                final(self).blocks@.contains_key(k)
                    <==> (old(self).blocks@.contains_key(k)
                    && old(self).spec_is_referenced(BlockId { hash: k })),
            forall|k: hash::Hash| #[trigger]
                final(self).blocks@.contains_key(k)
                    ==> final(self).blocks@[k] == old(self).blocks@[k],
            count + final(self).blocks.entries@.len() == old(self).blocks.entries@.len(),
            final(self).leaves@.dom() == old(self).leaves@.dom(),
            forall|k: hash::Hash, j: int|
                old(self).leaves@.contains_key(k) && 0 <= j < old(self).leaves@[k].nodes@.len()
                    ==> #[trigger] final(self).leaves@[k].nodes@[j] == ({
                    let leaf = old(self).leaves@[k].nodes@[j];
                    if old(self).blocks@.contains_key(leaf.block_id.hash)
                        && !old(self).spec_is_referenced(leaf.block_id) {
                        crate::protocol::node::LeafNode {
                            block_presence: SingleBlockPresence::Missing,
                            ..leaf
                        }
                    } else {
                        leaf
                    }
                }),
            final(self).inners0@.dom() == old(self).inners0@.dom(),
            final(self).inners1@.dom() == old(self).inners1@.dom(),
            final(self).inners2@.dom() == old(self).inners2@.dom(),
            crate::store::model::inner_extends(old(self).inners0@, final(self).inners0@),
            crate::store::model::inner_extends(old(self).inners1@, final(self).inners1@),
            crate::store::model::inner_extends(old(self).inners2@, final(self).inners2@),
            final(self).summaries_consistent(),
            final(self).roots_refreshed(old(self).roots@),
            final(self).next_snapshot_id == old(self).next_snapshot_id,
            count == old(self).unreachable_blocks@.len(),
            forall|k: hash::Hash| #[trigger]
                old(self).leaves@.contains_key(k) ==> final(self).leaves@[k].nodes@.len()
                    == old(self).leaves@[k].nodes@.len(),
    {
        let ghost marked = *self;
        let ghost list = self.unreachable_blocks@;
        proof {
            assert forall|id: BlockId| marked.spec_is_referenced(id)
                == old(self).spec_is_referenced(
                id,
            ) by {}
        }
        let mut i: usize = 0;
        while i < self.unreachable_blocks.len()
            invariant
                self.wf(),
                marked.wf(),
                marked.blocks_accounted(),
                list == marked.unreachable_blocks@,
                self.unreachable_blocks == marked.unreachable_blocks,
                self.roots == marked.roots,
                self.next_snapshot_id == marked.next_snapshot_id,
                self.inners0 == marked.inners0,
                self.inners1 == marked.inners1,
                self.inners2 == marked.inners2,
                i <= list.len(),
                self.leaves@.dom() == marked.leaves@.dom(),
                forall|k: hash::Hash| #[trigger]
                    marked.leaves@.contains_key(k) ==> self.leaves@[k].nodes@ == cleared(
                        marked.leaves@[k].nodes@,
                        list,
                        i as int,
                    ),
                forall|k: hash::Hash|
                    #![trigger self.blocks@.contains_key(k)]
                    self.blocks@.contains_key(k) <==> (marked.blocks@.contains_key(k)
                        && !listed_before(list, i as int, BlockId { hash: k })),
                forall|k: hash::Hash| #[trigger]
                    self.blocks@.contains_key(k) ==> self.blocks@[k] == marked.blocks@[k],
                self.blocks.entries@.len() + i == marked.blocks.entries@.len(),
            decreases list.len() - i,
        {
            let id = self.unreachable_blocks[i];
            let ghost prev = *self;
            proof {
                assert(marked.spec_is_listed(id));
                assert(marked.blocks@.contains_key(id.hash));
                if listed_before(list, i as int, id) {
                    let m = choose|m: int| 0 <= m < i && #[trigger] list[m] == id;
                    assert(list[m] != list[i as int]);
                }
                assert(self.blocks@.contains_key(id.hash));
            }
            let gone = self.blocks.remove(&id.hash);
            assert(gone.is_some());
            proof {
                crate::collections::table::lemma_len_is_dom(prev.blocks.entries@);
                crate::collections::table::lemma_len_is_dom(self.blocks.entries@);
                assert(self.blocks@.dom() =~= prev.blocks@.dom().remove(id.hash));
            }
            self.set_block_presence(&id, SingleBlockPresence::Missing);
            proof {
                assert forall|k: hash::Hash| #[trigger] marked.leaves@.contains_key(k)
                    implies self.leaves@[k].nodes@
                    == cleared(marked.leaves@[k].nodes@, list, i + 1) by {
                    assert(prev.leaves@.contains_key(k));
                    let before = prev.leaves@[k].nodes@;
                    let base = marked.leaves@[k].nodes@;
                    assert(self.leaves@[k].nodes@ == leaves_with_presence(
                        before,
                        id,
                        SingleBlockPresence::Missing,
                    ));
                    assert forall|j: int| 0 <= j < base.len() implies self.leaves@[k].nodes@[j]
                        == cleared(base, list, i + 1)[j] by {
                        assert(before[j] == cleared(base, list, i as int)[j]);
                        if exists|m: int| 0 <= m < i && #[trigger] list[m] == base[j].block_id {
                            let m = choose|m: int| 0 <= m < i
                                && #[trigger] list[m] == base[j].block_id;
                            assert(0 <= m < i + 1 && list[m] == base[j].block_id);
                        }
                        if base[j].block_id == id {
                            assert(list[i as int] == base[j].block_id);
                        }
                        if exists|m: int| 0 <= m < i + 1 && #[trigger] list[m] == base[j].block_id {
                            let m = choose|m: int|
                                0 <= m < i + 1 && #[trigger] list[m] == base[j].block_id;
                            if m < i {
                                assert(exists|m: int|
                                    0 <= m < i && #[trigger] list[m] == base[j].block_id);
                            }
                        }
                    }
                    assert(self.leaves@[k].nodes@ =~= cleared(base, list, i + 1));
                }
                assert forall|k: hash::Hash|
                    #![trigger self.blocks@.contains_key(k)]
                    self.blocks@.contains_key(k) <==> (marked.blocks@.contains_key(k)
                        && !listed_before(list, i + 1, BlockId { hash: k })) by {
                    assert(prev.blocks@.contains_key(k) <==> (marked.blocks@.contains_key(k)
                        && !listed_before(list, i as int, BlockId { hash: k })));
                    if listed_before(list, i as int, BlockId { hash: k }) {
                        let m = choose|m: int| 0 <= m < i
                            && #[trigger] list[m] == (BlockId { hash: k });
                        assert(0 <= m < i + 1 && list[m] == (BlockId { hash: k }));
                    }
                    if k == id.hash {
                        assert(list[i as int] == (BlockId { hash: k }));
                    }
                    if listed_before(list, i + 1, BlockId { hash: k }) && k != id.hash {
                        let m = choose|m: int|
                            0 <= m < i + 1 && #[trigger] list[m] == (BlockId { hash: k });
                        assert(m < i);
                    }
                }
            }
            i = i + 1;
        }
        let count = i;
        let ghost swept = *self;
        self.update_summaries();
        self.mark_unreachable_blocks();
        proof {
            assert(self.inners0@.dom() == marked.inners0@.dom());
            assert forall|k: hash::Hash|
                #![trigger self.blocks@.contains_key(k)]
                self.blocks@.contains_key(k)
                    <==> (old(self).blocks@.contains_key(k)
                    && old(self).spec_is_referenced(BlockId { hash: k })) by {
                let id = BlockId { hash: k };
                assert(marked.spec_is_listed(id) <==> (marked.blocks@.contains_key(k)
                    && !marked.spec_is_referenced(id)));
                if listed_before(list, list.len() as int, id) {
                    let m = choose|m: int| 0 <= m < list.len() && #[trigger] list[m] == id;
                    assert(marked.unreachable_blocks@[m] == id);
                }
                if marked.spec_is_listed(id) {
                    let m = choose|m: int|
                        0 <= m < marked.unreachable_blocks@.len()
                            && #[trigger] marked.unreachable_blocks@[m] == id;
                    assert(list[m] == id);
                }
            }
            assert forall|k: hash::Hash, j: int|
                old(self).leaves@.contains_key(k) && 0 <= j < old(self).leaves@[k].nodes@.len()
                    implies #[trigger] self.leaves@[k].nodes@[j]
                == (if old(self).blocks@.contains_key(old(self).leaves@[k].nodes@[j].block_id.hash)
                && !old(self).spec_is_referenced(old(self).leaves@[k].nodes@[j].block_id) {
                crate::protocol::node::LeafNode {
                    block_presence: SingleBlockPresence::Missing,
                    ..old(self).leaves@[k].nodes@[j]
                }
            } else {
                old(self).leaves@[k].nodes@[j]
            }) by {
                let base = marked.leaves@[k].nodes@;
                let id = base[j].block_id;
                assert(marked.leaves@.contains_key(k));
                assert(swept.leaves@[k].nodes@[j] == cleared(base, list, list.len() as int)[j]);
                assert(marked.spec_is_listed(id) <==> (marked.blocks@.contains_key(id.hash)
                    && !marked.spec_is_referenced(id)));
                if exists|m: int| 0 <= m < list.len() && #[trigger] list[m] == id {
                    let m = choose|m: int| 0 <= m < list.len() && #[trigger] list[m] == id;
                    assert(marked.unreachable_blocks@[m] == id);
                }
                if marked.spec_is_listed(id) {
                    let m = choose|m: int|
                        0 <= m < marked.unreachable_blocks@.len()
                            && #[trigger] marked.unreachable_blocks@[m] == id;
                    assert(list[m] == id);
                }
            }
        }
        count
    }
}

} // verus!
