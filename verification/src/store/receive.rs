//! Receiving data from other replicas and writing them into the store.

use crate::crypto::hash;
use crate::crypto::sign::PublicKey;
use crate::error::Error;
use crate::protocol::root_node::RootNode;
use crate::protocol::summary::{NodeState, Summary};
use crate::store::walk::saturate;
use crate::store::model::{is_settled, roots_ordered};
use crate::store::summaries::{
    compute_inners_summary, consistent_with_inners, consistent_with_leaves, is_refresh_from_inners,
    is_refresh_from_leaves, lemma_refresh_consistent_inners, lemma_refresh_consistent_leaves,
    lemma_refresh_extends_inners, lemma_refresh_extends_leaves, lemma_sound0, refresh_from_inners,
    refresh_from_leaves, refreshed_root_summary, summary_of_inners,
};
use crate::store::Store;
use vstd::prelude::*;

verus! {

/// Status of receiving nodes from a remote replica.
#[derive(Debug)]
pub struct ReceiveStatus {
    /// Whether the nodes belong to a snapshot that was approved already.
    pub old_approved: bool,
    /// The branches whose snapshots have been approved.
    pub new_approved: Vec<PublicKey>,
}

/// The summary of a root node after the decision on its snapshot: a
/// snapshot that was found complete is approved if it fits the quota and
/// rejected if it does not.
pub open spec fn decided_summary(refreshed: Summary, fits: bool) -> Summary {
    if refreshed.state == NodeState::Complete {
        Summary {
            state: if fits {
                NodeState::Approved
            } else {
                NodeState::Rejected
            },
            block_presence: refreshed.block_presence,
        }
    } else {
        refreshed
    }
}

impl Store {
    /// The summary that the root node at `i` of `old` has after the
    /// summaries were brought up to date, which gave the tables of `self`.
    pub open spec fn spec_refreshed_summary(&self, roots: Seq<RootNode>, i: int) -> Summary {
        refreshed_root_summary(
            roots[i].summary,
            summary_of_inners(self.inners0@, roots[i].proof.hash),
        )
    }

    /// Whether the snapshot of the root node at `i` of `old` fits `quota`.
    pub open spec fn spec_fits(&self, roots: Seq<RootNode>, i: int, quota: Option<u64>) -> bool {
        quota.is_none() || self.spec_snapshot_size(roots[i].proof.hash) <= quota.unwrap()
    }

    /// The writers of the first `n` root nodes of `old` whose snapshots
    /// were found complete and fit `quota`, in order.
    pub open spec fn spec_newly_approved(
        &self,
        roots: Seq<RootNode>,
        quota: Option<u64>,
        n: int,
    ) -> Seq<PublicKey>
        decreases n,
    {
        if n <= 0 {
            Seq::<PublicKey>::empty()
        } else if self.spec_refreshed_summary(roots, n - 1).state == NodeState::Complete
            && self.spec_fits(roots, n - 1, quota) {
            self.spec_newly_approved(roots, quota, n - 1).push(roots[n - 1].proof.writer_id)
        } else {
            self.spec_newly_approved(roots, quota, n - 1)
        }
    }

    /// Which snapshots are newly approved depends on the tables alone.
    pub proof fn lemma_newly_approved_tables(
        &self,
        other: &Store,
        roots: Seq<RootNode>,
        quota: Option<u64>,
        n: int,
    )
        requires
            self.inners0 == other.inners0,
            self.inners1 == other.inners1,
            self.inners2 == other.inners2,
            self.leaves == other.leaves,
        ensures
            self.spec_newly_approved(roots, quota, n) == other.spec_newly_approved(roots, quota, n),
        decreases n,
    {
        if n > 0 {
            self.lemma_newly_approved_tables(other, roots, quota, n - 1);
        }
    }

    /// Whether one of the first `n` root nodes of `old` is approved and
    /// has `hash` as its root hash or as the hash of one of its nodes.
    pub open spec fn spec_old_approved(
        &self,
        roots: Seq<RootNode>,
        hash: hash::Hash,
        n: int,
    ) -> bool {
        exists|i: int|
            0 <= i < n && (#[trigger] roots[i]).summary.state == NodeState::Approved
                && self.spec_reaches(roots[i].proof.hash, hash)
    }

    /// Whether the root nodes of `self` are `roots` after the decisions of
    /// `finalize`, with `status` what it returned: every root node has
    /// the summary of the group stored below it, a snapshot that was found
    /// complete is approved if it fits `quota` and rejected if not, and
    /// `status` names the writers of the approved ones in order.
    pub open spec fn finalized_roots(
        &self,
        roots: Seq<RootNode>,
        hash: hash::Hash,
        quota: Option<u64>,
        status: ReceiveStatus,
    ) -> bool {
        &&& self.roots@.len() == roots.len()
        &&& forall|i: int|
            0 <= i < roots.len() ==> (#[trigger] self.roots@[i]).snapshot_id == roots[i].snapshot_id
                && self.roots@[i].proof == roots[i].proof && self.roots@[i].summary
                == decided_summary(
                self.spec_refreshed_summary(roots, i),
                self.spec_fits(roots, i, quota),
            )
        &&& status.new_approved@ == self.spec_newly_approved(roots, quota, roots.len() as int)
        &&& status.old_approved == self.spec_old_approved(roots, hash, roots.len() as int)
    }

    /// Whether the tables of `self` are those of `old` with every summary
    /// brought up to date, from the leaves up.
    pub open spec fn is_refresh_of_tables(&self, old: &Store) -> bool {
        &&& self.leaves == old.leaves
        &&& self.blocks == old.blocks
        &&& is_refresh_from_leaves(self.leaves@, old.inners2@, self.inners2@)
        &&& is_refresh_from_inners(self.inners2@, old.inners1@, self.inners1@)
        &&& is_refresh_from_inners(self.inners1@, old.inners0@, self.inners0@)
    }

    /// Whether every stored node carries the summary of what is stored below it.
    pub open spec fn summaries_consistent(&self) -> bool {
        &&& consistent_with_leaves(self.leaves@, self.inners2@)
        &&& consistent_with_inners(self.inners2@, self.inners1@)
        &&& consistent_with_inners(self.inners1@, self.inners0@)
    }

    /// Whether the tables of `self` hold the same groups as those of
    /// `old`, with the same hashes in the same buckets.
    pub open spec fn same_structure(&self, old: &Store) -> bool {
        &&& self.leaves == old.leaves
        &&& self.blocks == old.blocks
        &&& self.inners0@.dom() == old.inners0@.dom()
        &&& self.inners1@.dom() == old.inners1@.dom()
        &&& self.inners2@.dom() == old.inners2@.dom()
        &&& crate::store::model::inner_extends(old.inners0@, self.inners0@)
        &&& crate::store::model::inner_extends(old.inners1@, self.inners1@)
        &&& crate::store::model::inner_extends(old.inners2@, self.inners2@)
    }

    /// After a refresh the summaries are consistent and the structure is as before.
    pub proof fn lemma_refresh_facts(&self, old: &Store)
        requires
            self.is_refresh_of_tables(old),
        ensures
            self.summaries_consistent(),
            self.same_structure(old),
    {
        lemma_refresh_consistent_leaves(self.leaves@, old.inners2@, self.inners2@);
        lemma_refresh_consistent_inners(self.inners2@, old.inners1@, self.inners1@);
        lemma_refresh_consistent_inners(self.inners1@, old.inners0@, self.inners0@);
        lemma_refresh_extends_leaves(self.leaves@, old.inners2@, self.inners2@);
        lemma_refresh_extends_inners(self.inners2@, old.inners1@, self.inners1@);
        lemma_refresh_extends_inners(self.inners1@, old.inners0@, self.inners0@);
    }

    /// Sets the summary of the root node at `i`.
    pub fn set_root_summary(&mut self, i: usize, summary: Summary)
        requires
            old(self).wf(),
            i < old(self).roots@.len(),
            summary.state != NodeState::Incomplete ==> old(self).spec_complete(
                old(self).roots@[i as int].proof.hash,
            ),
        ensures
            final(self).wf(),
            final(self).roots@.len() == old(self).roots@.len(),
            final(self).roots@[i as int].snapshot_id == old(self).roots@[i as int].snapshot_id,
            final(self).roots@[i as int].proof == old(self).roots@[i as int].proof,
            final(self).roots@[i as int].summary == summary,
            forall|j: int|
                0 <= j < old(self).roots@.len() && j != i ==> #[trigger] final(self).roots@[j]
                    == old(self).roots@[j],
            final(self).inners0 == old(self).inners0,
            final(self).inners1 == old(self).inners1,
            final(self).inners2 == old(self).inners2,
            final(self).leaves == old(self).leaves,
            final(self).blocks == old(self).blocks,
            final(self).unreachable_blocks == old(self).unreachable_blocks,
            final(self).next_snapshot_id == old(self).next_snapshot_id,
    {
        let ghost prev = self.roots@;
        let root = self.roots.remove(i);
        let fresh = RootNode { snapshot_id: root.snapshot_id, proof: root.proof, summary };
        self.roots.insert(i, fresh);
        proof {
            assert(self.roots@ =~= prev.update(i as int, fresh));
            assert forall|a: int, b: int| 0 <= a < b < self.roots@.len() implies (
            #[trigger] self.roots@[a]).snapshot_id < (#[trigger] self.roots@[b]).snapshot_id by {
                assert(prev[a].snapshot_id < prev[b].snapshot_id);
            }
            assert forall|j: int| 0 <= j < self.roots@.len() implies (
            #[trigger] self.roots@[j]).snapshot_id < self.next_snapshot_id by {
                assert(prev[j].snapshot_id < self.next_snapshot_id);
            }
            assert forall|j: int| 0 <= j < self.roots@.len()
                implies (#[trigger] self.roots@[j]).wf()
                && (is_settled(self.roots@[j]) ==> self.spec_complete(
                self.roots@[j].proof.hash,
            )) by {
                if j != i {
                    assert(self.roots@[j] == prev[j]);
                    assert(prev[j].wf());
                } else {
                    assert(prev[i as int].wf());
                }
            }
        }
    }

    /// The writers of the first `n` root nodes of `roots` whose snapshots
    /// are marked as complete and fit `quota`, in order.
    pub open spec fn spec_newly_decided(&self, roots: Seq<RootNode>, quota: Option<u64>, n: int) -> Seq<
        PublicKey,
    >
        decreases n,
    {
        if n <= 0 {
            Seq::<PublicKey>::empty()
        } else if roots[n - 1].summary.state == NodeState::Complete && self.spec_fits(
            roots,
            n - 1,
            quota,
        ) {
            self.spec_newly_decided(roots, quota, n - 1).push(roots[n - 1].proof.writer_id)
        } else {
            self.spec_newly_decided(roots, quota, n - 1)
        }
    }

    /// Which snapshots are newly decided depends on the tables alone.
    pub proof fn lemma_newly_decided_tables(
        &self,
        other: &Store,
        roots: Seq<RootNode>,
        quota: Option<u64>,
        n: int,
    )
        requires
            self.inners0 == other.inners0,
            self.inners1 == other.inners1,
            self.inners2 == other.inners2,
            self.leaves == other.leaves,
        ensures
            self.spec_newly_decided(roots, quota, n) == other.spec_newly_decided(roots, quota, n),
        decreases n,
    {
        if n > 0 {
            self.lemma_newly_decided_tables(other, roots, quota, n - 1);
        }
    }

    /// Deciding on root nodes whose summaries were brought up to date
    /// approves the snapshots that the refresh found complete.
    pub proof fn lemma_decided_is_approved(
        &self,
        old_roots: Seq<RootNode>,
        roots: Seq<RootNode>,
        quota: Option<u64>,
        n: int,
    )
        requires
            0 <= n <= roots.len(),
            roots.len() == old_roots.len(),
            forall|i: int|
                0 <= i < roots.len() ==> (#[trigger] roots[i]).proof == old_roots[i].proof
                    && roots[i].summary == self.spec_refreshed_summary(old_roots, i),
        ensures
            self.spec_newly_decided(roots, quota, n) == self.spec_newly_approved(
                old_roots,
                quota,
                n,
            ),
        decreases n,
    {
        if n > 0 {
            self.lemma_decided_is_approved(old_roots, roots, quota, n - 1);
            assert(roots[n - 1].proof == old_roots[n - 1].proof);
        }
    }

    /// What `finalize` promises of the root nodes follows from what its steps promise.
    proof fn lemma_finalized(
        &self,
        before: Seq<RootNode>,
        mid: &Store,
        decided: &Store,
        hash: hash::Hash,
        quota: Option<u64>,
        status: ReceiveStatus,
    )
        requires
            mid.roots_refreshed(before),
            decided.inners0 == mid.inners0,
            decided.inners1 == mid.inners1,
            decided.inners2 == mid.inners2,
            decided.leaves == mid.leaves,
            decided.roots@.len() == mid.roots@.len(),
            forall|j: int|
                0 <= j < mid.roots@.len() ==> (#[trigger] decided.roots@[j]).snapshot_id
                    == mid.roots@[j].snapshot_id && decided.roots@[j].proof == mid.roots@[j].proof
                    && decided.roots@[j].summary == decided_summary(
                    mid.roots@[j].summary,
                    decided.spec_fits(mid.roots@, j, quota),
                ),
            status.new_approved@ == decided.spec_newly_decided(
                mid.roots@,
                quota,
                mid.roots@.len() as int,
            ),
            status.old_approved == decided.spec_old_approved(
                mid.roots@,
                hash,
                mid.roots@.len() as int,
            ),
            self.inners0 == decided.inners0,
            self.inners1 == decided.inners1,
            self.inners2 == decided.inners2,
            self.leaves == decided.leaves,
            self.roots == decided.roots,
        ensures
            self.finalized_roots(before, hash, quota, status),
    {
        let n = before.len() as int;
        decided.lemma_decided_is_approved(before, mid.roots@, quota, n);
        self.lemma_newly_approved_tables(decided, before, quota, n);
        assert(status.old_approved == self.spec_old_approved(before, hash, n)) by {
            if decided.spec_old_approved(mid.roots@, hash, n) {
                let w = choose|w: int|
                    0 <= w < n && (#[trigger] mid.roots@[w]).summary.state == NodeState::Approved
                        && decided.spec_reaches(mid.roots@[w].proof.hash, hash);
                assert(mid.roots@[w].summary == mid.spec_refreshed_summary(before, w));
                assert(before[w].summary.state == NodeState::Approved);
                assert(self.spec_reaches(before[w].proof.hash, hash));
            }
            if self.spec_old_approved(before, hash, n) {
                let w = choose|w: int|
                    0 <= w < n && (#[trigger] before[w]).summary.state == NodeState::Approved
                        && self.spec_reaches(before[w].proof.hash, hash);
                assert(mid.roots@[w].summary == mid.spec_refreshed_summary(before, w));
                assert(mid.roots@[w].summary.state == NodeState::Approved);
                assert(decided.spec_reaches(mid.roots@[w].proof.hash, hash));
            }
        }
        assert forall|i: int| 0 <= i < n implies (#[trigger] self.roots@[i]).snapshot_id
            == before[i].snapshot_id && self.roots@[i].proof == before[i].proof
            && self.roots@[i].summary == decided_summary(
            self.spec_refreshed_summary(before, i),
            self.spec_fits(before, i, quota),
        ) by {
            assert(mid.roots@[i].summary == mid.spec_refreshed_summary(before, i));
            assert(decided.roots@[i].summary == decided_summary(
                mid.roots@[i].summary,
                decided.spec_fits(mid.roots@, i, quota),
            ));
            assert(mid.roots@[i].proof == before[i].proof);
        }
    }

    /// Decides on the snapshots that are marked as complete: each is
    /// approved if its blocks fit `quota`, or if there is no quota, and
    /// rejected otherwise.
    fn decide_roots(&mut self, hash: hash::Hash, quota: Option<u64>) -> (status: ReceiveStatus)
        requires
            old(self).wf(),
        ensures
            final(self).wf(),
            final(self).inners0 == old(self).inners0,
            final(self).inners1 == old(self).inners1,
            final(self).inners2 == old(self).inners2,
            final(self).leaves == old(self).leaves,
            final(self).blocks == old(self).blocks,
            final(self).unreachable_blocks == old(self).unreachable_blocks,
            final(self).next_snapshot_id == old(self).next_snapshot_id,
            final(self).roots@.len() == old(self).roots@.len(),
            forall|j: int|
                0 <= j < old(self).roots@.len() ==> (#[trigger] final(self).roots@[j]).snapshot_id
                    == old(self).roots@[j].snapshot_id
                        && final(self).roots@[j].proof == old(self).roots@[j].proof
                        && final(self).roots@[j].summary == decided_summary(
                    old(self).roots@[j].summary,
                    final(self).spec_fits(old(self).roots@, j, quota),
                ),
            status.new_approved@ == final(self).spec_newly_decided(
                old(self).roots@,
                quota,
                old(self).roots@.len() as int,
            ),
            status.old_approved == final(self).spec_old_approved(
                old(self).roots@,
                hash,
                old(self).roots@.len() as int,
            ),
    {
        let mut old_approved = false;
        let mut new_approved: Vec<PublicKey> = Vec::new();
        let mut i: usize = 0;
        while i < self.roots.len()
            invariant
                self.wf(),
                i <= self.roots@.len(),
                self.roots@.len() == old(self).roots@.len(),
                self.inners0 == old(self).inners0,
                self.inners1 == old(self).inners1,
                self.inners2 == old(self).inners2,
                self.leaves == old(self).leaves,
                self.blocks == old(self).blocks,
                self.unreachable_blocks == old(self).unreachable_blocks,
                self.next_snapshot_id == old(self).next_snapshot_id,
                forall|j: int|
                    i <= j < self.roots@.len() ==> #[trigger] self.roots@[j] == old(self).roots@[j],
                forall|j: int|
                    0 <= j < i
                        ==> (#[trigger] self.roots@[j]).snapshot_id
                        == old(self).roots@[j].snapshot_id
                        && self.roots@[j].proof == old(self).roots@[j].proof
                        && self.roots@[j].summary == decided_summary(
                        old(self).roots@[j].summary,
                        self.spec_fits(old(self).roots@, j, quota),
                    ),
                new_approved@ == self.spec_newly_decided(old(self).roots@, quota, i as int),
                old_approved == self.spec_old_approved(old(self).roots@, hash, i as int),
            decreases self.roots@.len() - i,
        {
            let state = self.roots[i].summary.state;
            let root_hash = self.roots[i].proof.hash;
            let writer = self.roots[i].proof.writer_id;
            let ghost entry = *self;
            match state {
                NodeState::Complete => {
                    let fits = match quota {
                        Some(limit) => self.fits_quota(&root_hash, limit),
                        None => true,
                    };
                    let next = if fits {
                        NodeState::Approved
                    } else {
                        NodeState::Rejected
                    };
                    let summary = self.roots[i].summary.with_state(next);
                    proof {
                        assert(is_settled(self.roots@[i as int]));
                    }
                    self.set_root_summary(i, summary);
                    if fits {
                        new_approved.push(writer);
                    }
                },
                NodeState::Approved => {
                    let reached = self.reaches(&root_hash, &hash);
                    proof {
                        if reached {
                            assert(self.spec_old_approved(old(self).roots@, hash, i + 1));
                        }
                    }
                    if reached {
                        old_approved = true;
                    }
                },
                _ => {},
            }
            proof {
                self.lemma_newly_decided_tables(&entry, old(self).roots@, quota, i as int);
                self.lemma_newly_decided_tables(&entry, old(self).roots@, quota, i + 1);
                if self.spec_old_approved(old(self).roots@, hash, i + 1) && !old_approved {
                    let w = choose|w: int|
                        0 <= w < i + 1 && (#[trigger] old(self).roots@[w]).summary.state
                            == NodeState::Approved && self.spec_reaches(
                            old(self).roots@[w].proof.hash,
                            hash,
                        );
                    if w < i {
                        assert(self.spec_old_approved(old(self).roots@, hash, i as int));
                    }
                    assert(false);
                }
                if self.spec_old_approved(old(self).roots@, hash, i as int) {
                    let w = choose|w: int|
                        0 <= w < i && (#[trigger] old(self).roots@[w]).summary.state
                            == NodeState::Approved && self.spec_reaches(
                            old(self).roots@[w].proof.hash,
                            hash,
                        );
                    assert(0 <= w < i + 1);
                    assert(self.spec_old_approved(old(self).roots@, hash, i + 1));
                }
            }
            i = i + 1;
        }
        ReceiveStatus { old_approved, new_approved }
    }

    /// Brings every summary up to date and decides on the snapshots that
    /// are found complete: each is approved if its blocks fit `quota`, or
    /// if there is no quota, and rejected otherwise.
    ///
    /// Returns the writers of the snapshots that were approved, and
    /// whether `hash` is the hash of the root or of a node of a snapshot
    /// that was approved before.
    pub fn finalize(&mut self, hash: hash::Hash, quota: Option<u64>) -> (status: ReceiveStatus)
        requires
            old(self).wf(),
        ensures
            final(self).wf(),
            final(self).is_refresh_of_tables(old(self)),
            final(self).summaries_consistent(),
            final(self).same_structure(old(self)),
            final(self).next_snapshot_id == old(self).next_snapshot_id,
            final(self).finalized_roots(old(self).roots@, hash, quota, status),
            final(self).blocks_accounted(),
            forall|h: hash::Hash| old(self).spec_complete(h)
                == #[trigger] final(self).spec_complete(h),
    {
        self.update_summaries();
        let ghost mid = *self;
        let status = self.decide_roots(hash, quota);
        let ghost decided = *self;
        self.mark_unreachable_blocks();
        proof {
            assert forall|h: hash::Hash| old(self).spec_complete(h)
                == #[trigger] self.spec_complete(
                h,
            ) by {
                assert(mid.spec_complete(h) == self.spec_complete(h));
            }
            self.lemma_finalized(old(self).roots@, &mid, &decided, hash, quota, status);
        }
        status
    }

    /// Whether the root nodes of `self` are `roots` with their summaries
    /// brought up to date: each has the presence of the group stored below
    /// it and, if it was incomplete, the state of that group.
    pub open spec fn roots_refreshed(&self, roots: Seq<RootNode>) -> bool {
        &&& self.roots@.len() == roots.len()
        &&& forall|i: int|
            0 <= i < roots.len() ==> (#[trigger] self.roots@[i]).snapshot_id == roots[i].snapshot_id
                && self.roots@[i].proof == roots[i].proof && self.roots@[i].summary
                == self.spec_refreshed_summary(roots, i)
    }

    /// Brings the summary of every stored node up to date with what is
    /// stored below it, from the leaves up.
    fn refresh_tables(&mut self)
        requires
            old(self).wf(),
        ensures
            final(self).wf(),
            final(self).is_refresh_of_tables(old(self)),
            final(self).summaries_consistent(),
            final(self).same_structure(old(self)),
            final(self).roots == old(self).roots,
            final(self).next_snapshot_id == old(self).next_snapshot_id,
            final(self).unreachable_blocks == old(self).unreachable_blocks,
            forall|h: hash::Hash| old(self).spec_complete(h)
                == #[trigger] final(self).spec_complete(h),
    {
        let ghost start = *self;
        refresh_from_leaves(&mut self.inners2, &self.leaves);
        refresh_from_inners(&mut self.inners1, &self.inners2);
        refresh_from_inners(&mut self.inners0, &self.inners1);
        proof {
            lemma_refresh_extends_leaves(self.leaves@, start.inners2@, self.inners2@);
            lemma_refresh_extends_inners(self.inners2@, start.inners1@, self.inners1@);
            lemma_refresh_extends_inners(self.inners1@, start.inners0@, self.inners0@);
            self.lemma_extends_wf(&start);
            self.lemma_same_structure(&start);
            self.lemma_refresh_facts(&start);
        }
    }

    /// Brings the summary of every root node up to date with the group stored below it.
    fn refresh_roots(&mut self)
        requires
            old(self).wf(),
            old(self).summaries_consistent(),
        ensures
            final(self).wf(),
            final(self).roots_refreshed(old(self).roots@),
            final(self).inners0 == old(self).inners0,
            final(self).inners1 == old(self).inners1,
            final(self).inners2 == old(self).inners2,
            final(self).leaves == old(self).leaves,
            final(self).blocks == old(self).blocks,
            final(self).unreachable_blocks == old(self).unreachable_blocks,
            final(self).next_snapshot_id == old(self).next_snapshot_id,
    {
        let mut i: usize = 0;
        while i < self.roots.len()
            invariant
                self.wf(),
                self.summaries_consistent(),
                i <= self.roots@.len(),
                self.roots@.len() == old(self).roots@.len(),
                self.inners0 == old(self).inners0,
                self.inners1 == old(self).inners1,
                self.inners2 == old(self).inners2,
                self.leaves == old(self).leaves,
                self.blocks == old(self).blocks,
                self.unreachable_blocks == old(self).unreachable_blocks,
                self.next_snapshot_id == old(self).next_snapshot_id,
                forall|j: int|
                    i <= j < self.roots@.len() ==> #[trigger] self.roots@[j] == old(self).roots@[j],
                forall|j: int|
                    0 <= j < i
                        ==> (#[trigger] self.roots@[j]).snapshot_id
                        == old(self).roots@[j].snapshot_id
                        && self.roots@[j].proof == old(self).roots@[j].proof
                        && self.roots@[j].summary == self.spec_refreshed_summary(
                        old(self).roots@,
                        j,
                    ),
            decreases self.roots@.len() - i,
        {
            let below = compute_inners_summary(&self.inners0, &self.roots[i].proof.hash);
            let before = self.roots[i].summary;
            let state = match before.state {
                NodeState::Incomplete => below.state,
                other => other,
            };
            let summary = Summary { state, block_presence: below.block_presence };
            proof {
                if summary.state != NodeState::Incomplete {
                    if before.state == NodeState::Incomplete {
                        lemma_sound0(
                            self.leaves@,
                            self.inners2@,
                            self.inners1@,
                            self.inners0@,
                            self.roots@[i as int].proof.hash,
                        );
                    } else {
                        assert(is_settled(self.roots@[i as int]));
                    }
                }
            }
            self.set_root_summary(i, summary);
            i = i + 1;
        }
    }

    /// Brings the summary of every stored node and root node up to date
    /// with what is stored below it, from the leaves up.
    pub fn update_summaries(&mut self)
        requires
            old(self).wf(),
        ensures
            final(self).wf(),
            final(self).is_refresh_of_tables(old(self)),
            final(self).roots_refreshed(old(self).roots@),
            final(self).summaries_consistent(),
            final(self).same_structure(old(self)),
            final(self).next_snapshot_id == old(self).next_snapshot_id,
            final(self).unreachable_blocks == old(self).unreachable_blocks,
            forall|h: hash::Hash| old(self).spec_complete(h)
                == #[trigger] final(self).spec_complete(h),
    {
        self.refresh_tables();
        let ghost mid = *self;
        self.refresh_roots();
        proof {
            assert forall|h: hash::Hash| old(self).spec_complete(h)
                == #[trigger] self.spec_complete(
                h,
            ) by {
                assert(mid.spec_complete(h) == self.spec_complete(h));
            }
        }
    }

    /// Two stores whose tables hold the same groups with the same hashes
    /// find the same snapshots complete.
    pub proof fn lemma_same_structure(&self, old: &Store)
        requires
            crate::store::model::inner_extends(old.inners0@, self.inners0@),
            crate::store::model::inner_extends(self.inners0@, old.inners0@),
            crate::store::model::inner_extends(old.inners1@, self.inners1@),
            crate::store::model::inner_extends(self.inners1@, old.inners1@),
            crate::store::model::inner_extends(old.inners2@, self.inners2@),
            crate::store::model::inner_extends(self.inners2@, old.inners2@),
            self.leaves == old.leaves,
        ensures
            forall|h: hash::Hash| old.spec_complete(h) == #[trigger] self.spec_complete(h),
    {
        assert forall|h: hash::Hash| old.spec_complete(h) == #[trigger] self.spec_complete(h) by {
            if old.spec_complete(h) {
                crate::store::model::lemma_complete0_extends(
                    old.inners0@,
                    old.inners1@,
                    old.inners2@,
                    old.leaves@,
                    self.inners0@,
                    self.inners1@,
                    self.inners2@,
                    self.leaves@,
                    h,
                );
            }
            if self.spec_complete(h) {
                crate::store::model::lemma_complete0_extends(
                    self.inners0@,
                    self.inners1@,
                    self.inners2@,
                    self.leaves@,
                    old.inners0@,
                    old.inners1@,
                    old.inners2@,
                    old.leaves@,
                    h,
                );
            }
        }
    }
}

} // verus!
