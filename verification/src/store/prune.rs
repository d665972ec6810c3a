//! Removing the snapshots of a branch that are no longer needed.
//!
//! An older approved snapshot is kept as long as it can serve as a
//! fallback for the newer one: as long as it has blocks that the newer one
//! lacks. A newer snapshot with the same version vector is a draft and
//! never removes its predecessor.

use crate::crypto::sign::PublicKey;
use crate::protocol::root_node::{RootNode, SnapshotId};
use crate::protocol::summary::NodeState;
use crate::store::model::{is_settled, roots_ordered};
use crate::store::roots::has_root;
use crate::store::Store;
use vstd::prelude::*;

verus! {

/// Whether `old` is kept for the sake of `new`, a newer approved snapshot
/// of the same branch: `new` is a draft of it, or `old` has blocks that
/// `new` lacks.
pub open spec fn keeps(old: RootNode, new: RootNode) -> bool {
    ||| (old.proof.version_vector.spec_le(&new.proof.version_vector)
        && new.proof.version_vector.spec_le(&old.proof.version_vector))
    ||| new.summary.block_presence.spec_is_outdated(old.summary.block_presence)
}

/// Whether `r` stands in `start` at an unmarked position from `from` on.
pub open spec fn kept_from(start: Seq<RootNode>, marks: Seq<bool>, from: int, r: RootNode) -> bool {
    exists|k: int| from <= k < start.len() && #[trigger] start[k] == r && !marks[k]
}

/// Takes the root nodes at the marked positions out of `roots`.
pub fn remove_marked(roots: &mut Vec<RootNode>, marks: &Vec<bool>)
    requires
        marks@.len() == old(roots)@.len(),
        exists|next: u64| roots_ordered(old(roots)@, next),
    ensures
        forall|r: RootNode|
            #![trigger has_root(final(roots)@, r)]
            has_root(final(roots)@, r) <==> kept_from(old(roots)@, marks@, 0, r),
        forall|next: u64| roots_ordered(old(roots)@, next) ==> roots_ordered(final(roots)@, next),
        final(roots)@.len() <= old(roots)@.len(),
{
    let ghost start = roots@;
    let ghost bound = choose|next: u64| roots_ordered(start, next);
    let mut i: usize = roots.len();
    while i > 0
        invariant
            roots_ordered(start, bound),
            marks@.len() == start.len(),
            i <= roots@.len() <= start.len(),
            forall|j: int| 0 <= j < i ==> roots@[j] == start[j],
            forall|j: int|
                i <= j < roots@.len() ==> kept_from(start, marks@, i as int, #[trigger] roots@[j]),
            forall|k: int|
                i <= k < start.len() && !marks@[k] ==> has_root(roots@, #[trigger] start[k]),
            forall|a: int, b: int|
                0 <= a < b < roots@.len() ==> (#[trigger] roots@[a]).snapshot_id < (
                #[trigger] roots@[b]).snapshot_id,
        decreases i,
    {
        i = i - 1;
        let ghost before = roots@;
        if marks[i] {
            roots.remove(i);
            proof {
                let after = roots@;
                assert forall|j: int| i <= j < after.len() implies kept_from(
                    start,
                    marks@,
                    i as int,
                    #[trigger] after[j],
                ) by {
                    assert(after[j] == before[j + 1]);
                    assert(kept_from(start, marks@, i + 1, before[j + 1]));
                    let k = choose|k: int|
                        i + 1 <= k < start.len() && #[trigger] start[k] == before[j + 1]
                            && !marks@[k];
                    assert(i <= k < start.len() && start[k] == after[j] && !marks@[k]);
                }
                assert forall|k: int| i <= k < start.len() && !marks@[k] implies has_root(
                    after,
                    #[trigger] start[k],
                ) by {
                    assert(k != i);
                    assert(has_root(before, start[k]));
                    let m = choose|m: int| 0 <= m < before.len()
                        && #[trigger] before[m] == start[k];
                    if m < i {
                        assert(start[m].snapshot_id < start[k].snapshot_id);
                    } else if m == i {
                        assert(start[i as int].snapshot_id < start[k].snapshot_id);
                    } else {
                        assert(after[m - 1] == start[k]);
                    }
                }
                assert forall|a: int, b: int| 0 <= a < b < after.len() implies (
                #[trigger] after[a]).snapshot_id < (#[trigger] after[b]).snapshot_id by {
                    let a0 = if a < i {
                        a
                    } else {
                        a + 1
                    };
                    let b0 = if b < i {
                        b
                    } else {
                        b + 1
                    };
                    assert(before[a0].snapshot_id < before[b0].snapshot_id);
                }
            }
        } else {
            proof {
                assert forall|j: int| i <= j < roots@.len() implies kept_from(
                    start,
                    marks@,
                    i as int,
                    #[trigger] roots@[j],
                ) by {
                    if j == i {
                        assert(start[i as int] == roots@[j] && !marks@[i as int]);
                    } else {
                        assert(kept_from(start, marks@, i + 1, roots@[j]));
                        let k = choose|k: int|
                            i + 1 <= k < start.len() && #[trigger] start[k] == roots@[j]
                                && !marks@[k];
                        assert(i <= k < start.len() && start[k] == roots@[j] && !marks@[k]);
                    }
                }
                assert forall|k: int| i <= k < start.len() && !marks@[k] implies has_root(
                    roots@,
                    #[trigger] start[k],
                ) by {
                    if k == i {
                        assert(roots@[i as int] == start[k]);
                    }
                }
            }
        }
    }
    proof {
        assert forall|r: RootNode|
            #![trigger has_root(roots@, r)]
            has_root(roots@, r) <==> kept_from(start, marks@, 0, r) by {
            if has_root(roots@, r) {
                let j = choose|j: int| 0 <= j < roots@.len() && #[trigger] roots@[j] == r;
                assert(kept_from(start, marks@, 0, roots@[j]));
            }
            if kept_from(start, marks@, 0, r) {
                let k = choose|k: int| 0 <= k < start.len() && #[trigger] start[k] == r
                    && !marks@[k];
                assert(has_root(roots@, start[k]));
            }
        }
        assert forall|next: u64| roots_ordered(start, next) implies roots_ordered(roots@, next) by {
            assert forall|j: int| 0 <= j < roots@.len() implies (#[trigger] roots@[j]).snapshot_id
                < next by {
                assert(kept_from(start, marks@, 0, roots@[j]));
                let k = choose|k: int|
                    0 <= k < start.len() && #[trigger] start[k] == roots@[j] && !marks@[k];
                assert(start[k].snapshot_id < next);
            }
        }
    }
}

impl Store {
    /// Whether the snapshot at `i` is an incomplete snapshot of `writer` older than the one at `pos`.
    pub open spec fn is_stale(&self, writer: PublicKey, pos: int, i: int) -> bool {
        &&& 0 <= i < pos
        &&& self.roots@[i].proof.writer_id == writer
        &&& self.roots@[i].summary.state == NodeState::Incomplete
    }

    /// Whether the approved snapshot at `i` is pruned, when the approved
    /// snapshots of `writer` before position `end` are looked at from the
    /// latest to the oldest and `new` is the position of the latest one
    /// that was kept.
    pub open spec fn is_pruned(&self, writer: PublicKey, end: int, new: int, i: int) -> bool
        decreases end,
    {
        let p = self.spec_latest_approved_before(writer, end);
        if end <= 0 || p < 0 || p >= end {
            false
        } else if keeps(self.roots@[p], self.roots@[new]) {
            self.is_pruned(writer, p, p, i)
        } else {
            i == p || self.is_pruned(writer, p, new, i)
        }
    }

    /// Whether `remove_outdated_snapshots` removes the snapshot at `i`
    /// when called with the snapshot at `pos`.
    pub open spec fn is_outdated_at(&self, pos: int, i: int) -> bool {
        let writer = self.roots@[pos].proof.writer_id;
        self.is_stale(writer, pos, i) || self.is_pruned(writer, pos, pos, i)
    }

    /// Only positions before `end` are pruned.
    pub proof fn lemma_pruned_before(&self, writer: PublicKey, end: int, new: int, i: int)
        requires
            0 <= end <= self.roots@.len(),
            self.is_pruned(writer, end, new, i),
        ensures
            0 <= i < end,
        decreases end,
    {
        self.lemma_latest_approved(writer, end);
        let p = self.spec_latest_approved_before(writer, end);
        if keeps(self.roots@[p], self.roots@[new]) {
            self.lemma_pruned_before(writer, p, p, i);
        } else if i != p {
            self.lemma_pruned_before(writer, p, new, i);
        }
    }

    /// The positions of the snapshots that `remove_outdated_snapshots`
    /// removes when called with the snapshot at `pos`.
    pub fn outdated_marks(&self, pos: usize) -> (marks: Vec<bool>)
        requires
            self.wf(),
            pos < self.roots@.len(),
        ensures
            marks@.len() == self.roots@.len(),
            forall|i: int|
                0 <= i < marks@.len()
                    ==> #[trigger] marks@[i] == self.is_outdated_at(pos as int, i),
    {
        let writer = self.roots[pos].proof.writer_id;
        let mut marks: Vec<bool> = Vec::new();
        let mut i: usize = 0;
        while i < self.roots.len()
            invariant
                i <= self.roots@.len(),
                pos < self.roots@.len(),
                marks@.len() == i,
                forall|j: int| 0 <= j < i
                    ==> #[trigger] marks@[j] == self.is_stale(writer, pos as int, j),
            decreases self.roots@.len() - i,
        {
            let root = &self.roots[i];
            let stale = i < pos && root.proof.writer_id == writer && !root.summary.is_complete();
            marks.push(stale);
            i = i + 1;
        }
        let mut end: usize = pos;
        let mut new: usize = pos;
        let mut done = false;
        proof {
            assert forall|j: int| pos <= j < marks@.len() implies #[trigger] marks@[j]
                == self.is_outdated_at(pos as int, j) by {
                if self.is_pruned(writer, pos as int, pos as int, j) {
                    self.lemma_pruned_before(writer, pos as int, pos as int, j);
                }
            }
        }
        while !done
            invariant
                self.wf(),
                pos < self.roots@.len(),
                end <= new <= pos,
                marks@.len() == self.roots@.len(),
                forall|j: int|
                    end <= j < marks@.len() ==> #[trigger] marks@[j] == self.is_outdated_at(
                        pos as int,
                        j,
                    ),
                forall|j: int|
                    0 <= j < end ==> #[trigger] marks@[j] == self.is_stale(writer, pos as int, j),
                forall|j: int|
                    0 <= j < end ==> self.is_pruned(writer, pos as int, pos as int, j)
                        == #[trigger] self.is_pruned(writer, end as int, new as int, j),
                done ==> forall|j: int|
                    0 <= j < end ==> !#[trigger] self.is_pruned(writer, end as int, new as int, j),
                writer == self.roots@[pos as int].proof.writer_id,
            decreases end + (if done {
                0int
            } else {
                1int
            }),
        {
            proof {
                self.lemma_latest_approved(writer, end as int);
            }
            match self.latest_approved_before(&writer, end) {
                None => {
                    done = true;
                },
                Some(p) => {
                    let old_root = &self.roots[p];
                    let new_root = &self.roots[new];
                    assert(old_root.wf() && new_root.wf());
                    let draft = old_root.proof.version_vector.same(&new_root.proof.version_vector);
                    let kept = draft || new_root.summary.block_presence.is_outdated(
                        &old_root.summary.block_presence,
                    );
                    proof {
                        assert(draft == (old_root.proof.version_vector.spec_le(
                            &new_root.proof.version_vector,
                        ) && new_root.proof.version_vector.spec_le(
                            &old_root.proof.version_vector,
                        ))) by {
                            let a = old_root.proof.version_vector;
                            let b = new_root.proof.version_vector;
                            if a.spec_eq(&b) {
                                assert forall|w: PublicKey| #[trigger] a.spec_get(w) <= b.spec_get(
                                    w,
                                ) by {
                                    assert(a.spec_get(w) == b.spec_get(w));
                                }
                                assert forall|w: PublicKey| #[trigger] b.spec_get(w) <= a.spec_get(
                                    w,
                                ) by {
                                    assert(a.spec_get(w) == b.spec_get(w));
                                }
                            }
                            if a.spec_le(&b) && b.spec_le(&a) {
                                assert forall|w: PublicKey| #[trigger] a.spec_get(w) == b.spec_get(
                                    w,
                                ) by {
                                    assert(a.spec_get(w) <= b.spec_get(w));
                                    assert(b.spec_get(w) <= a.spec_get(w));
                                }
                            }
                        }
                        assert(kept == keeps(self.roots@[p as int], self.roots@[new as int]));
                        assert forall|j: int| p <= j < end implies self.is_pruned(
                            writer,
                            pos as int,
                            pos as int,
                            j,
                        ) == (j == p && !kept) by {
                            assert(self.is_pruned(writer, pos as int, pos as int, j)
                                == self.is_pruned(writer, end as int, new as int, j));
                            if kept {
                                if self.is_pruned(writer, p as int, p as int, j) {
                                    self.lemma_pruned_before(writer, p as int, p as int, j);
                                }
                            } else {
                                if self.is_pruned(writer, p as int, new as int, j) {
                                    self.lemma_pruned_before(writer, p as int, new as int, j);
                                }
                            }
                        }
                        // An approved snapshot is not stale.
                        assert(!self.is_stale(writer, pos as int, p as int));
                        let next_new = if kept {
                            p
                        } else {
                            new
                        };
                        assert forall|j: int| 0 <= j < p implies self.is_pruned(
                            writer,
                            pos as int,
                            pos as int,
                            j,
                        ) == #[trigger] self.is_pruned(writer, p as int, next_new as int, j) by {
                            assert(self.is_pruned(writer, pos as int, pos as int, j)
                                == self.is_pruned(writer, end as int, new as int, j));
                        }
                    }
                    if kept {
                        new = p;
                    } else {
                        marks.set(p, true);
                    }
                    end = p;
                },
            }
        }
        proof {
            assert forall|i: int| 0 <= i < marks@.len() implies #[trigger] marks@[i]
                == self.is_outdated_at(pos as int, i) by {
                if i < end {
                    assert(!self.is_pruned(writer, end as int, new as int, i));
                }
            }
        }
        marks
    }

    /// Removes the outdated older snapshots of the branch of the snapshot
    /// with id `snapshot_id`: the incomplete ones, which can never serve
    /// as fallback, and the approved ones that are neither drafts'
    /// predecessors nor fallbacks. The nodes that no snapshot refers to
    /// any more are removed with them.
    pub fn remove_outdated_snapshots(&mut self, snapshot_id: SnapshotId)
        requires
            old(self).wf(),
        ensures
            final(self).wf(),
            final(self).blocks_accounted(),
            final(self).reclaimed_from(old(self)),
            final(self).next_snapshot_id == old(self).next_snapshot_id,
            (forall|i: int|
                0 <= i < old(self).roots@.len() ==> (#[trigger] old(self).roots@[i]).snapshot_id
                    != snapshot_id) ==> final(self).roots == old(self).roots,
            forall|pos: int|
                0 <= pos < old(self).roots@.len() && (#[trigger] old(self).roots@[pos]).snapshot_id
                    == snapshot_id ==> (forall|r: RootNode|
                    #![trigger has_root(final(self).roots@, r)]
                    has_root(final(self).roots@, r) <==> (exists|i: int|
                        0 <= i < old(self).roots@.len() && #[trigger] old(self).roots@[i] == r
                            && !old(self).is_outdated_at(pos, i))),
    {
        self.drop_outdated_snapshots(snapshot_id);
        let ghost mid = *self;
        self.remove_unreachable_nodes();
        proof {
            self.lemma_reclaimed_from(&mid, old(self));
        }
    }

    /// Takes the outdated older snapshots of the branch of the snapshot
    /// with id `snapshot_id` out of the list of root nodes, and leaves the
    /// nodes as they are.
    fn drop_outdated_snapshots(&mut self, snapshot_id: SnapshotId)
        requires
            old(self).wf(),
        ensures
            final(self).wf(),
            final(self).blocks_accounted(),
            final(self).next_snapshot_id == old(self).next_snapshot_id,
            final(self).inners0 == old(self).inners0,
            final(self).inners1 == old(self).inners1,
            final(self).inners2 == old(self).inners2,
            final(self).leaves == old(self).leaves,
            final(self).blocks == old(self).blocks,
            (forall|i: int|
                0 <= i < old(self).roots@.len() ==> (#[trigger] old(self).roots@[i]).snapshot_id
                    != snapshot_id) ==> final(self).roots == old(self).roots,
            forall|pos: int|
                0 <= pos < old(self).roots@.len() && (#[trigger] old(self).roots@[pos]).snapshot_id
                    == snapshot_id ==> (forall|r: RootNode|
                    #![trigger has_root(final(self).roots@, r)]
                    has_root(final(self).roots@, r) <==> (exists|i: int|
                        0 <= i < old(self).roots@.len() && #[trigger] old(self).roots@[i] == r
                            && !old(self).is_outdated_at(pos, i))),
    {
        match self.position_of(snapshot_id) {
            None => {},
            Some(pos) => {
                let marks = self.outdated_marks(pos);
                assert(roots_ordered(self.roots@, self.next_snapshot_id));
                remove_marked(&mut self.roots, &marks);
                proof {
                    assert forall|i: int| 0 <= i < self.roots@.len() implies (
                    #[trigger] self.roots@[i]).wf() && (is_settled(self.roots@[i])
                        ==> self.spec_complete(self.roots@[i].proof.hash)) by {
                        assert(has_root(self.roots@, self.roots@[i]));
                        assert(kept_from(old(self).roots@, marks@, 0, self.roots@[i]));
                        let m = choose|m: int|
                            0 <= m < old(self).roots@.len() && #[trigger] old(self).roots@[m]
                                == self.roots@[i] && !marks@[m];
                        assert(old(self).roots@[m].wf());
                    }
                    assert forall|p: int|
                        0 <= p < old(self).roots@.len()
                            && (#[trigger] old(self).roots@[p]).snapshot_id
                            == snapshot_id implies p == pos by {
                        if p < pos {
                            assert(old(self).roots@[p].snapshot_id
                                < old(self).roots@[pos as int].snapshot_id);
                        } else if pos < p {
                            assert(old(self).roots@[pos as int].snapshot_id
                                < old(self).roots@[p].snapshot_id);
                        }
                    }
                    assert forall|r: RootNode|
                        #![trigger has_root(self.roots@, r)]
                        has_root(self.roots@, r) <==> (exists|i: int|
                            0 <= i < old(self).roots@.len() && #[trigger] old(self).roots@[i] == r
                                && !old(self).is_outdated_at(pos as int, i)) by {
                        if has_root(self.roots@, r) {
                            assert(kept_from(old(self).roots@, marks@, 0, r));
                            let i = choose|i: int|
                                0 <= i < old(self).roots@.len()
                                    && #[trigger] old(self).roots@[i] == r
                                    && !marks@[i];
                            assert(!old(self).is_outdated_at(pos as int, i));
                        }
                        if exists|i: int|
                            0 <= i < old(self).roots@.len() && #[trigger] old(self).roots@[i] == r
                                && !old(self).is_outdated_at(pos as int, i) {
                            let i = choose|i: int|
                                0 <= i < old(self).roots@.len()
                                    && #[trigger] old(self).roots@[i] == r
                                    && !old(self).is_outdated_at(pos as int, i);
                            assert(!marks@[i]);
                            assert(kept_from(old(self).roots@, marks@, 0, r));
                        }
                    }
                }
            },
        }
        self.mark_unreachable_blocks();
    }
}

impl Store {
    /// Removes every snapshot of `writer`, and with them the nodes that
    /// no snapshot refers to any more.
    pub fn remove_branch(&mut self, writer: PublicKey)
        requires
            old(self).wf(),
        ensures
            final(self).wf(),
            final(self).blocks_accounted(),
            forall|r: RootNode|
                #![trigger has_root(final(self).roots@, r)]
                #![trigger has_root(old(self).roots@, r)]
                has_root(final(self).roots@, r) <==> (has_root(old(self).roots@, r)
                    && r.proof.writer_id != writer),
            final(self).reclaimed_from(old(self)),
            final(self).next_snapshot_id == old(self).next_snapshot_id,
    {
        self.drop_branch(writer);
        let ghost mid = *self;
        self.remove_unreachable_nodes();
        proof {
            self.lemma_reclaimed_from(&mid, old(self));
        }
    }

    /// Takes every snapshot of `writer` out of the list of root nodes, and
    /// leaves the nodes as they are.
    fn drop_branch(&mut self, writer: PublicKey)
        requires
            old(self).wf(),
        ensures
            final(self).wf(),
            final(self).blocks_accounted(),
            forall|r: RootNode|
                #![trigger has_root(final(self).roots@, r)]
                #![trigger has_root(old(self).roots@, r)]
                has_root(final(self).roots@, r) <==> (has_root(old(self).roots@, r)
                    && r.proof.writer_id != writer),
            final(self).next_snapshot_id == old(self).next_snapshot_id,
            final(self).inners0 == old(self).inners0,
            final(self).inners1 == old(self).inners1,
            final(self).inners2 == old(self).inners2,
            final(self).leaves == old(self).leaves,
            final(self).blocks == old(self).blocks,
    {
        self.drop_older(writer, u64::MAX);
        self.mark_unreachable_blocks();
        proof {
            assert forall|r: RootNode|
                #![trigger has_root(self.roots@, r)]
                #![trigger has_root(old(self).roots@, r)]
                has_root(self.roots@, r) <==> (has_root(old(self).roots@, r) && r.proof.writer_id
                    != writer) by {
                if has_root(old(self).roots@, r) {
                    let i = choose|i: int|
                        0 <= i < old(self).roots@.len() && #[trigger] old(self).roots@[i] == r;
                    assert(old(self).roots@[i].snapshot_id < old(self).next_snapshot_id);
                }
            }
        }
    }

    /// Removes the snapshot with id `snapshot_id`, if there is one, and
    /// with it the nodes that no snapshot refers to any more.
    pub fn remove_root(&mut self, snapshot_id: SnapshotId)
        requires
            old(self).wf(),
        ensures
            final(self).wf(),
            final(self).blocks_accounted(),
            forall|r: RootNode|
                #![trigger has_root(final(self).roots@, r)]
                #![trigger has_root(old(self).roots@, r)]
                has_root(final(self).roots@, r) <==> (has_root(old(self).roots@, r) && r.snapshot_id
                    != snapshot_id),
            final(self).reclaimed_from(old(self)),
            final(self).next_snapshot_id == old(self).next_snapshot_id,
    {
        self.drop_root(snapshot_id);
        let ghost mid = *self;
        self.remove_unreachable_nodes();
        proof {
            self.lemma_reclaimed_from(&mid, old(self));
        }
    }

    /// Takes the snapshot with id `snapshot_id` out of the list of root
    /// nodes, if there is one, and leaves the nodes as they are.
    fn drop_root(&mut self, snapshot_id: SnapshotId)
        requires
            old(self).wf(),
        ensures
            final(self).wf(),
            final(self).blocks_accounted(),
            forall|r: RootNode|
                #![trigger has_root(final(self).roots@, r)]
                #![trigger has_root(old(self).roots@, r)]
                has_root(final(self).roots@, r) <==> (has_root(old(self).roots@, r) && r.snapshot_id
                    != snapshot_id),
            final(self).next_snapshot_id == old(self).next_snapshot_id,
            final(self).inners0 == old(self).inners0,
            final(self).inners1 == old(self).inners1,
            final(self).inners2 == old(self).inners2,
            final(self).leaves == old(self).leaves,
            final(self).blocks == old(self).blocks,
    {
        match self.position_of(snapshot_id) {
            Some(pos) => {
                let ghost before = self.roots@;
                self.roots.remove(pos);
                proof {
                    let after = self.roots@;
                    assert forall|a: int, b: int| 0 <= a < b < after.len() implies (
                    #[trigger] after[a]).snapshot_id < (#[trigger] after[b]).snapshot_id by {
                        let a0 = if a < pos {
                            a
                        } else {
                            a + 1
                        };
                        let b0 = if b < pos {
                            b
                        } else {
                            b + 1
                        };
                        assert(before[a0].snapshot_id < before[b0].snapshot_id);
                    }
                    assert forall|j: int| 0 <= j < after.len()
                        implies (#[trigger] after[j]).wf() && (
                    #[trigger] after[j]).snapshot_id < self.next_snapshot_id
                        && (is_settled(after[j])
                        ==> self.spec_complete(after[j].proof.hash)) by {
                        let j0 = if j < pos {
                            j
                        } else {
                            j + 1
                        };
                        assert(after[j] == before[j0]);
                        assert(before[j0].wf());
                    }
                    assert forall|r: RootNode|
                        #![trigger has_root(after, r)]
                        #![trigger has_root(before, r)]
                        has_root(after, r) <==> (has_root(before, r) && r.snapshot_id
                            != snapshot_id) by {
                        if has_root(after, r) {
                            let j = choose|j: int| 0 <= j < after.len() && #[trigger] after[j] == r;
                            let j0 = if j < pos {
                                j
                            } else {
                                j + 1
                            };
                            assert(before[j0] == r);
                            if j0 < pos {
                                assert(before[j0].snapshot_id < before[pos as int].snapshot_id);
                            } else {
                                assert(before[pos as int].snapshot_id < before[j0].snapshot_id);
                            }
                        }
                        if has_root(before, r) && r.snapshot_id != snapshot_id {
                            let j = choose|j: int| 0 <= j < before.len()
                                && #[trigger] before[j] == r;
                            let j1 = if j < pos {
                                j
                            } else {
                                j - 1
                            };
                            assert(after[j1] == r);
                        }
                    }
                }
            },
            None => {
                proof {
                    assert forall|r: RootNode|
                        #![trigger has_root(self.roots@, r)]
                        has_root(self.roots@, r) implies r.snapshot_id != snapshot_id by {
                        let j = choose|j: int| 0 <= j < self.roots@.len()
                            && #[trigger] self.roots@[j] == r;
                    }
                }
            },
        }
        self.mark_unreachable_blocks();
    }
}

} // verus!
