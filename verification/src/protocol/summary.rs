//! Per-subtree aggregate of completeness and block presence.

use crate::crypto::hash::{
    le_bytes, le_value, lemma_le_bytes_len, pow256, push_word_le, read_le,
};
use crate::error::Error;
use crate::protocol::node::{
    empty_inner_hash, empty_leaf_hash, InnerNode, InnerNodes, LeafNode, LeafNodes,
};
use vstd::prelude::*;

verus! {

/// How much of a subtree of the index is stored locally, and whether the
/// snapshot it belongs to passed the quota check.
#[derive(Clone, Copy, Debug, PartialEq, Eq, Structural)]
pub enum NodeState {
    /// Some nodes are missing.
    Incomplete,
    /// All nodes are present, the quota check was not performed yet.
    Complete,
    /// Quota check passed.
    Approved,
    /// Quota check failed.
    Rejected,
}

impl NodeState {
    pub fn is_approved(self) -> (r: bool)
        ensures
            r == (self == NodeState::Approved),
    {
        match self {
            NodeState::Approved => true,
            _ => false,
        }
    }

    /// The state of a parent that was `self` before its child of state `other` was looked at.
    pub open spec fn spec_update(self, other: NodeState) -> NodeState {
        if self == NodeState::Incomplete || other == NodeState::Incomplete {
            NodeState::Incomplete
        } else if self == NodeState::Complete || other == NodeState::Complete {
            NodeState::Complete
        } else {
            self
        }
    }

    /// Whether `update` is defined on the pair: an approved and a rejected state do not combine.
    pub open spec fn can_update(self, other: NodeState) -> bool {
        !(self == NodeState::Approved && other == NodeState::Rejected) && !(self
            == NodeState::Rejected && other == NodeState::Approved)
    }

    pub fn update(&mut self, other: NodeState)
        requires
            old(self).can_update(other),
        ensures
            *final(self) == old(self).spec_update(other),
    {
        let next = match (*self, other) {
            (NodeState::Incomplete, _) | (_, NodeState::Incomplete) => NodeState::Incomplete,
            (NodeState::Complete, _) | (_, NodeState::Complete) => NodeState::Complete,
            (NodeState::Approved, _) => NodeState::Approved,
            (NodeState::Rejected, _) => NodeState::Rejected,
        };
        *self = next;
    }
}

/// Whether a single block is stored locally.
#[derive(Clone, Copy, Debug, PartialEq, Eq, Structural)]
pub enum SingleBlockPresence {
    Missing,
    Present,
    Expired,
}

impl SingleBlockPresence {
    pub fn is_missing(self) -> (r: bool)
        ensures
            r == (self == SingleBlockPresence::Missing),
    {
        match self {
            SingleBlockPresence::Missing => true,
            SingleBlockPresence::Present => false,
            SingleBlockPresence::Expired => false,
        }
    }

    /// What a leaf with this presence contributes to the summary of its
    /// group: an expired block is advertised as present.
    pub open spec fn spec_as_multi(self) -> MultiBlockPresence {
        match self {
            SingleBlockPresence::Missing => MultiBlockPresence::Absent,
            SingleBlockPresence::Present => MultiBlockPresence::Full,
            SingleBlockPresence::Expired => MultiBlockPresence::Full,
        }
    }

    pub fn as_multi(self) -> (r: MultiBlockPresence)
        ensures
            r == self.spec_as_multi(),
    {
        match self {
            SingleBlockPresence::Missing => MultiBlockPresence::Absent,
            SingleBlockPresence::Present => MultiBlockPresence::Full,
            SingleBlockPresence::Expired => MultiBlockPresence::Full,
        }
    }
}

/// Checksum of the all-missing presence.
pub const CHECKSUM_NONE: u128 = 0;

/// Checksum of the all-present presence.
pub const CHECKSUM_FULL: u128 = 0xffff_ffff_ffff_ffff_ffff_ffff_ffff_ffff;

/// Presence of the blocks below a node of the index.
#[derive(Clone, Copy, Debug, PartialEq, Eq, Hash, Structural)]
pub enum MultiBlockPresence {
    /// All blocks missing.
    Absent,
    /// Some blocks present. Two subtrees with the same checksum hold the same set of blocks.
    Partial(u128),
    /// All blocks present.
    Full,
}

impl MultiBlockPresence {
    pub open spec fn spec_is_outdated(self, other: MultiBlockPresence) -> bool {
        match (self, other) {
            (MultiBlockPresence::Partial(lhs), MultiBlockPresence::Partial(rhs)) => lhs != rhs,
            (MultiBlockPresence::Full, _) => false,
            (_, MultiBlockPresence::Absent) => false,
            _ => true,
        }
    }

    /// Whether `other` may hold a block that `self` lacks.
    pub fn is_outdated(&self, other: &MultiBlockPresence) -> (r: bool)
        ensures
            r == self.spec_is_outdated(*other),
    {
        match (*self, *other) {
            (MultiBlockPresence::Partial(lhs), MultiBlockPresence::Partial(rhs)) => lhs != rhs,
            (MultiBlockPresence::Full, _) => false,
            (_, MultiBlockPresence::Absent) => false,
            (MultiBlockPresence::Absent, _) => true,
            (_, MultiBlockPresence::Full) => true,
        }
    }

    /// The number that stands for this presence in a checksum.
    pub open spec fn spec_checksum_value(self) -> u128 {
        match self {
            MultiBlockPresence::Absent => CHECKSUM_NONE,
            MultiBlockPresence::Partial(checksum) => checksum,
            MultiBlockPresence::Full => CHECKSUM_FULL,
        }
    }

    /// The 16 bytes that stand for this presence: all zero for `Absent`, all
    /// `0xff` for `Full`, the checksum in little-endian order otherwise.
    pub open spec fn spec_checksum(self) -> Seq<u8> {
        le_bytes(self.spec_checksum_value() as nat, 16)
    }

    pub fn checksum_value(&self) -> (r: u128)
        ensures
            r == self.spec_checksum_value(),
    {
        match *self {
            MultiBlockPresence::Absent => CHECKSUM_NONE,
            MultiBlockPresence::Partial(checksum) => checksum,
            MultiBlockPresence::Full => CHECKSUM_FULL,
        }
    }

    pub fn checksum(&self) -> (out: Vec<u8>)
        ensures
            out@ == self.spec_checksum(),
            out@.len() == 16,
    {
        let mut out: Vec<u8> = Vec::new();
        push_word_le(self.checksum_value(), &mut out);
        proof {
            lemma_le_bytes_len(self.spec_checksum_value() as nat, 16);
            assert(out@ =~= self.spec_checksum());
        }
        out
    }

    /// The presence that a stored checksum stands for.
    pub open spec fn spec_from_checksum_value(value: u128) -> MultiBlockPresence {
        if value == CHECKSUM_NONE {
            MultiBlockPresence::Absent
        } else if value == CHECKSUM_FULL {
            MultiBlockPresence::Full
        } else {
            MultiBlockPresence::Partial(value)
        }
    }

    /// The presence that 16 stored bytes stand for: the reverse of
    /// `checksum`. Other numbers of bytes stand for nothing.
    pub fn decode(slice: &[u8]) -> (r: Result<MultiBlockPresence, Error>)
        ensures
            r.is_ok() <==> slice@.len() == 16,
            r.is_err() ==> r == Err::<MultiBlockPresence, Error>(Error::MalformedData),
            r.is_ok() ==> r.unwrap() == MultiBlockPresence::spec_from_checksum_value(
                le_value(slice@) as u128,
            ),
    {
        if slice.len() != 16 {
            return Err(Error::MalformedData);
        }
        Ok(MultiBlockPresence::from_checksum_value(read_le(slice)))
    }

    /// Reading back the bytes of a presence gives the presence, unless
    /// it carries one of the two checksums that stand for none and for all.
    pub proof fn law_checksum_round_trip(self)
        requires
            self matches MultiBlockPresence::Partial(c) ==> c != CHECKSUM_NONE && c
                != CHECKSUM_FULL,
        ensures
            self.spec_checksum().len() == 16,
            MultiBlockPresence::spec_from_checksum_value(le_value(self.spec_checksum()) as u128)
                == self,
    {
        let x = self.spec_checksum_value() as nat;
        lemma_le_bytes_len(x, 16);
        crate::crypto::hash::lemma_le_value_of_bytes(x, 16);
        reveal_with_fuel(pow256, 17);
        assert(pow256(16) == 0x1_0000_0000_0000_0000_0000_0000_0000_0000);
        assert(x % pow256(16) == x);
    }

    pub fn from_checksum_value(value: u128) -> (r: MultiBlockPresence)
        ensures
            r == MultiBlockPresence::spec_from_checksum_value(value),
    {
        if value == CHECKSUM_NONE {
            MultiBlockPresence::Absent
        } else if value == CHECKSUM_FULL {
            MultiBlockPresence::Full
        } else {
            MultiBlockPresence::Partial(value)
        }
    }
}

/// A checksum that is neither of the two reserved values: zero becomes one,
/// the largest value becomes the one below it.
pub open spec fn spec_clamp(s: u128) -> u128 {
    if s == 0 {
        1
    } else if s == u128::MAX {
        (u128::MAX - 1) as u128
    } else {
        s
    }
}

pub fn clamp(s: u128) -> (r: u128)
    ensures
        r == spec_clamp(s),
        r != CHECKSUM_NONE,
        r != CHECKSUM_FULL,
{
    if s == 0 {
        1
    } else if s == u128::MAX {
        u128::MAX - 1
    } else {
        s
    }
}

/// What the one-shot 128-bit XXH3 with the default seed returns for a given input.
pub uninterp spec fn xxh3_128(data: Seq<u8>) -> u128;

/// Calls `xxhash_rust::xxh3::xxh3_128`. The digest depends on the input bytes
/// alone; the contract gives it the name `xxh3_128` and says nothing more of
/// its value.
#[verifier::external_body]
fn xxh3_128_digest(data: &[u8]) -> (out: u128)
    ensures
        out == xxh3_128(data@),
{
    xxhash_rust::xxh3::xxh3_128(data)
}

/// Progress of combining the presences of the children of a node.
#[derive(Clone, Copy, Debug, PartialEq, Eq, Structural)]
pub enum BuilderState {
    Init,
    Absent,
    Partial,
    Full,
}

impl BuilderState {
    pub open spec fn spec_step(self, p: MultiBlockPresence) -> BuilderState {
        match (self, p) {
            (BuilderState::Init, MultiBlockPresence::Absent) => BuilderState::Absent,
            (BuilderState::Init, MultiBlockPresence::Partial(_)) => BuilderState::Partial,
            (BuilderState::Init, MultiBlockPresence::Full) => BuilderState::Full,
            (BuilderState::Absent, MultiBlockPresence::Absent) => BuilderState::Absent,
            (BuilderState::Full, MultiBlockPresence::Full) => BuilderState::Full,
            _ => BuilderState::Partial,
        }
    }
}

/// The builder state after the presences `ps`, from left to right.
pub open spec fn fold_state(ps: Seq<MultiBlockPresence>) -> BuilderState
    decreases ps.len(),
{
    if ps.len() == 0 {
        BuilderState::Init
    } else {
        fold_state(ps.drop_last()).spec_step(ps.last())
    }
}

/// The checksums of `ps`, one after the other.
pub open spec fn fold_input(ps: Seq<MultiBlockPresence>) -> Seq<u8>
    decreases ps.len(),
{
    if ps.len() == 0 {
        Seq::<u8>::empty()
    } else {
        fold_input(ps.drop_last()) + ps.last().spec_checksum()
    }
}

/// The presence of a node whose children have the presences `ps`: `Absent` if
/// there are no children or all are `Absent`, `Full` if all are `Full`, and
/// otherwise `Partial` with the clamped digest of the children's checksums.
pub open spec fn combine_presence(ps: Seq<MultiBlockPresence>) -> MultiBlockPresence {
    match fold_state(ps) {
        BuilderState::Init => MultiBlockPresence::Absent,
        BuilderState::Absent => MultiBlockPresence::Absent,
        BuilderState::Partial => MultiBlockPresence::Partial(spec_clamp(xxh3_128(fold_input(ps)))),
        BuilderState::Full => MultiBlockPresence::Full,
    }
}

/// Combines the block presences of the children of a node into that of the node.
pub struct MultiBlockPresenceBuilder {
    pub state: BuilderState,
    pub input: Vec<u8>,
    pub seen: Ghost<Seq<MultiBlockPresence>>,
}

impl MultiBlockPresenceBuilder {
    pub open spec fn wf(&self) -> bool {
        &&& self.state == fold_state(self.seen@)
        &&& self.input@ == fold_input(self.seen@)
    }

    pub fn new() -> (b: MultiBlockPresenceBuilder)
        ensures
            b.wf(),
            b.seen@ == Seq::<MultiBlockPresence>::empty(),
    {
        MultiBlockPresenceBuilder {
            state: BuilderState::Init,
            input: Vec::new(),
            seen: Ghost(Seq::<MultiBlockPresence>::empty()),
        }
    }

    pub fn update(&mut self, p: MultiBlockPresence)
        requires
            old(self).wf(),
        ensures
            final(self).wf(),
            final(self).seen@ == old(self).seen@.push(p),
    {
        push_word_le(p.checksum_value(), &mut self.input);
        self.state = match (self.state, p) {
            (BuilderState::Init, MultiBlockPresence::Absent) => BuilderState::Absent,
            (BuilderState::Init, MultiBlockPresence::Partial(_)) => BuilderState::Partial,
            (BuilderState::Init, MultiBlockPresence::Full) => BuilderState::Full,
            (BuilderState::Absent, MultiBlockPresence::Absent) => BuilderState::Absent,
            (BuilderState::Full, MultiBlockPresence::Full) => BuilderState::Full,
            _ => BuilderState::Partial,
        };
        proof {
            let ghost next = self.seen@.push(p);
            assert(next.drop_last() =~= self.seen@);
            self.seen = Ghost(next);
        }
    }

    pub fn build(self) -> (r: MultiBlockPresence)
        requires
            self.wf(),
        ensures
            r == combine_presence(self.seen@),
    {
        match self.state {
            BuilderState::Init => MultiBlockPresence::Absent,
            BuilderState::Absent => MultiBlockPresence::Absent,
            BuilderState::Partial => MultiBlockPresence::Partial(
                clamp(xxh3_128_digest(self.input.as_slice())),
            ),
            BuilderState::Full => MultiBlockPresence::Full,
        }
    }
}

/// The presences that the leaf nodes `s` contribute to their group, in order.
pub open spec fn leaf_presences(s: Seq<LeafNode>) -> Seq<MultiBlockPresence> {
    Seq::new(s.len(), |i: int| s[i].block_presence.spec_as_multi())
}

/// The presences of the nodes in `slots` that stand for non-empty groups, by bucket.
pub open spec fn inner_presences(slots: Seq<Option<InnerNode>>) -> Seq<MultiBlockPresence>
    decreases slots.len(),
{
    if slots.len() == 0 {
        Seq::<MultiBlockPresence>::empty()
    } else {
        match slots.last() {
            Some(node) => if node.spec_is_empty() {
                inner_presences(slots.drop_last())
            } else {
                inner_presences(slots.drop_last()).push(node.summary.block_presence)
            },
            None => inner_presences(slots.drop_last()),
        }
    }
}

/// Whether some node in `slots` stands for a non-empty group that is incomplete.
pub open spec fn has_incomplete(slots: Seq<Option<InnerNode>>) -> bool {
    exists|b: int|
        0 <= b < slots.len() && (#[trigger] slots[b]).is_some()
            && !slots[b].unwrap().spec_is_empty()
            && slots[b].unwrap().summary.state == NodeState::Incomplete
}

/// Completeness and block presence of a subtree of the index.
#[derive(Clone, Copy, Debug, PartialEq, Eq, Structural)]
pub struct Summary {
    pub state: NodeState,
    pub block_presence: MultiBlockPresence,
}

impl Summary {
    /// The summary of a subtree that has not been completely received yet.
    pub open spec fn spec_incomplete() -> Summary {
        Summary { state: NodeState::Incomplete, block_presence: MultiBlockPresence::Absent }
    }

    pub fn incomplete() -> (s: Summary)
        ensures
            s == Summary::spec_incomplete(),
    {
        Summary { state: NodeState::Incomplete, block_presence: MultiBlockPresence::Absent }
    }

    /// The summary of a complete subtree all of whose blocks are present.
    pub fn full() -> (s: Summary)
        ensures
            s == (Summary { state: NodeState::Complete, block_presence: MultiBlockPresence::Full }),
    {
        Summary { state: NodeState::Complete, block_presence: MultiBlockPresence::Full }
    }

    /// The summary of the parent of the leaf nodes `nodes`: complete, with
    /// the presences of the leaves combined.
    pub open spec fn spec_from_leaves(nodes: Seq<LeafNode>) -> Summary {
        Summary {
            state: NodeState::Complete,
            block_presence: combine_presence(leaf_presences(nodes)),
        }
    }

    pub fn from_leaves(nodes: &LeafNodes) -> (s: Summary)
        ensures
            s == Summary::spec_from_leaves(nodes.nodes@),
    {
        let mut builder = MultiBlockPresenceBuilder::new();
        let mut i: usize = 0;
        assert(builder.seen@ =~= leaf_presences(nodes.nodes@.subrange(0, 0)));
        while i < nodes.len()
            invariant
                i <= nodes.nodes@.len(),
                builder.wf(),
                builder.seen@ == leaf_presences(nodes.nodes@.subrange(0, i as int)),
            decreases nodes.nodes@.len() - i,
        {
            let node = nodes.get_at(i);
            builder.update(node.block_presence.as_multi());
            proof {
                assert(builder.seen@ =~= leaf_presences(nodes.nodes@.subrange(0, i + 1)));
            }
            i = i + 1;
        }
        assert(nodes.nodes@.subrange(0, i as int) =~= nodes.nodes@);
        Summary { state: NodeState::Complete, block_presence: builder.build() }
    }

    /// The summary of the parent of the inner nodes in `slots`. Nodes that
    /// stand for empty groups are passed over. The parent is incomplete if
    /// one of the others is, and complete otherwise.
    pub open spec fn spec_from_inners(slots: Seq<Option<InnerNode>>) -> Summary {
        Summary {
            state: if has_incomplete(slots) {
                NodeState::Incomplete
            } else {
                NodeState::Complete
            },
            block_presence: combine_presence(inner_presences(slots)),
        }
    }

    pub fn from_inners(nodes: &InnerNodes) -> (s: Summary)
        requires
            nodes.wf(),
        ensures
            s == Summary::spec_from_inners(nodes.slots@),
    {
        let empty_inner = empty_inner_hash();
        let empty_leaf = empty_leaf_hash();
        let mut builder = MultiBlockPresenceBuilder::new();
        let mut state = NodeState::Complete;
        let mut i: usize = 0;
        while i < 256
            invariant
                nodes.wf(),
                i <= 256,
                builder.wf(),
                builder.seen@ == inner_presences(nodes.slots@.subrange(0, i as int)),
                state == (if has_incomplete(nodes.slots@.subrange(0, i as int)) {
                    NodeState::Incomplete
                } else {
                    NodeState::Complete
                }),
                empty_inner == crate::protocol::node::spec_empty_inner_hash(),
                empty_leaf == crate::protocol::node::spec_empty_leaf_hash(),
            decreases 256 - i,
        {
            let ghost prefix = nodes.slots@.subrange(0, i as int);
            let ghost next = nodes.slots@.subrange(0, i + 1);
            proof {
                assert(next.drop_last() =~= prefix);
                assert(next.last() == nodes.slots@[i as int]);
                assert forall|b: int| 0 <= b < i implies next[b] == prefix[b] by {}
            }
            match nodes.get(i as u8) {
                Some(node) => {
                    if !(node.hash == empty_inner || node.hash == empty_leaf) {
                        builder.update(node.summary.block_presence);
                        state.update(node.summary.state);
                        proof {
                            if node.summary.state == NodeState::Incomplete {
                                assert(next[i as int].is_some());
                                assert(has_incomplete(next));
                            }
                        }
                    }
                },
                None => {},
            }
            proof {
                if has_incomplete(prefix) {
                    let b = choose|b: int|
                        0 <= b < prefix.len() && (#[trigger] prefix[b]).is_some()
                            && !prefix[b].unwrap().spec_is_empty()
                            && prefix[b].unwrap().summary.state == NodeState::Incomplete;
                    assert(next[b].is_some());
                    assert(has_incomplete(next));
                }
                if has_incomplete(next) && state != NodeState::Incomplete {
                    let b = choose|b: int|
                        0 <= b < next.len() && (#[trigger] next[b]).is_some()
                            && !next[b].unwrap().spec_is_empty() && next[b].unwrap().summary.state
                            == NodeState::Incomplete;
                    if b < i {
                        assert(prefix[b].is_some());
                        assert(has_incomplete(prefix));
                    }
                    assert(false);
                }
            }
            i = i + 1;
        }
        assert(nodes.slots@.subrange(0, i as int) =~= nodes.slots@);
        Summary { state, block_presence: builder.build() }
    }

    pub open spec fn spec_is_outdated(self, other: Summary) -> bool {
        self.state == NodeState::Incomplete || self.block_presence.spec_is_outdated(
            other.block_presence,
        )
    }

    /// Whether the subtree at `self` is outdated compared to the one at
    /// `other`: it is incomplete, or `other` has blocks that it lacks.
    pub fn is_outdated(&self, other: &Summary) -> (r: bool)
        ensures
            r == self.spec_is_outdated(*other),
    {
        self.state == NodeState::Incomplete || self.block_presence.is_outdated(
            &other.block_presence,
        )
    }

    pub open spec fn with_state_spec(self, state: NodeState) -> Summary {
        Summary { state, block_presence: self.block_presence }
    }

    pub fn with_state(self, state: NodeState) -> (s: Summary)
        ensures
            s == self.with_state_spec(state),
    {
        Summary { state, block_presence: self.block_presence }
    }

    pub fn is_complete(&self) -> (r: bool)
        ensures
            r == (self.state != NodeState::Incomplete),
    {
        match self.state {
            NodeState::Incomplete => false,
            _ => true,
        }
    }
}

} // verus!
