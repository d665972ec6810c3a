//! The requests that were sent and wait for their responses.

use crate::block::tracker::AcceptedBlock;
use crate::crypto::hash;
use crate::crypto::sign::PublicKey;
use crate::network::debug_payload::{DebugReceivedResponse, DebugRequest};
use crate::network::message::{Request, Response, ResponseDisambiguator};
use crate::protocol::block::BlockId;
use crate::protocol::node::{InnerNodes, LeafNodes};
use crate::protocol::signed::UntrustedProof;
use crate::protocol::summary::Summary;
use vstd::prelude::*;

verus! {

/// If a response to a pending block request is not received within this
/// many milliseconds, the request times out.
pub const REQUEST_TIMEOUT: u64 = 30000;

/// What a request is about. Two requests with the same key are the same request.
#[derive(Clone, Copy, Debug, PartialEq, Eq, Structural)]
pub enum Key {
    RootNode(PublicKey),
    ChildNodes(hash::Hash, ResponseDisambiguator),
    Block(BlockId),
}

/// A request that is about to be sent.
#[derive(Debug)]
pub enum PendingRequest {
    RootNode(PublicKey, DebugRequest),
    ChildNodes(hash::Hash, ResponseDisambiguator, DebugRequest),
    Block(AcceptedBlock, DebugRequest),
}

impl PendingRequest {
    pub open spec fn spec_key(&self) -> Key {
        match self {
            PendingRequest::RootNode(public_key, _) => Key::RootNode(*public_key),
            PendingRequest::ChildNodes(hash, disambiguator, _) => Key::ChildNodes(
                *hash,
                *disambiguator,
            ),
            PendingRequest::Block(block_promise, _) => Key::Block(block_promise.block_id),
        }
    }

    /// What the request is about. Debug payloads are ignored in keys.
    pub fn to_key(&self) -> (k: Key)
        ensures
            k == self.spec_key(),
    {
        match self {
            PendingRequest::RootNode(public_key, _) => Key::RootNode(*public_key),
            PendingRequest::ChildNodes(hash, disambiguator, _) => Key::ChildNodes(
                *hash,
                *disambiguator,
            ),
            PendingRequest::Block(block_promise, _) => Key::Block(block_promise.block_id),
        }
    }

    /// The message to send for the request.
    pub fn to_message(&self) -> (m: Request)
        ensures
            m == (match self {
                PendingRequest::RootNode(public_key, debug) => Request::RootNode(
                    *public_key,
                    *debug,
                ),
                PendingRequest::ChildNodes(hash, disambiguator, debug) => Request::ChildNodes(
                    *hash,
                    *disambiguator,
                    *debug,
                ),
                PendingRequest::Block(block_promise, debug) => Request::Block(
                    block_promise.block_id,
                    *debug,
                ),
            }),
    {
        match self {
            PendingRequest::RootNode(public_key, debug) => Request::RootNode(
                *public_key,
                debug.send(),
            ),
            PendingRequest::ChildNodes(hash, disambiguator, debug) => Request::ChildNodes(
                *hash,
                *disambiguator,
                debug.send(),
            ),
            PendingRequest::Block(block_promise, debug) => Request::Block(
                block_promise.block_id,
                debug.send(),
            ),
        }
    }
}

/// The right to have one more request in flight.
#[derive(Clone, Copy, Debug, PartialEq, Eq, Structural)]
pub struct Permit {
    pub id: u64,
}

/// When sending requests, they are limited in two ways: by how many
/// requests are sent to the peer across all repositories, and by how many
/// responses of a client are queued up.
#[derive(Clone, Copy, Debug, PartialEq, Eq, Structural)]
pub struct CompoundPermit {
    pub peer_permit: Permit,
    pub client_permit: Permit,
}

/// A response that was matched with its request, or that needs none.
#[derive(Debug)]
#[allow(inconsistent_fields)]
pub enum PendingResponse {
    RootNode {
        proof: UntrustedProof,
        summary: Summary,
        permit: Option<Permit>,
        debug: DebugReceivedResponse,
    },
    InnerNodes { nodes: InnerNodes, hash: hash::Hash, permit: Option<Permit>, debug: DebugReceivedResponse },
    LeafNodes { nodes: LeafNodes, hash: hash::Hash, permit: Option<Permit>, debug: DebugReceivedResponse },
    Block {
        content: Vec<u8>,
        nonce: Vec<u8>,
        block_id: BlockId,
        block_promise: Option<AcceptedBlock>,
        permit: Option<Permit>,
        debug: DebugReceivedResponse,
    },
}

/// A response that carries what was asked for.
#[derive(Debug)]
pub enum Success {
    RootNode { proof: UntrustedProof, summary: Summary, debug: DebugReceivedResponse },
    InnerNodes(InnerNodes, hash::Hash, ResponseDisambiguator, DebugReceivedResponse),
    LeafNodes(LeafNodes, hash::Hash, ResponseDisambiguator, DebugReceivedResponse),
    Block { content: Vec<u8>, nonce: Vec<u8>, block_id: BlockId, debug: DebugReceivedResponse },
}

/// A response that says that the peer could not give what was asked for.
#[derive(Clone, Copy, Debug, PartialEq, Eq, Structural)]
pub enum Failure {
    RootNode(PublicKey, DebugReceivedResponse),
    ChildNodes(hash::Hash, ResponseDisambiguator, DebugReceivedResponse),
    Block(BlockId, DebugReceivedResponse),
}

/// A response with what is needed to find its request: the hash of the
/// nodes, or the id of the block, that it carries.
#[derive(Debug)]
pub enum ProcessedResponse {
    Success(Success),
    Failure(Failure),
}

impl ProcessedResponse {
    pub open spec fn spec_key(&self) -> Key {
        match self {
            ProcessedResponse::Success(Success::RootNode { proof, .. }) => Key::RootNode(
                proof.proof.writer_id,
            ),
            ProcessedResponse::Success(Success::InnerNodes(_, hash, disambiguator, _)) => Key::ChildNodes(
                *hash,
                *disambiguator,
            ),
            ProcessedResponse::Success(Success::LeafNodes(_, hash, disambiguator, _)) => Key::ChildNodes(
                *hash,
                *disambiguator,
            ),
            ProcessedResponse::Success(Success::Block { block_id, .. }) => Key::Block(*block_id),
            ProcessedResponse::Failure(Failure::RootNode(branch_id, _)) => Key::RootNode(
                *branch_id,
            ),
            ProcessedResponse::Failure(Failure::ChildNodes(hash, disambiguator, _)) => Key::ChildNodes(
                *hash,
                *disambiguator,
            ),
            ProcessedResponse::Failure(Failure::Block(block_id, _)) => Key::Block(*block_id),
        }
    }

    /// The key of the request that the response answers.
    pub fn to_key(&self) -> (k: Key)
        ensures
            k == self.spec_key(),
    {
        match self {
            ProcessedResponse::Success(Success::RootNode { proof, .. }) => Key::RootNode(
                proof.proof.writer_id,
            ),
            ProcessedResponse::Success(Success::InnerNodes(_, hash, disambiguator, _)) => Key::ChildNodes(
                *hash,
                *disambiguator,
            ),
            ProcessedResponse::Success(Success::LeafNodes(_, hash, disambiguator, _)) => Key::ChildNodes(
                *hash,
                *disambiguator,
            ),
            ProcessedResponse::Success(Success::Block { block_id, .. }) => Key::Block(*block_id),
            ProcessedResponse::Failure(Failure::RootNode(branch_id, _)) => Key::RootNode(
                *branch_id,
            ),
            ProcessedResponse::Failure(Failure::ChildNodes(hash, disambiguator, _)) => Key::ChildNodes(
                *hash,
                *disambiguator,
            ),
            ProcessedResponse::Failure(Failure::Block(block_id, _)) => Key::Block(*block_id),
        }
    }

    /// Whether `self` is `response` with the hash of its nodes, or the id
    /// of its block, worked out.
    pub open spec fn is_from(&self, response: Response) -> bool {
        match response {
            Response::RootNode { proof, summary, debug } => *self == ProcessedResponse::Success(
                Success::RootNode { proof, summary, debug: DebugReceivedResponse {  } },
            ),
            Response::InnerNodes(nodes, disambiguator, debug) => *self
                == ProcessedResponse::Success(
                Success::InnerNodes(
                    nodes,
                    nodes.spec_hash(),
                    disambiguator,
                    DebugReceivedResponse {  },
                ),
            ),
            Response::LeafNodes(nodes, disambiguator, debug) => *self == ProcessedResponse::Success(
                Success::LeafNodes(
                    nodes,
                    nodes.spec_hash(),
                    disambiguator,
                    DebugReceivedResponse {  },
                ),
            ),
            Response::Block { content, nonce, debug } => *self == ProcessedResponse::Success(
                Success::Block {
                    content,
                    nonce,
                    block_id: BlockId::spec_from_content(content@),
                    debug: DebugReceivedResponse {  },
                },
            ),
            Response::RootNodeError(branch_id, debug) => *self == ProcessedResponse::Failure(
                Failure::RootNode(branch_id, DebugReceivedResponse {  }),
            ),
            Response::ChildNodesError(hash, disambiguator, debug) => *self
                == ProcessedResponse::Failure(
                Failure::ChildNodes(hash, disambiguator, DebugReceivedResponse {  }),
            ),
            Response::BlockError(block_id, debug) => *self == ProcessedResponse::Failure(
                Failure::Block(block_id, DebugReceivedResponse {  }),
            ),
        }
    }

    /// Works out the hash of the nodes, or the id of the block, that a
    /// response carries. Groups of inner nodes that do not have a slot for
    /// every bucket are taken as they are, with the hash of no nodes.
    pub fn from(response: Response) -> (r: ProcessedResponse)
        requires
            response matches Response::InnerNodes(nodes, _, _) ==> nodes.wf(),
        ensures
            r.is_from(response),
    {
        match response {
            Response::RootNode { proof, summary, debug } => ProcessedResponse::Success(
                Success::RootNode { proof, summary, debug: debug.received() },
            ),
            Response::InnerNodes(nodes, disambiguator, debug) => {
                let hash = nodes.hash();
                ProcessedResponse::Success(
                    Success::InnerNodes(nodes, hash, disambiguator, debug.received()),
                )
            },
            Response::LeafNodes(nodes, disambiguator, debug) => {
                let hash = nodes.hash();
                ProcessedResponse::Success(
                    Success::LeafNodes(nodes, hash, disambiguator, debug.received()),
                )
            },
            Response::Block { content, nonce, debug } => {
                let block_id = BlockId::from_content(content.as_slice());
                ProcessedResponse::Success(
                    Success::Block { content, nonce, block_id, debug: debug.received() },
                )
            },
            Response::RootNodeError(branch_id, debug) => ProcessedResponse::Failure(
                Failure::RootNode(branch_id, debug.received()),
            ),
            Response::ChildNodesError(hash, disambiguator, debug) => ProcessedResponse::Failure(
                Failure::ChildNodes(hash, disambiguator, debug.received()),
            ),
            Response::BlockError(block_id, debug) => ProcessedResponse::Failure(
                Failure::Block(block_id, debug.received()),
            ),
        }
    }
}

/// What is kept of a request while it waits for its response.
#[derive(Clone, Copy, Debug, PartialEq, Eq, Structural)]
pub struct RequestData {
    /// When the request was sent, in milliseconds.
    pub timestamp: u64,
    /// The block that was accepted for the request, if it asks for a block.
    pub block_promise: Option<AcceptedBlock>,
    pub permit: CompoundPermit,
}

/// A pending request: its key and what is kept of it.
#[derive(Clone, Copy, Debug, PartialEq, Eq, Structural)]
pub struct Slot {
    pub key: Key,
    pub data: RequestData,
}

/// Counts of what goes on between a repository and its peers.
#[derive(Clone, Copy, Debug, PartialEq, Eq, Structural)]
pub struct RepositoryStats {
    /// Current number of sent index requests without a response.
    pub index_requests_inflight: u64,
    /// Current number of sent block requests without a response.
    pub block_requests_inflight: u64,
    /// Total number of requests that timed out.
    pub request_timeouts: u64,
    /// How long the request that was answered last was in flight, in milliseconds.
    pub last_request_duration: Option<u64>,
}

/// One more than `n`, or `n` if there is no more.
pub open spec fn up(n: u64) -> u64 {
    if n < u64::MAX {
        (n + 1) as u64
    } else {
        n
    }
}

/// One less than `n`, or zero if `n` is zero.
pub open spec fn down(n: u64) -> u64 {
    if n > 0 {
        (n - 1) as u64
    } else {
        n
    }
}

impl RepositoryStats {
    /// The counts after a request with key `key` was sent.
    pub open spec fn added(self, key: Key) -> RepositoryStats {
        match key {
            Key::Block(_) => RepositoryStats {
                block_requests_inflight: up(self.block_requests_inflight),
                ..self
            },
            _ => RepositoryStats {
                index_requests_inflight: up(self.index_requests_inflight),
                ..self
            },
        }
    }

    /// The counts after a request with key `key` left, after `duration` milliseconds if that is known.
    pub open spec fn removed(self, key: Key, duration: Option<u64>) -> RepositoryStats {
        let counted = match key {
            Key::Block(_) => RepositoryStats {
                block_requests_inflight: down(self.block_requests_inflight),
                ..self
            },
            _ => RepositoryStats {
                index_requests_inflight: down(self.index_requests_inflight),
                ..self
            },
        };
        match duration {
            Some(d) => RepositoryStats { last_request_duration: Some(d), ..counted },
            None => counted,
        }
    }

    /// The counts before anything went on.
    pub open spec fn zero() -> RepositoryStats {
        RepositoryStats {
            index_requests_inflight: 0,
            block_requests_inflight: 0,
            request_timeouts: 0,
            last_request_duration: None,
        }
    }

    pub fn new() -> (s: RepositoryStats)
        ensures
            s == RepositoryStats::zero(),
    {
        RepositoryStats {
            index_requests_inflight: 0,
            block_requests_inflight: 0,
            request_timeouts: 0,
            last_request_duration: None,
        }
    }

    pub fn request_added(&mut self, key: &Key)
        ensures
            *final(self) == old(self).added(*key),
    {
        match key {
            Key::Block(_) => {
                if self.block_requests_inflight < u64::MAX {
                    self.block_requests_inflight = self.block_requests_inflight + 1;
                }
            },
            _ => {
                if self.index_requests_inflight < u64::MAX {
                    self.index_requests_inflight = self.index_requests_inflight + 1;
                }
            },
        }
    }

    pub fn request_removed(&mut self, key: &Key, duration: Option<u64>)
        ensures
            *final(self) == old(self).removed(*key, duration),
    {
        match key {
            Key::Block(_) => {
                if self.block_requests_inflight > 0 {
                    self.block_requests_inflight = self.block_requests_inflight - 1;
                }
            },
            _ => {
                if self.index_requests_inflight > 0 {
                    self.index_requests_inflight = self.index_requests_inflight - 1;
                }
            },
        }
        match duration {
            Some(d) => {
                self.last_request_duration = Some(d);
            },
            None => {},
        }
    }
}

/// The position of the request with key `key` in `slots`, or -1.
pub open spec fn slot_of(slots: Seq<Slot>, key: Key) -> int
    decreases slots.len(),
{
    if slots.len() == 0 {
        -1
    } else if slots.last().key == key {
        slots.len() - 1
    } else {
        slot_of(slots.drop_last(), key)
    }
}

pub proof fn lemma_slot_of(slots: Seq<Slot>, key: Key)
    ensures
        -1 <= slot_of(slots, key) < slots.len(),
        slot_of(slots, key) >= 0 ==> slots[slot_of(slots, key)].key == key,
        slot_of(slots, key) < 0 ==> forall|i: int| 0 <= i < slots.len()
            ==> (#[trigger] slots[i]).key != key,
    decreases slots.len(),
{
    if slots.len() > 0 && slots.last().key != key {
        lemma_slot_of(slots.drop_last(), key);
        assert forall|i: int| 0 <= i < slots.len() && slot_of(slots, key) < 0 implies (
        #[trigger] slots[i]).key != key by {
            if i < slots.len() - 1 {
                assert(slots.drop_last()[i].key != key);
            }
        }
    }
}

/// Whether no two requests of `slots` have the same key.
pub open spec fn keys_distinct(slots: Seq<Slot>) -> bool {
    forall|i: int, j: int| 0 <= i < j < slots.len()
        ==> (#[trigger] slots[i]).key != (#[trigger] slots[j]).key
}

/// What `remove` hands out for a response that was matched with the
/// request data `data`: the response with the permit of the client, and
/// with the accepted block if it carries a block, or nothing if the
/// response says that the request failed.
pub open spec fn matched(response: ProcessedResponse, data: RequestData) -> Option<PendingResponse> {
    match response {
        ProcessedResponse::Success(Success::RootNode { proof, summary, debug }) => Some(
            PendingResponse::RootNode {
                proof,
                summary,
                permit: Some(data.permit.client_permit),
                debug,
            },
        ),
        ProcessedResponse::Success(Success::InnerNodes(nodes, hash, _, debug)) => Some(
            PendingResponse::InnerNodes {
                nodes,
                hash,
                permit: Some(data.permit.client_permit),
                debug,
            },
        ),
        ProcessedResponse::Success(Success::LeafNodes(nodes, hash, _, debug)) => Some(
            PendingResponse::LeafNodes {
                nodes,
                hash,
                permit: Some(data.permit.client_permit),
                debug,
            },
        ),
        ProcessedResponse::Success(Success::Block { content, nonce, block_id, debug }) => Some(
            PendingResponse::Block {
                content,
                nonce,
                block_id,
                block_promise: data.block_promise,
                permit: Some(data.permit.client_permit),
                debug,
            },
        ),
        ProcessedResponse::Failure(_) => None,
    }
}

/// What `remove` hands out for a response without a request: only a root
/// node may come unasked.
pub open spec fn unmatched(response: ProcessedResponse) -> Option<PendingResponse> {
    match response {
        ProcessedResponse::Success(Success::RootNode { proof, summary, debug }) => Some(
            PendingResponse::RootNode { proof, summary, permit: None, debug },
        ),
        _ => None,
    }
}

/// The requests that were sent and wait for their responses, by their keys.
#[derive(Debug)]
pub struct PendingRequests {
    pub slots: Vec<Slot>,
    pub stats: RepositoryStats,
}

impl PendingRequests {
    pub open spec fn wf(&self) -> bool {
        keys_distinct(self.slots@)
    }

    /// What is kept of the request with key `key`, if it is pending.
    pub open spec fn spec_get(&self, key: Key) -> Option<RequestData> {
        if slot_of(self.slots@, key) >= 0 {
            Some(self.slots@[slot_of(self.slots@, key)].data)
        } else {
            None
        }
    }

    pub fn new() -> (p: PendingRequests)
        ensures
            p.wf(),
            p.slots@.len() == 0,
            p.stats == RepositoryStats::zero(),
    {
        PendingRequests { slots: Vec::new(), stats: RepositoryStats::new() }
    }

    /// The position of the request with key `key`.
    pub fn position(&self, key: &Key) -> (r: Option<usize>)
        requires
            self.wf(),
        ensures
            match r {
                Some(i) => i as int == slot_of(self.slots@, *key) && i < self.slots@.len()
                    && self.slots@[i as int].key == *key,
                None => slot_of(self.slots@, *key) < 0,
            },
    {
        let mut i: usize = 0;
        while i < self.slots.len()
            invariant
                self.wf(),
                i <= self.slots@.len(),
                forall|j: int| 0 <= j < i ==> (#[trigger] self.slots@[j]).key != *key,
            decreases self.slots@.len() - i,
        {
            if self.slots[i].key == *key {
                proof {
                    lemma_slot_of(self.slots@, *key);
                    let j = slot_of(self.slots@, *key);
                    if j < 0 {
                        assert(self.slots@[i as int].key != *key);
                    } else if j < i {
                        assert(self.slots@[j].key != *key);
                    } else if i < j {
                        assert(self.slots@[i as int].key != self.slots@[j].key);
                    }
                }
                return Some(i);
            }
            i = i + 1;
        }
        proof {
            lemma_slot_of(self.slots@, *key);
        }
        None
    }

    pub fn contains(&self, key: &Key) -> (r: bool)
        requires
            self.wf(),
        ensures
            r == self.spec_get(*key).is_some(),
    {
        self.position(key).is_some()
    }

    /// Records a request that is about to be sent at time `now`. Returns
    /// `false`, and records nothing, if a request with the same key is
    /// pending already: the request is then not to be sent, and its
    /// permits and its accepted block are to be given back.
    pub fn insert(&mut self, pending_request: PendingRequest, permit: CompoundPermit, now: u64) -> (r:
        bool)
        requires
            old(self).wf(),
        ensures
            final(self).wf(),
            r == old(self).spec_get(pending_request.spec_key()).is_none(),
            !r ==> *final(self) == *old(self),
            r ==> final(self).slots@ == old(self).slots@.push(
                Slot {
                    key: pending_request.spec_key(),
                    data: RequestData {
                        timestamp: now,
                        block_promise: match pending_request {
                            PendingRequest::Block(block_promise, _) => Some(block_promise),
                            _ => None,
                        },
                        permit,
                    },
                },
            ) && final(self).stats == old(self).stats.added(pending_request.spec_key()),
            r ==> final(self).spec_get(pending_request.spec_key()) == Some(
                RequestData {
                    timestamp: now,
                    block_promise: match pending_request {
                        PendingRequest::Block(block_promise, _) => Some(block_promise),
                        _ => None,
                    },
                    permit,
                },
            ),
    {
        let key = pending_request.to_key();
        if self.position(&key).is_some() {
            return false;
        }
        let block_promise = match pending_request {
            PendingRequest::RootNode(_, _) => None,
            PendingRequest::ChildNodes(_, _, _) => None,
            PendingRequest::Block(block_promise, _) => Some(block_promise),
        };
        proof {
            lemma_slot_of(self.slots@, key);
        }
        self.slots.push(Slot { key, data: RequestData { timestamp: now, block_promise, permit } });
        self.stats.request_added(&key);
        proof {
            assert(self.slots@.drop_last() =~= old(self).slots@);
        }
        true
    }

    /// Takes the request that `response`, received at time `now`, answers
    /// out of the pending ones and hands the response out with the permit
    /// of the client and, for a block, with the accepted block. A
    /// response that says that the request failed only frees the request.
    /// A response without a pending request is handed out only if it is a
    /// root node.
    pub fn remove(&mut self, response: Response, now: u64) -> (r: Option<PendingResponse>)
        requires
            old(self).wf(),
            response matches Response::InnerNodes(nodes, _, _) ==> nodes.wf(),
        ensures
            final(self).wf(),
            exists|processed: ProcessedResponse|
                #![trigger processed.is_from(response)]
                processed.is_from(response) && final(self).removed_by(old(self), processed, now, r),
    {
        let response = ProcessedResponse::from(response);
        let key = response.to_key();
        let ghost processed = response;
        let r = match self.position(&key) {
            Some(i) => {
                let slot = self.slots.remove(i);
                proof {
                    assert forall|a: int, b: int| 0 <= a < b < self.slots@.len() implies (
                    #[trigger] self.slots@[a]).key != (#[trigger] self.slots@[b]).key by {
                        let a0 = if a < i {
                            a
                        } else {
                            a + 1
                        };
                        let b0 = if b < i {
                            b
                        } else {
                            b + 1
                        };
                        assert(old(self).slots@[a0].key != old(self).slots@[b0].key);
                    }
                }
                let duration = if now >= slot.data.timestamp {
                    now - slot.data.timestamp
                } else {
                    0
                };
                self.stats.request_removed(&key, Some(duration));
                // The permit of the peer is free again; the client needs
                // its own until it has processed the response.
                let permit = Some(slot.data.permit.client_permit);
                match response {
                    ProcessedResponse::Success(success) => match success {
                        Success::RootNode { proof, summary, debug } => Some(
                            PendingResponse::RootNode { proof, summary, permit, debug },
                        ),
                        Success::InnerNodes(nodes, hash, _disambiguator, debug) => Some(
                            PendingResponse::InnerNodes { nodes, hash, permit, debug },
                        ),
                        Success::LeafNodes(nodes, hash, _disambiguator, debug) => Some(
                            PendingResponse::LeafNodes { nodes, hash, permit, debug },
                        ),
                        Success::Block { content, nonce, block_id, debug } => Some(
                            PendingResponse::Block {
                                content,
                                nonce,
                                block_id,
                                permit,
                                debug,
                                block_promise: slot.data.block_promise,
                            },
                        ),
                    },
                    ProcessedResponse::Failure(_) => None,
                }
            },
            None => {
                // Only a root node response is allowed to be unsolicited.
                match response {
                    ProcessedResponse::Success(Success::RootNode { proof, summary, debug }) => Some(
                        PendingResponse::RootNode { proof, summary, permit: None, debug },
                    ),
                    _ => None,
                }
            },
        };
        proof {
            assert(self.removed_by(old(self), processed, now, r));
        }
        r
    }

    /// The milliseconds from `then` to `now`, or none if `now` is before `then`.
    pub open spec fn elapsed(then: u64, now: u64) -> u64 {
        if now >= then {
            (now - then) as u64
        } else {
            0
        }
    }

    /// Whether `self` is `old` after the response `processed`, received at
    /// time `now`, was matched with its request, with `r` what is handed out.
    pub open spec fn removed_by(
        &self,
        old: &PendingRequests,
        processed: ProcessedResponse,
        now: u64,
        r: Option<PendingResponse>,
    ) -> bool {
        let key = processed.spec_key();
        let i = slot_of(old.slots@, key);
        if i >= 0 {
            &&& self.slots@ == old.slots@.remove(i)
            &&& self.stats == old.stats.removed(
                key,
                Some(PendingRequests::elapsed(old.slots@[i].data.timestamp, now)),
            )
            &&& r == matched(processed, old.slots@[i].data)
        } else {
            &&& *self == *old
            &&& r == unmatched(processed)
        }
    }
}

/// A pending block request and the time at which it times out.
#[derive(Clone, Copy, Debug, PartialEq, Eq, Structural)]
pub struct Timeout {
    pub key: Key,
    /// The time, in milliseconds, at which the request times out.
    pub deadline: u64,
}

/// The position of the request to time out next among the first `n`
/// requests of `slots`: the first of those with the earliest time among
/// the requests that hold an accepted block. It is -1 if no request holds one.
pub open spec fn earliest(slots: Seq<Slot>, n: int) -> int
    decreases n,
{
    if n <= 0 {
        -1
    } else {
        let before = earliest(slots, n - 1);
        if slots[n - 1].data.block_promise.is_none() {
            before
        } else if before < 0 || slots[n - 1].data.timestamp < slots[before].data.timestamp {
            n - 1
        } else {
            before
        }
    }
}

pub proof fn lemma_earliest(slots: Seq<Slot>, n: int)
    requires
        0 <= n <= slots.len(),
    ensures
        -1 <= earliest(slots, n) < n,
        earliest(slots, n) >= 0 ==> slots[earliest(slots, n)].data.block_promise.is_some(),
        forall|j: int|
            0 <= j < n && (#[trigger] slots[j]).data.block_promise.is_some() ==> earliest(slots, n)
                >= 0 && slots[earliest(slots, n)].data.timestamp <= slots[j].data.timestamp,
    decreases n,
{
    if n > 0 {
        lemma_earliest(slots, n - 1);
    }
}

/// The counts after the requests `slots` left, the last one first.
pub open spec fn all_removed(stats: RepositoryStats, slots: Seq<Slot>) -> RepositoryStats
    decreases slots.len(),
{
    if slots.len() == 0 {
        stats
    } else {
        all_removed(stats.removed(slots.last().key, None), slots.drop_last())
    }
}

impl PendingRequests {
    /// The pending block request that times out next, if any request
    /// holds an accepted block: the one that was sent first. Index
    /// requests do not time out.
    pub fn next_timeout(&self) -> (r: Option<Timeout>)
        ensures
            match r {
                Some(t) => {
                    let i = earliest(self.slots@, self.slots@.len() as int);
                    &&& 0 <= i < self.slots@.len()
                    &&& t.key == self.slots@[i].key
                    &&& t.deadline == (if self.slots@[i].data.timestamp <= u64::MAX
                        - REQUEST_TIMEOUT {
                        (self.slots@[i].data.timestamp + REQUEST_TIMEOUT) as u64
                    } else {
                        u64::MAX
                    })
                },
                None => earliest(self.slots@, self.slots@.len() as int) < 0,
            },
    {
        let mut best: Option<usize> = None;
        let mut i: usize = 0;
        while i < self.slots.len()
            invariant
                i <= self.slots@.len(),
                match best {
                    Some(b) => b as int == earliest(self.slots@, i as int) && b < i,
                    None => earliest(self.slots@, i as int) < 0,
                },
            decreases self.slots@.len() - i,
        {
            let slot = &self.slots[i];
            if slot.data.block_promise.is_some() {
                let better = match best {
                    Some(b) => slot.data.timestamp < self.slots[b].data.timestamp,
                    None => true,
                };
                if better {
                    best = Some(i);
                }
            }
            i = i + 1;
        }
        match best {
            Some(b) => {
                let timestamp = self.slots[b].data.timestamp;
                let deadline = if timestamp <= u64::MAX - REQUEST_TIMEOUT {
                    timestamp + REQUEST_TIMEOUT
                } else {
                    u64::MAX
                };
                Some(Timeout { key: self.slots[b].key, deadline })
            },
            None => None,
        }
    }

    /// Times the request with key `key` out, if it is still pending: the
    /// timeout is counted, and the accepted block that the request held
    /// is taken from it and handed out, to be given back to the tracker.
    /// The request itself stays pending.
    pub fn expire(&mut self, key: &Key) -> (r: Option<AcceptedBlock>)
        requires
            old(self).wf(),
        ensures
            final(self).wf(),
            old(self).spec_get(*key).is_none() ==> *final(self) == *old(self) && r.is_none(),
            old(self).spec_get(*key).is_some() ==> {
                let i = slot_of(old(self).slots@, *key);
                &&& r == old(self).slots@[i].data.block_promise
                &&& final(self).slots@ == old(self).slots@.update(
                    i,
                    Slot {
                        key: *key,
                        data: RequestData { block_promise: None, ..old(self).slots@[i].data },
                    },
                )
                &&& final(self).stats == (RepositoryStats {
                    request_timeouts: up(old(self).stats.request_timeouts),
                    ..old(self).stats
                })
            },
    {
        match self.position(key) {
            None => None,
            Some(i) => {
                let slot = self.slots[i];
                self.slots.set(
                    i,
                    Slot {
                        key: slot.key,
                        data: RequestData {
                            timestamp: slot.data.timestamp,
                            block_promise: None,
                            permit: slot.data.permit,
                        },
                    },
                );
                if self.stats.request_timeouts < u64::MAX {
                    self.stats.request_timeouts = self.stats.request_timeouts + 1;
                }
                proof {
                    assert forall|a: int, b: int| 0 <= a < b < self.slots@.len() implies (
                    #[trigger] self.slots@[a]).key != (#[trigger] self.slots@[b]).key by {
                        assert(old(self).slots@[a].key != old(self).slots@[b].key);
                    }
                }
                slot.data.block_promise
            },
        }
    }

    /// Forgets every pending request and takes each out of the counts of
    /// requests in flight. Returns the requests that were pending, so that
    /// their permits and accepted blocks can be given back.
    pub fn clear(&mut self) -> (gone: Vec<Slot>)
        requires
            old(self).wf(),
        ensures
            final(self).wf(),
            final(self).slots@.len() == 0,
            gone@ == old(self).slots@,
            final(self).stats == all_removed(old(self).stats, old(self).slots@),
    {
        let mut gone: Vec<Slot> = Vec::new();
        let ghost start = self.slots@;
        let mut i: usize = self.slots.len();
        assert(start.subrange(0, i as int) =~= start);
        while i > 0
            invariant
                i <= start.len(),
                self.slots@ == start,
                all_removed(self.stats, start.subrange(0, i as int)) == all_removed(
                    old(self).stats,
                    start,
                ),
            decreases i,
        {
            proof {
                let head = start.subrange(0, i as int);
                assert(head.drop_last() =~= start.subrange(0, i - 1));
                assert(head.last() == start[i - 1]);
            }
            i = i - 1;
            let key = self.slots[i].key;
            self.stats.request_removed(&key, None);
        }
        proof {
            assert(start.subrange(0, 0) =~= Seq::<Slot>::empty());
        }
        let mut j: usize = 0;
        while j < self.slots.len()
            invariant
                j <= self.slots@.len(),
                self.slots@ == start,
                gone@ == start.subrange(0, j as int),
            decreases self.slots@.len() - j,
        {
            gone.push(self.slots[j]);
            assert(gone@ =~= start.subrange(0, j + 1));
            j = j + 1;
        }
        assert(gone@ =~= start);
        self.slots = Vec::new();
        gone
    }
}

} // verus!
