//! What a replica does with the responses of a peer: it validates them,
//! writes them into the store and decides what to ask for next.

use crate::block::tracker::{AcceptedBlock, BlockTracker, BlockTrackerClient, TrackerView};
use crate::crypto::sign::PublicKey;
use crate::error::Error;
use crate::network::debug_payload::DebugReceivedResponse;
use crate::network::message::{Request, ResponseDisambiguator};
use crate::protocol::block::BlockId;
use crate::protocol::node::{InnerNode, InnerNodes, LeafNode, LeafNodes};
use crate::protocol::signed::UntrustedProof;
use crate::protocol::summary::Summary;
use crate::store::client::{InnerNodesStatus, LeafNodesStatus, RootNodeStatus};
use crate::store::Store;
use vstd::prelude::*;

verus! {

/// What a client does after it has handled a response.
#[derive(Debug)]
pub struct Reaction {
    /// The requests to send to the peer next.
    pub requests: Vec<Request>,
    /// The branches whose snapshots have been approved.
    pub new_approved: Vec<PublicKey>,
}

/// The part of a replica that receives from one peer.
#[derive(Debug)]
pub struct Client {
    /// The side of the block tracker that stands for the peer.
    pub tracker_client: BlockTrackerClient,
    /// The size that the blocks of a snapshot may have, in bytes, if it is limited.
    pub quota: Option<u64>,
}

/// The requests for the children of `nodes`, in order.
pub open spec fn child_requests(nodes: Seq<InnerNode>) -> Seq<Request> {
    Seq::new(
        nodes.len(),
        |i: int|
            Request::ChildNodes(
                nodes[i].hash,
                ResponseDisambiguator { block_presence: nodes[i].summary.block_presence },
                crate::network::debug_payload::DebugRequest {  },
            ),
    )
}

/// The state of the tracker after `client` offered each of the blocks of
/// the first `n` of `leaves` and each was required.
pub open spec fn offered_and_required(
    v: TrackerView,
    client: usize,
    leaves: Seq<LeafNode>,
    n: int,
) -> TrackerView
    decreases n,
{
    if n <= 0 {
        v
    } else {
        let b = leaves[n - 1].block_id;
        offered_and_required(v, client, leaves, n - 1).offer(client, b).begin_require(b).commit(b)
    }
}

impl Client {
    /// A client for a new peer.
    pub fn new(tracker: &mut BlockTracker, quota: Option<u64>) -> (c: Client)
        requires
            old(tracker).wf(),
        ensures
            final(tracker).wf(),
            c.quota == quota,
            !old(tracker)@.clients.contains_key(c.tracker_client.client_id),
            final(tracker)@ == old(tracker)@.add_client(c.tracker_client.client_id),
    {
        let tracker_client = tracker.client();
        Client { tracker_client, quota }
    }

    /// Handles a root node that the peer sent: it is stored unless it is
    /// invalid, outdated or known, and its children are asked for if the
    /// peer has something that is missing here.
    pub fn handle_root_node(
        &self,
        store: &mut Store,
        proof: UntrustedProof,
        summary: Summary,
        signature_valid: bool,
        debug: DebugReceivedResponse,
    ) -> (r: Result<Reaction, Error>)
        requires
            old(store).wf(),
            proof.proof.wf(),
        ensures
            final(store).wf(),
            exists|status: Result<RootNodeStatus, Error>|
                #![trigger final(store).root_node_received(old(store), proof, summary.block_presence, signature_valid, self.quota, status)]
                final(store).root_node_received(
                    old(store),
                    proof,
                    summary.block_presence,
                    signature_valid,
                    self.quota,
                    status,
                ) && (match status {
                    Ok(s) => r.is_ok() && r.unwrap().new_approved == s.status.new_approved
                        && r.unwrap().requests@ == (if s.request_children {
                        seq![
                            Request::ChildNodes(
                                proof.proof.hash,
                                ResponseDisambiguator { block_presence: summary.block_presence },
                                crate::network::debug_payload::DebugRequest {  },
                            ),
                        ]
                    } else {
                        Seq::<Request>::empty()
                    }),
                    Err(e) => r.is_err() && r.unwrap_err() == e,
                }),
    {
        let hash = proof.proof.hash;
        let status = store.receive_root_node(
            proof,
            &summary.block_presence,
            signature_valid,
            self.quota,
        );
        let ghost witness = status;
        let r = match status {
            Err(e) => Err(e),
            Ok(status) => {
                let mut requests: Vec<Request> = Vec::new();
                if status.request_children {
                    requests.push(
                        Request::ChildNodes(
                            hash,
                            ResponseDisambiguator::new(summary.block_presence),
                            debug.follow_up(),
                        ),
                    );
                }
                Ok(Reaction { requests, new_approved: status.status.new_approved })
            },
        };
        proof {
            assert(store.root_node_received(
                old(store),
                proof,
                summary.block_presence,
                signature_valid,
                self.quota,
                witness,
            ));
            if witness.is_ok() && witness.unwrap().request_children {
                assert(r.unwrap().requests@ =~= seq![
                    Request::ChildNodes(
                        proof.proof.hash,
                        ResponseDisambiguator { block_presence: summary.block_presence },
                        crate::network::debug_payload::DebugRequest {  },
                    ),
                ]);
            }
        }
        r
    }

    /// Handles a group of inner nodes that the peer sent: it is stored if
    /// its parent is known, and the children of each node for which the
    /// peer has more than is stored here are asked for.
    pub fn handle_inner_nodes(
        &self,
        store: &mut Store,
        nodes: &InnerNodes,
        debug: DebugReceivedResponse,
    ) -> (r: Result<Reaction, Error>)
        requires
            old(store).wf(),
            nodes.wf(),
        ensures
            final(store).wf(),
            exists|status: Result<InnerNodesStatus, Error>|
                #![trigger final(store).inner_nodes_received(old(store), nodes, self.quota, status)]
                final(store).inner_nodes_received(old(store), nodes, self.quota, status) && (
                match status {
                    Ok(s) => r.is_ok() && r.unwrap().new_approved == s.status.new_approved
                        && r.unwrap().requests@ == child_requests(s.request_children@),
                    Err(e) => r.is_err() && r.unwrap_err() == e,
                }),
    {
        let status = store.receive_inner_nodes(nodes, self.quota);
        let ghost witness = status;
        let r = match status {
            Err(e) => Err(e),
            Ok(status) => {
                let mut requests: Vec<Request> = Vec::new();
                let mut i: usize = 0;
                while i < status.request_children.len()
                    invariant
                        i <= status.request_children@.len(),
                        requests@ == child_requests(status.request_children@.subrange(0, i as int)),
                    decreases status.request_children@.len() - i,
                {
                    let node = status.request_children[i];
                    requests.push(
                        Request::ChildNodes(
                            node.hash,
                            ResponseDisambiguator::new(node.summary.block_presence),
                            debug.follow_up(),
                        ),
                    );
                    assert(requests@ =~= child_requests(
                        status.request_children@.subrange(0, i + 1),
                    ));
                    i = i + 1;
                }
                assert(status.request_children@.subrange(0, i as int)
                    =~= status.request_children@);
                Ok(Reaction { requests, new_approved: status.status.new_approved })
            },
        };
        proof {
            assert(store.inner_nodes_received(old(store), nodes, self.quota, witness));
        }
        r
    }

    /// Handles a group of leaf nodes that the peer sent: it is stored if
    /// its parent is known. Each block that the peer has and that is
    /// missing here is recorded in the tracker as offered by the peer and
    /// as required.
    pub fn handle_leaf_nodes(
        &self,
        store: &mut Store,
        tracker: &mut BlockTracker,
        nodes: &LeafNodes,
    ) -> (r: Result<Reaction, Error>)
        requires
            old(store).wf(),
            old(tracker).wf(),
            nodes.wf(),
        ensures
            final(store).wf(),
            final(tracker).wf(),
            exists|status: Result<LeafNodesStatus, Error>|
                #![trigger final(store).leaf_nodes_received(old(store), nodes, self.quota, status)]
                final(store).leaf_nodes_received(old(store), nodes, self.quota, status) && (
                match status {
                    Ok(s) => r.is_ok() && r.unwrap().new_approved == s.status.new_approved
                        && r.unwrap().requests@.len() == 0 && final(tracker)@
                        == offered_and_required(
                        old(tracker)@,
                        self.tracker_client.client_id,
                        s.request_blocks@,
                        s.request_blocks@.len() as int,
                    ),
                    Err(e) => r.is_err() && r.unwrap_err() == e && final(tracker)@ == old(tracker)@,
                }),
    {
        let status = store.receive_leaf_nodes(nodes, self.quota);
        let ghost witness = status;
        let r = match status {
            Err(e) => Err(e),
            Ok(status) => {
                let mut i: usize = 0;
                while i < status.request_blocks.len()
                    invariant
                        tracker.wf(),
                        i <= status.request_blocks@.len(),
                        tracker@ == offered_and_required(
                            old(tracker)@,
                            self.tracker_client.client_id,
                            status.request_blocks@,
                            i as int,
                        ),
                    decreases status.request_blocks@.len() - i,
                {
                    let block_id = status.request_blocks[i].block_id;
                    self.tracker_client.offer(tracker, block_id);
                    let require = tracker.begin_require(block_id);
                    require.commit(tracker);
                    i = i + 1;
                }
                Ok(Reaction { requests: Vec::new(), new_approved: status.status.new_approved })
            },
        };
        proof {
            assert(store.leaf_nodes_received(old(store), nodes, self.quota, witness));
        }
        r
    }

    /// Handles a block that the peer sent for the request that `accepted`
    /// was accepted for. The block is written if its content hashes to
    /// the id that was asked for and the index refers to it, and is then
    /// complete in the tracker. A block that the index does not refer to
    /// any more is complete in the tracker all the same: nobody needs it.
    /// A block with the wrong content, or the wrong length, is given back
    /// to the tracker, for another peer to deliver.
    ///
    /// Returns the writers of the snapshots that refer to the block.
    pub fn handle_block(
        &self,
        store: &mut Store,
        tracker: &mut BlockTracker,
        content: Vec<u8>,
        nonce: Vec<u8>,
        accepted: &AcceptedBlock,
    ) -> (r: Result<Vec<PublicKey>, Error>)
        requires
            old(store).wf(),
            old(tracker).wf(),
        ensures
            final(store).wf(),
            final(tracker).wf(),
            r.is_err() <==> old(store).spec_received_block_error(
                content@,
                nonce@,
                accepted.block_id,
            ).is_some(),
            r.is_err() ==> r.unwrap_err() == old(store).spec_received_block_error(
                content@,
                nonce@,
                accepted.block_id,
            ).unwrap() && *final(store) == *old(store),
            r.is_ok()
                ==> final(store).blocks@.contains_key(accepted.block_id.hash)
                && final(store).blocks@[accepted.block_id.hash].content@ == content@
                && final(store).blocks_accounted(),
            final(tracker)@ == (if r.is_ok() || r.unwrap_err() == Error::BlockNotReferenced {
                old(tracker)@.complete(accepted.block_id)
            } else {
                old(tracker)@.cancel(accepted.client_id, accepted.block_id)
            }),
    {
        match store.write_received_block(content, nonce, &accepted.block_id) {
            Ok(writers) => {
                accepted.complete(tracker);
                Ok(writers)
            },
            Err(Error::BlockNotReferenced) => {
                accepted.complete(tracker);
                Err(Error::BlockNotReferenced)
            },
            Err(e) => {
                accepted.cancel(tracker);
                Err(e)
            },
        }
    }

    /// Marks the block as required in the tracker unless it is stored.
    /// Returns whether it became required by this.
    pub fn require_missing_block(store: &Store, tracker: &mut BlockTracker, block_id: BlockId) -> (notify:
        bool)
        requires
            store.wf(),
            old(tracker).wf(),
        ensures
            final(tracker).wf(),
            final(tracker)@ == (if store.blocks@.contains_key(block_id.hash) {
                old(tracker)@
            } else {
                old(tracker)@.begin_require(block_id).commit(block_id)
            }),
            notify == (!store.blocks@.contains_key(block_id.hash) && old(tracker)@.entry(
                block_id,
            ).required == 0),
    {
        if store.block_exists(&block_id) {
            false
        } else {
            let require = tracker.begin_require(block_id);
            require.commit(tracker)
        }
    }

    /// The block to ask the peer for next, if the peer offers one that is
    /// required and that no other peer is downloading.
    pub fn next_block(&self, tracker: &mut BlockTracker) -> (r: Option<AcceptedBlock>)
        requires
            old(tracker).wf(),
        ensures
            final(tracker).wf(),
            final(tracker)@ == old(tracker)@.try_accept(self.tracker_client.client_id),
            match r {
                Some(accepted) => old(tracker)@.next_for(self.tracker_client.client_id) == Some(
                    accepted.block_id,
                ) && accepted.client_id == self.tracker_client.client_id,
                None => old(tracker)@.next_for(self.tracker_client.client_id).is_none(),
            },
    {
        self.tracker_client.try_accept_(tracker)
    }
}

} // verus!
