use ouisync::block::tracker::{AcceptedBlock, BlockTracker};
use ouisync::crypto::hash;
use ouisync::crypto::sign::PublicKey;
use ouisync::error::Error;
use ouisync::index::branch_data::BranchData;
use ouisync::network::client::Client;
use ouisync::network::debug_payload::{DebugReceivedResponse, DebugRequest, DebugResponse};
use ouisync::network::message::{Request, Response, ResponseDisambiguator};
use ouisync::network::pending::{
    CompoundPermit, Key, PendingRequest, PendingRequests, PendingResponse, Permit,
    ProcessedResponse, RepositoryStats, REQUEST_TIMEOUT,
};
use ouisync::network::server::handle_request;
use ouisync::protocol::block::{Block, BlockId, BLOCK_NONCE_SIZE, BLOCK_SIZE};
use ouisync::protocol::node::{empty_inner_hash, InnerNode, InnerNodes, LeafNodes};
use ouisync::protocol::root_node::RootNodeFilter;
use ouisync::protocol::signed::{Proof, UntrustedProof};
use ouisync::protocol::summary::{MultiBlockPresence, SingleBlockPresence, Summary};
use ouisync::store::Store;
use ouisync::version_vector::VersionVector;

fn writer(n: u128) -> PublicKey {
    PublicKey { key: hash::Hash { hi: 0xbb00 + n, lo: n } }
}

fn permit(n: u64) -> CompoundPermit {
    CompoundPermit { peer_permit: Permit { id: n }, client_permit: Permit { id: n + 1000 } }
}

fn payload(seed: u8) -> Vec<u8> {
    let mut content = vec![0u8; BLOCK_SIZE];
    for (i, byte) in content.iter_mut().enumerate() {
        *byte = seed.wrapping_mul(17).wrapping_add((i % 241) as u8);
    }
    content
}

fn disambiguator() -> ResponseDisambiguator {
    ResponseDisambiguator::new(MultiBlockPresence::Absent)
}

fn first_proof(writer: PublicKey) -> UntrustedProof {
    UntrustedProof::new(Proof::new(
        writer,
        VersionVector::first(writer),
        empty_inner_hash(),
        vec![1u8; 64],
    ))
}

#[test]
fn pending_request_is_sent_once() {
    let mut pending = PendingRequests::new();
    let request = PendingRequest::RootNode(writer(1), DebugRequest::start());
    assert_eq!(request.to_key(), Key::RootNode(writer(1)));
    assert_eq!(request.to_message(), Request::RootNode(writer(1), DebugRequest::start()));

    assert!(pending.insert(request, permit(1), 10));
    assert!(!pending.insert(PendingRequest::RootNode(writer(1), DebugRequest::start()), permit(2), 11));
    assert!(pending.insert(PendingRequest::RootNode(writer(2), DebugRequest::start()), permit(3), 12));
    assert!(pending.contains(&Key::RootNode(writer(1))));
    assert_eq!(pending.slots.len(), 2);
    assert_eq!(pending.stats.index_requests_inflight, 2);
    assert_eq!(pending.stats.block_requests_inflight, 0);
}

#[test]
fn response_frees_its_request() {
    let mut pending = PendingRequests::new();
    pending.insert(PendingRequest::RootNode(writer(1), DebugRequest::start()), permit(1), 10);

    let response = Response::RootNode {
        proof: first_proof(writer(1)),
        summary: Summary::full(),
        debug: DebugResponse::unsolicited(),
    };
    match pending.remove(response, 25) {
        Some(PendingResponse::RootNode { proof, summary, permit, .. }) => {
            assert_eq!(proof.proof.writer_id, writer(1));
            assert_eq!(summary, Summary::full());
            assert_eq!(permit, Some(Permit { id: 1001 }));
        }
        other => panic!("unexpected: {:?}", other),
    }
    assert!(!pending.contains(&Key::RootNode(writer(1))));
    assert_eq!(pending.stats.index_requests_inflight, 0);
    assert_eq!(pending.stats.last_request_duration, Some(15));
}

#[test]
fn only_root_node_may_come_unasked() {
    let mut pending = PendingRequests::new();

    let response = Response::RootNode {
        proof: first_proof(writer(1)),
        summary: Summary::full(),
        debug: DebugResponse::unsolicited(),
    };
    match pending.remove(response, 0) {
        Some(PendingResponse::RootNode { permit, .. }) => assert_eq!(permit, None),
        other => panic!("unexpected: {:?}", other),
    }

    let mut nodes = InnerNodes::new();
    nodes.insert(1, InnerNode::new(hash::Hash { hi: 1, lo: 1 }, Summary::full()));
    assert!(pending
        .remove(Response::InnerNodes(nodes, disambiguator(), DebugResponse::unsolicited()), 0)
        .is_none());
    assert!(pending
        .remove(
            Response::LeafNodes(LeafNodes::new(), disambiguator(), DebugResponse::unsolicited()),
            0
        )
        .is_none());
    assert!(pending
        .remove(
            Response::Block {
                content: payload(1),
                nonce: vec![0; BLOCK_NONCE_SIZE],
                debug: DebugResponse::unsolicited()
            },
            0
        )
        .is_none());
    assert_eq!(pending.stats, RepositoryStats::new());
}

#[test]
fn child_nodes_are_matched_by_hash_and_disambiguator() {
    let mut pending = PendingRequests::new();
    let mut nodes = InnerNodes::new();
    nodes.insert(7, InnerNode::new(hash::Hash { hi: 1, lo: 1 }, Summary::full()));
    let parent = nodes.hash();

    pending.insert(
        PendingRequest::ChildNodes(parent, disambiguator(), DebugRequest::start()),
        permit(5),
        0,
    );

    // The same nodes for another disambiguator answer another request.
    let other = ResponseDisambiguator::new(MultiBlockPresence::Full);
    assert!(pending
        .remove(Response::InnerNodes(nodes.duplicate(), other, DebugResponse::unsolicited()), 1)
        .is_none());
    assert!(pending.contains(&Key::ChildNodes(parent, disambiguator())));

    match pending.remove(
        Response::InnerNodes(nodes, disambiguator(), DebugResponse::unsolicited()),
        2,
    ) {
        Some(PendingResponse::InnerNodes { hash, permit, nodes, .. }) => {
            assert_eq!(hash, parent);
            assert_eq!(permit, Some(Permit { id: 1005 }));
            assert_eq!(nodes.get(7).map(|n| n.hash), Some(hash::Hash { hi: 1, lo: 1 }));
        }
        other => panic!("unexpected: {:?}", other),
    }
    assert_eq!(pending.slots.len(), 0);
}

#[test]
fn error_response_only_frees_the_request() {
    let mut pending = PendingRequests::new();
    let id = BlockId::from_content(&payload(1));
    let accepted = AcceptedBlock { client_id: 0, block_id: id };
    pending.insert(PendingRequest::Block(accepted, DebugRequest::start()), permit(1), 0);
    assert_eq!(pending.stats.block_requests_inflight, 1);

    assert!(pending.remove(Response::BlockError(id, DebugResponse::unsolicited()), 5).is_none());
    assert!(!pending.contains(&Key::Block(id)));
    assert_eq!(pending.stats.block_requests_inflight, 0);

    assert!(pending
        .remove(Response::RootNodeError(writer(1), DebugResponse::unsolicited()), 5)
        .is_none());
    assert!(pending
        .remove(
            Response::ChildNodesError(
                hash::Hash { hi: 0, lo: 1 },
                disambiguator(),
                DebugResponse::unsolicited()
            ),
            5
        )
        .is_none());
}

#[test]
fn block_response_carries_the_accepted_block() {
    let mut pending = PendingRequests::new();
    let content = payload(3);
    let id = BlockId::from_content(&content);
    let accepted = AcceptedBlock { client_id: 4, block_id: id };
    pending.insert(PendingRequest::Block(accepted, DebugRequest::start()), permit(1), 0);

    let processed = ProcessedResponse::from(Response::Block {
        content: content.clone(),
        nonce: vec![0; BLOCK_NONCE_SIZE],
        debug: DebugResponse::unsolicited(),
    });
    assert_eq!(processed.to_key(), Key::Block(id));

    match pending.remove(
        Response::Block {
            content: content.clone(),
            nonce: vec![0; BLOCK_NONCE_SIZE],
            debug: DebugResponse::unsolicited(),
        },
        9,
    ) {
        Some(PendingResponse::Block { block_id, block_promise, permit, content: got, .. }) => {
            assert_eq!(block_id, id);
            assert_eq!(block_promise, Some(accepted));
            assert_eq!(permit, Some(Permit { id: 1001 }));
            assert_eq!(got, content);
        }
        other => panic!("unexpected: {:?}", other),
    }
}

#[test]
fn only_block_requests_time_out() {
    let mut pending = PendingRequests::new();
    assert_eq!(pending.next_timeout(), None);

    pending.insert(PendingRequest::RootNode(writer(1), DebugRequest::start()), permit(1), 5);
    assert_eq!(pending.next_timeout(), None);

    let late = AcceptedBlock { client_id: 0, block_id: BlockId::from_content(&[1]) };
    let early = AcceptedBlock { client_id: 0, block_id: BlockId::from_content(&[2]) };
    pending.insert(PendingRequest::Block(late, DebugRequest::start()), permit(2), 200);
    pending.insert(PendingRequest::Block(early, DebugRequest::start()), permit(3), 100);

    let timeout = pending.next_timeout().unwrap();
    assert_eq!(timeout.key, Key::Block(early.block_id));
    assert_eq!(timeout.deadline, 100 + REQUEST_TIMEOUT);
    assert_eq!(REQUEST_TIMEOUT, 30_000);

    // The timeout takes the accepted block from the request, which stays pending.
    assert_eq!(pending.expire(&timeout.key), Some(early));
    assert!(pending.contains(&timeout.key));
    assert_eq!(pending.stats.request_timeouts, 1);
    assert_eq!(pending.stats.block_requests_inflight, 2);

    let timeout = pending.next_timeout().unwrap();
    assert_eq!(timeout.key, Key::Block(late.block_id));
    assert_eq!(timeout.deadline, 200 + REQUEST_TIMEOUT);

    // A request that is gone does not time out.
    assert_eq!(pending.expire(&Key::Block(BlockId::from_content(&[3]))), None);
    assert_eq!(pending.stats.request_timeouts, 1);

    let gone = pending.clear();
    assert_eq!(gone.len(), 3);
    assert_eq!(pending.slots.len(), 0);
    assert_eq!(pending.stats.index_requests_inflight, 0);
    assert_eq!(pending.stats.block_requests_inflight, 0);
}

// A store with one branch of `writer` that holds one block.
fn holder(writer: PublicKey, seed: u8) -> (Store, hash::Hash, Block) {
    let mut store = Store::new();
    let block = Block::new(payload(seed), vec![seed; BLOCK_NONCE_SIZE]).unwrap();
    let locator = hash::Hash::digest(&[seed]);
    store.write_block(block.clone());
    BranchData::new(writer)
        .load_or_create_snapshot(&store)
        .insert_block(&mut store, &locator, &block.id, SingleBlockPresence::Present)
        .unwrap();
    (store, locator, block)
}

// Runs the requests of `client` against `server` until there is nothing more to ask for.
fn sync_index(
    client: &Client,
    store: &mut Store,
    tracker: &mut BlockTracker,
    server: &Store,
    writer: PublicKey,
) {
    let mut queue = vec![Request::RootNode(writer, DebugRequest::start())];
    while let Some(request) = queue.pop() {
        let reaction = match handle_request(server, request) {
            Response::RootNode { proof, summary, .. } => {
                // What the server holds is unsigned: sign it on the way out.
                let signed = UntrustedProof::new(Proof::new(
                    proof.proof.writer_id,
                    proof.proof.version_vector,
                    proof.proof.hash,
                    vec![1u8; 64],
                ));
                client.handle_root_node(store, signed, summary, true, DebugReceivedResponse {})
            }
            Response::InnerNodes(nodes, _, _) => {
                client.handle_inner_nodes(store, &nodes, DebugReceivedResponse {})
            }
            Response::LeafNodes(nodes, _, _) => client.handle_leaf_nodes(store, tracker, &nodes),
            other => panic!("unexpected: {:?}", other),
        };
        queue.extend(reaction.unwrap().requests);
    }
}

#[test]
fn client_walks_the_index_and_fetches_blocks() {
    let a = writer(1);
    let (server, locator, block) = holder(a, 1);

    let mut store = Store::new();
    let mut tracker = BlockTracker::new();
    let client = Client::new(&mut tracker, None);

    sync_index(&client, &mut store, &mut tracker, &server, a);
    assert_eq!(store.find_block(&a, &locator), Ok(block.id));
    assert!(!store.block_exists(&block.id));

    let accepted = client.next_block(&mut tracker).unwrap();
    assert_eq!(accepted.block_id, block.id);
    assert!(client.next_block(&mut tracker).is_none());

    match handle_request(&server, Request::Block(accepted.block_id, DebugRequest::start())) {
        Response::Block { content, nonce, .. } => {
            let writers =
                client.handle_block(&mut store, &mut tracker, content, nonce, &accepted).unwrap();
            assert_eq!(writers, vec![a]);
        }
        other => panic!("unexpected: {:?}", other),
    }
    assert!(store.block_exists(&block.id));
    assert!(tracker.is_empty());
    assert_eq!(
        store.load_latest_approved_root_node(&a, RootNodeFilter::Any).unwrap().summary.block_presence,
        MultiBlockPresence::Full
    );
}

#[test]
fn block_with_wrong_content_is_rejected_and_given_back() {
    let a = writer(1);
    let (server, _, block) = holder(a, 1);

    let mut store = Store::new();
    let mut tracker = BlockTracker::new();
    let client = Client::new(&mut tracker, None);
    sync_index(&client, &mut store, &mut tracker, &server, a);

    let accepted = client.next_block(&mut tracker).unwrap();
    let result = client.handle_block(
        &mut store,
        &mut tracker,
        payload(2),
        vec![0; BLOCK_NONCE_SIZE],
        &accepted,
    );
    assert_eq!(result, Err(Error::WrongBlockId));
    assert!(!store.block_exists(&block.id));

    // The block is still required, and free for a peer to offer and accept it.
    assert!(tracker.contains(&block.id));
    assert!(client.next_block(&mut tracker).is_none());
    assert!(client.tracker_client.offer(&mut tracker, block.id));
    assert_eq!(client.next_block(&mut tracker).map(|a| a.block_id), Some(block.id));
}

#[test]
fn failed_block_other_peer() {
    // A holds the block; B has the index of A but not the block yet.
    let a = writer(1);
    let (store_a, locator, block) = holder(a, 1);
    let mut store_b = Store::new();
    {
        let mut tracker_b = BlockTracker::new();
        let client_ba = Client::new(&mut tracker_b, None);
        sync_index(&client_ba, &mut store_b, &mut tracker_b, &store_a, a);
    }
    assert!(!store_b.block_exists(&block.id));

    // C connects to both and syncs the index from A.
    let mut store_c = Store::new();
    let mut tracker_c = BlockTracker::new();
    let client_ca = Client::new(&mut tracker_c, None);
    let client_cb = Client::new(&mut tracker_c, None);
    sync_index(&client_ca, &mut store_c, &mut tracker_c, &store_a, a);
    // B tells of the same snapshot; its leaves are offered by B as well.
    for table_index in 0..store_b.leaves.len() {
        let group = store_b.leaves.value_at(table_index).duplicate();
        let mut offered = LeafNodes::new();
        for i in 0..group.len() {
            let leaf = group.get_at(i);
            offered.insert(leaf.locator, leaf.block_id, SingleBlockPresence::Present);
        }
        client_cb.handle_leaf_nodes(&mut store_c, &mut tracker_c, &offered).unwrap();
        client_cb.tracker_client.offer(&mut tracker_c, block.id);
    }

    // C asks A for the block, and the connection to A drops before it arrives.
    let accepted = client_ca.next_block(&mut tracker_c).unwrap();
    assert_eq!(accepted.block_id, block.id);
    assert!(client_cb.next_block(&mut tracker_c).is_none());
    client_ca.tracker_client.release(&mut tracker_c);

    // B has received the block in the meantime, and C gets it from B.
    store_b.write_received_block(block.content.clone(), block.nonce.clone(), &block.id).unwrap();
    let accepted = client_cb.next_block(&mut tracker_c).unwrap();
    assert_eq!(accepted.block_id, block.id);
    match handle_request(&store_b, Request::Block(accepted.block_id, DebugRequest::start())) {
        Response::Block { content, nonce, .. } => {
            client_cb
                .handle_block(&mut store_c, &mut tracker_c, content, nonce, &accepted)
                .unwrap();
        }
        other => panic!("unexpected: {:?}", other),
    }
    assert!(store_c.block_exists(&block.id));
    assert_eq!(store_c.find_block(&a, &locator), Ok(block.id));
    assert!(tracker_c.is_empty());
}

#[test]
fn unreferenced_block_is_dropped_from_the_tracker() {
    let mut store = Store::new();
    let mut tracker = BlockTracker::new();
    let client = Client::new(&mut tracker, None);
    let content = payload(5);
    let id = BlockId::from_content(&content);

    client.tracker_client.offer(&mut tracker, id);
    tracker.begin_require(id).commit(&mut tracker);
    let accepted = client.next_block(&mut tracker).unwrap();

    let result =
        client.handle_block(&mut store, &mut tracker, content, vec![0; BLOCK_NONCE_SIZE], &accepted);
    assert_eq!(result, Err(Error::BlockNotReferenced));
    assert!(!store.block_exists(&id));
    assert!(tracker.is_empty());
}

// Asks `server` for every block that `client` may download, and stores what comes.
fn fetch_blocks(client: &Client, store: &mut Store, tracker: &mut BlockTracker, server: &Store) {
    while let Some(accepted) = client.next_block(tracker) {
        match handle_request(server, Request::Block(accepted.block_id, DebugRequest::start())) {
            Response::Block { content, nonce, .. } => {
                client.handle_block(store, tracker, content, nonce, &accepted).unwrap();
            }
            other => panic!("unexpected: {:?}", other),
        }
    }
}

// The index arrives, the connection drops before the block does, and the
// block arrives once the connection is there again.
#[test]
fn failed_block_only_peer() {
    let a = writer(1);
    let (store_a, locator, block) = holder(a, 1);

    let mut store_b = Store::new();
    let mut tracker_b = BlockTracker::new();

    let client = Client::new(&mut tracker_b, None);
    sync_index(&client, &mut store_b, &mut tracker_b, &store_a, a);
    assert_eq!(
        store_b.load_latest_approved_root_node(&a, RootNodeFilter::Any).unwrap().proof.hash,
        store_a.load_latest_approved_root_node(&a, RootNodeFilter::Any).unwrap().proof.hash
    );
    assert!(!store_b.block_exists(&block.id));

    // The peer goes away and comes back.
    client.tracker_client.release(&mut tracker_b);

    let client = Client::new(&mut tracker_b, None);
    assert!(client.next_block(&mut tracker_b).is_none());
    sync_index(&client, &mut store_b, &mut tracker_b, &store_a, a);
    fetch_blocks(&client, &mut store_b, &mut tracker_b, &store_a);

    assert!(store_b.block_exists(&block.id));
    assert_eq!(store_b.find_block(&a, &locator), Ok(block.id));
    assert!(tracker_b.is_empty());
}

// As above, with a second peer that has nothing and stays connected all the time.
#[test]
fn failed_block_same_peer() {
    let a = writer(1);
    let (store_a, locator, block) = holder(a, 1);
    let store_b = Store::new();

    let mut store_c = Store::new();
    let mut tracker_c = BlockTracker::new();

    let client_ca = Client::new(&mut tracker_c, None);
    let client_cb = Client::new(&mut tracker_c, None);

    // B knows nothing of the branch.
    match handle_request(&store_b, Request::RootNode(a, DebugRequest::start())) {
        Response::RootNodeError(writer, _) => assert_eq!(writer, a),
        other => panic!("unexpected: {:?}", other),
    }
    sync_index(&client_ca, &mut store_c, &mut tracker_c, &store_a, a);
    assert!(!store_c.block_exists(&block.id));
    assert!(client_cb.next_block(&mut tracker_c).is_none());

    // The connection to A drops and is made again; the one to B stays.
    client_ca.tracker_client.release(&mut tracker_c);
    let client_ca = Client::new(&mut tracker_c, None);
    sync_index(&client_ca, &mut store_c, &mut tracker_c, &store_a, a);
    assert!(client_cb.next_block(&mut tracker_c).is_none());
    fetch_blocks(&client_ca, &mut store_c, &mut tracker_c, &store_a);

    assert!(store_c.block_exists(&block.id));
    assert_eq!(store_c.find_block(&a, &locator), Ok(block.id));
    assert!(tracker_c.is_empty());
}
