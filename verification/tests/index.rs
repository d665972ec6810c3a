use ouisync::crypto::hash;
use ouisync::crypto::sign::PublicKey;
use ouisync::error::Error;
use ouisync::index::branch_data::{BranchData, SnapshotData};
use ouisync::network::debug_payload::DebugRequest;
use ouisync::network::message::{Request, Response, ResponseDisambiguator};
use ouisync::network::server::handle_request;
use ouisync::protocol::block::{Block, BlockId, BLOCK_NONCE_SIZE, BLOCK_SIZE};
use ouisync::protocol::node::{
    empty_inner_hash, empty_leaf_hash, InnerNode, InnerNodes, LeafNode, LeafNodes,
    INNER_LAYER_COUNT,
};
use ouisync::protocol::root_node::{RootNode, RootNodeFilter};
use ouisync::protocol::signed::{Proof, UntrustedProof};
use ouisync::protocol::summary::{MultiBlockPresence, NodeState, SingleBlockPresence, Summary};
use ouisync::store::Store;
use ouisync::version_vector::{VersionVector, VersionVectorOp};

fn key(n: u128) -> PublicKey {
    PublicKey { key: hash::Hash { hi: 0xaa00 + n, lo: n } }
}

fn locator(n: u128) -> hash::Hash {
    hash::Hash::digest(&n.to_le_bytes())
}

fn content(seed: u8) -> Vec<u8> {
    let mut content = vec![0u8; BLOCK_SIZE];
    for (i, byte) in content.iter_mut().enumerate() {
        *byte = seed.wrapping_mul(31).wrapping_add((i % 253) as u8);
    }
    content
}

fn nonce(seed: u8) -> Vec<u8> {
    vec![seed; BLOCK_NONCE_SIZE]
}

fn block(seed: u8) -> Block {
    Block::new(content(seed), nonce(seed)).unwrap()
}

fn signature() -> Vec<u8> {
    vec![7u8; 64]
}

fn signed(writer: PublicKey, vv: VersionVector, hash: hash::Hash) -> UntrustedProof {
    UntrustedProof::new(Proof::new(writer, vv, hash, signature()))
}

fn vv(writer: PublicKey, version: u64) -> VersionVector {
    let mut vv = VersionVector::new();
    vv.insert(writer, version);
    vv
}

// A store with one branch of `writer` that holds `count` blocks, all present.
fn source(writer: PublicKey, count: u8) -> (Store, SnapshotData, Vec<(hash::Hash, Block)>) {
    let mut store = Store::new();
    let mut snapshot = BranchData::new(writer).load_or_create_snapshot(&store);
    let mut blocks = Vec::new();
    for i in 0..count {
        let block = block(i);
        let locator = locator(i as u128);
        store.write_block(block.clone());
        assert_eq!(
            snapshot.insert_block(&mut store, &locator, &block.id, SingleBlockPresence::Present),
            Ok(true)
        );
        blocks.push((locator, block));
    }
    (store, snapshot, blocks)
}

fn root_of(store: &Store, writer: &PublicKey) -> RootNode {
    store.load_latest_approved_root_node(writer, RootNodeFilter::Any).unwrap()
}

fn inner_nodes(store: &Store, hash: hash::Hash) -> InnerNodes {
    match handle_request(
        store,
        Request::ChildNodes(
            hash,
            ResponseDisambiguator::new(MultiBlockPresence::Absent),
            DebugRequest::start(),
        ),
    ) {
        Response::InnerNodes(nodes, _, _) => nodes,
        other => panic!("no inner nodes under {:?}: {:?}", hash, other),
    }
}

fn leaf_nodes(store: &Store, hash: hash::Hash) -> LeafNodes {
    match handle_request(
        store,
        Request::ChildNodes(
            hash,
            ResponseDisambiguator::new(MultiBlockPresence::Absent),
            DebugRequest::start(),
        ),
    ) {
        Response::LeafNodes(nodes, _, _) => nodes,
        other => panic!("no leaf nodes under {:?}: {:?}", hash, other),
    }
}

fn present(nodes: &InnerNodes) -> Vec<InnerNode> {
    (0..=255u8).filter_map(|bucket| nodes.get(bucket)).collect()
}

// Sends every node of the snapshot of `src` with root `root` to `dst`, from
// the root down. Returns the leaves.
fn receive_nodes(
    dst: &mut Store,
    src: &Store,
    root: &RootNode,
    quota: Option<u64>,
) -> Vec<LeafNode> {
    let proof = UntrustedProof::new(Proof::new(
        root.proof.writer_id,
        root.proof.version_vector.duplicate(),
        root.proof.hash,
        signature(),
    ));
    dst.receive_root_node(proof, &root.summary.block_presence, true, quota).unwrap();

    let mut leaves = Vec::new();
    if root.proof.hash == empty_inner_hash() {
        return leaves;
    }

    let layer0 = inner_nodes(src, root.proof.hash);
    dst.receive_inner_nodes(&layer0, quota).unwrap();
    for n0 in present(&layer0) {
        let layer1 = inner_nodes(src, n0.hash);
        dst.receive_inner_nodes(&layer1, quota).unwrap();
        for n1 in present(&layer1) {
            let layer2 = inner_nodes(src, n1.hash);
            dst.receive_inner_nodes(&layer2, quota).unwrap();
            for n2 in present(&layer2) {
                let group = leaf_nodes(src, n2.hash);
                dst.receive_leaf_nodes(&group, quota).unwrap();
                for i in 0..group.len() {
                    leaves.push(group.get_at(i));
                }
            }
        }
    }
    leaves
}

// Number of nodes that are stored: the inner nodes of every layer and the leaf nodes.
fn count_branch_forest_entries(store: &Store) -> usize {
    let mut count = 0;
    for table in [&store.inners0, &store.inners1, &store.inners2] {
        for i in 0..table.len() {
            count += present(table.value_at(i)).len();
        }
    }
    for i in 0..store.leaves.len() {
        count += store.leaves.value_at(i).len();
    }
    count
}

// Number of groups of nodes that are stored, over all layers.
fn count_groups(store: &Store) -> usize {
    store.inners0.len() + store.inners1.len() + store.inners2.len() + store.leaves.len()
}

#[test]
fn insert_and_read() {
    let mut store = Store::new();
    let branch = BranchData::new(key(1));

    let block_id = BlockId::from_content(&content(1));
    let encoded_locator = locator(1);

    let inserted = branch
        .load_or_create_snapshot(&store)
        .insert_block(&mut store, &encoded_locator, &block_id, SingleBlockPresence::Present)
        .unwrap();
    assert!(inserted);

    let (r, _) = branch.get(&store, &encoded_locator).unwrap();

    assert_eq!(r, block_id);
    assert_eq!(store.find_block(&key(1), &encoded_locator), Ok(block_id));
}

#[test]
fn insert_same_block_twice_changes_nothing() {
    let mut store = Store::new();
    let branch = BranchData::new(key(1));
    let block_id = BlockId::from_content(&content(1));
    let encoded_locator = locator(1);

    let mut snapshot = branch.load_or_create_snapshot(&store);
    assert_eq!(
        snapshot.insert_block(&mut store, &encoded_locator, &block_id, SingleBlockPresence::Present),
        Ok(true)
    );
    let roots = store.roots.len();
    let id = snapshot.root_node.snapshot_id;
    assert_eq!(
        snapshot.insert_block(&mut store, &encoded_locator, &block_id, SingleBlockPresence::Present),
        Ok(false)
    );
    assert_eq!(store.roots.len(), roots);
    assert_eq!(snapshot.root_node.snapshot_id, id);
}

#[test]
fn rewrite_locator() {
    for round in 0..32u8 {
        let mut store = Store::new();
        let branch = BranchData::new(key(round as u128));

        let b1 = BlockId::from_content(&content(round));
        let b2 = BlockId::from_content(&content(round.wrapping_add(100)));

        let encoded_locator = locator(round as u128);

        branch
            .load_or_create_snapshot(&store)
            .insert_block(&mut store, &encoded_locator, &b1, SingleBlockPresence::Present)
            .unwrap();

        branch
            .load_or_create_snapshot(&store)
            .insert_block(&mut store, &encoded_locator, &b2, SingleBlockPresence::Present)
            .unwrap();

        let (r, _) = branch.get(&store, &encoded_locator).unwrap();
        assert_eq!(r, b2);

        branch.load_snapshot(&store).unwrap().remove_all_older(&mut store);

        assert_eq!(INNER_LAYER_COUNT + 1, count_branch_forest_entries(&store));
        assert_eq!(INNER_LAYER_COUNT + 1, count_groups(&store));

        // One snapshot with one leaf is left.
        assert_eq!(store.roots.len(), 1);
        let root = root_of(&store, branch.id());
        assert_eq!(store.count_leaves(&root.proof.hash), 1);
    }
}

#[test]
fn remove_locator() {
    let mut store = Store::new();
    let branch = BranchData::new(key(1));

    let b = BlockId::from_content(&content(1));
    let encoded_locator = locator(1);

    assert_eq!(0, count_branch_forest_entries(&store));

    branch
        .load_or_create_snapshot(&store)
        .insert_block(&mut store, &encoded_locator, &b, SingleBlockPresence::Present)
        .unwrap();
    let (r, _) = branch.get(&store, &encoded_locator).unwrap();
    assert_eq!(r, b);

    assert_eq!(INNER_LAYER_COUNT + 1, count_branch_forest_entries(&store));

    branch
        .load_or_create_snapshot(&store)
        .remove_block(&mut store, &encoded_locator, None)
        .unwrap();

    match branch.get(&store, &encoded_locator) {
        Err(Error::EntryNotFound) => { /* OK */ }
        Err(_) => panic!("Error should have been EntryNotFound"),
        Ok(_) => panic!("BranchData shouldn't have contained the block ID"),
    }

    branch.load_snapshot(&store).unwrap().remove_all_older(&mut store);

    assert_eq!(0, count_branch_forest_entries(&store));
    assert_eq!(0, count_groups(&store));

    let root = root_of(&store, branch.id());
    assert_eq!(root.proof.hash, empty_inner_hash());
}

#[test]
fn remove_twice_is_a_no_op() {
    let mut store = Store::new();
    let branch = BranchData::new(key(1));
    let b = BlockId::from_content(&content(1));
    let encoded_locator = locator(1);

    let mut snapshot = branch.load_or_create_snapshot(&store);
    snapshot
        .insert_block(&mut store, &encoded_locator, &b, SingleBlockPresence::Present)
        .unwrap();
    assert_eq!(snapshot.remove_block(&mut store, &encoded_locator, None), Ok(true));
    assert_eq!(store.find_block(&key(1), &encoded_locator), Err(Error::LocatorNotFound));

    let roots = store.roots.len();
    let id = snapshot.root_node.snapshot_id;
    assert_eq!(
        snapshot.remove_block(&mut store, &encoded_locator, None),
        Err(Error::EntryNotFound)
    );
    assert_eq!(store.roots.len(), roots);
    assert_eq!(snapshot.root_node.snapshot_id, id);
    assert_eq!(store.find_block(&key(1), &encoded_locator), Err(Error::LocatorNotFound));
}

#[test]
fn remove_with_other_expected_block_is_a_no_op() {
    let mut store = Store::new();
    let branch = BranchData::new(key(1));
    let b = BlockId::from_content(&content(1));
    let other = BlockId::from_content(&content(2));
    let encoded_locator = locator(1);

    let mut snapshot = branch.load_or_create_snapshot(&store);
    snapshot
        .insert_block(&mut store, &encoded_locator, &b, SingleBlockPresence::Present)
        .unwrap();
    assert_eq!(snapshot.remove_block(&mut store, &encoded_locator, Some(&other)), Ok(false));
    assert_eq!(store.find_block(&key(1), &encoded_locator), Ok(b));
    assert_eq!(snapshot.remove_block(&mut store, &encoded_locator, Some(&b)), Ok(true));
    assert_eq!(store.find_block(&key(1), &encoded_locator), Err(Error::LocatorNotFound));
}

#[test]
fn insert_increments_own_version_and_removes_older_snapshots() {
    let mut store = Store::new();
    let writer = key(1);
    let mut snapshot = BranchData::new(writer).load_or_create_snapshot(&store);

    for i in 0..5u8 {
        snapshot
            .insert_block(
                &mut store,
                &locator(i as u128),
                &BlockId::from_content(&content(i)),
                SingleBlockPresence::Present,
            )
            .unwrap();
        assert_eq!(snapshot.version_vector().get(&writer), i as u64 + 1);
        assert_eq!(snapshot.version_vector().get(&key(2)), 0);
        assert_eq!(store.roots.len(), 1);
        assert!(snapshot.root_node.summary.state.is_approved());
    }

    // Every block is still there.
    for i in 0..5u8 {
        assert_eq!(
            store.find_block(&writer, &locator(i as u128)),
            Ok(BlockId::from_content(&content(i)))
        );
    }
}

#[test]
fn bump_increments_or_merges() {
    let mut store = Store::new();
    let writer = key(1);
    let other = key(2);
    let mut snapshot = BranchData::new(writer).load_or_create_snapshot(&store);
    snapshot
        .insert_block(
            &mut store,
            &locator(0),
            &BlockId::from_content(&content(0)),
            SingleBlockPresence::Present,
        )
        .unwrap();
    let hash = snapshot.root_node.proof.hash;

    assert_eq!(snapshot.bump(&mut store, &VersionVectorOp::IncrementLocal), Ok(true));
    assert_eq!(snapshot.version_vector().get(&writer), 2);
    assert_eq!(snapshot.root_node.proof.hash, hash);

    // Merging what is known already writes nothing.
    assert_eq!(snapshot.bump(&mut store, &VersionVectorOp::Merge(vv(writer, 1))), Ok(false));
    assert_eq!(snapshot.version_vector().get(&writer), 2);

    assert_eq!(snapshot.bump(&mut store, &VersionVectorOp::Merge(vv(other, 5))), Ok(true));
    assert_eq!(snapshot.version_vector().get(&writer), 2);
    assert_eq!(snapshot.version_vector().get(&other), 5);
    assert_eq!(store.find_block(&writer, &locator(0)), Ok(BlockId::from_content(&content(0))));
}

#[test]
fn version_overflow_is_an_error() {
    let mut store = Store::new();
    let writer = key(1);
    let proof = signed(writer, vv(writer, u64::MAX), empty_inner_hash());
    store.receive_root_node(proof, &MultiBlockPresence::Absent, true, None).unwrap();

    let mut snapshot = BranchData::new(writer).load_snapshot(&store).unwrap();
    assert_eq!(snapshot.version_vector().get(&writer), u64::MAX);
    assert_eq!(
        snapshot.insert_block(
            &mut store,
            &locator(0),
            &BlockId::from_content(&content(0)),
            SingleBlockPresence::Present,
        ),
        Err(Error::VersionOverflow)
    );
    assert_eq!(
        snapshot.bump(&mut store, &VersionVectorOp::IncrementLocal),
        Err(Error::VersionOverflow)
    );
    assert_eq!(snapshot.version_vector().get(&writer), u64::MAX);

    let mut plain = vv(writer, u64::MAX);
    assert_eq!(plain.increment(writer), Err(Error::VersionOverflow));
    assert_eq!(plain.get(&writer), u64::MAX);
}

#[test]
fn one_leaf_in_every_bucket_of_every_layer() {
    let mut store = Store::new();
    let writer = key(1);
    let mut snapshot = BranchData::new(writer).load_or_create_snapshot(&store);

    // Locators whose first three bytes, the buckets of the three inner
    // layers, run through all values.
    let locators: Vec<hash::Hash> = (0..256u128)
        .map(|b| hash::Hash { hi: b, lo: b | ((255 - b) << 8) | (((b * 7) % 256) << 16) | (b << 64) })
        .collect();
    let ids: Vec<BlockId> =
        (0..256u32).map(|b| BlockId::from_content(&b.to_le_bytes())).collect();

    for (locator, id) in locators.iter().zip(&ids) {
        assert_eq!(
            snapshot.insert_block(&mut store, locator, id, SingleBlockPresence::Present),
            Ok(true)
        );
    }

    let root = root_of(&store, &writer);
    assert_eq!(store.count_leaves(&root.proof.hash), 256);
    let layer0 = inner_nodes(&store, root.proof.hash);
    assert_eq!(present(&layer0).len(), 256);

    for (locator, id) in locators.iter().zip(&ids) {
        assert_eq!(store.find_block(&writer, locator), Ok(*id));
    }
}

#[test]
fn receive_valid_root_node() {
    let mut store = Store::new();

    let local_id = key(1);
    let remote_id = key(2);

    store
        .receive_root_node(
            signed(local_id, vv(local_id, 1), empty_inner_hash()),
            &MultiBlockPresence::Absent,
            true,
            None,
        )
        .unwrap();

    // Initially only the local branch exists
    assert!(store.load_latest_approved_root_node(&local_id, RootNodeFilter::Any).is_ok());
    assert!(store.load_latest_approved_root_node(&remote_id, RootNodeFilter::Any).is_err());

    // Receive root node from the remote replica.
    let status = store
        .receive_root_node(
            signed(remote_id, vv(remote_id, 1), empty_inner_hash()),
            &MultiBlockPresence::Absent,
            true,
            None,
        )
        .unwrap();
    assert!(status.inserted);
    assert_eq!(status.status.new_approved, vec![remote_id]);

    // Both the local and the remote branch now exist.
    assert!(store.load_latest_approved_root_node(&local_id, RootNodeFilter::Any).is_ok());
    assert!(store.load_latest_approved_root_node(&remote_id, RootNodeFilter::Any).is_ok());
}

#[test]
fn receive_root_node_with_invalid_proof() {
    let mut store = Store::new();
    let remote_id = key(2);

    // Receive invalid root node from the remote replica.
    let result = store.receive_root_node(
        signed(remote_id, vv(remote_id, 1), empty_inner_hash()),
        &MultiBlockPresence::Absent,
        false,
        None,
    );
    assert!(matches!(result, Err(Error::InvalidProof)));

    // A signature that is too short is invalid whatever the caller says of it.
    let short = UntrustedProof::new(Proof::new(
        remote_id,
        vv(remote_id, 1),
        empty_inner_hash(),
        vec![7u8; 63],
    ));
    let result = store.receive_root_node(short, &MultiBlockPresence::Absent, true, None);
    assert!(matches!(result, Err(Error::InvalidProof)));

    // The invalid root was not written to the db.
    assert_eq!(store.roots.len(), 0);
    assert!(store.load_latest_approved_root_node(&remote_id, RootNodeFilter::Any).is_err());
}

#[test]
fn receive_duplicate_root_node() {
    let remote_id = key(2);
    let (src, _, _) = source(remote_id, 1);
    let root = root_of(&src, &remote_id);

    let mut store = Store::new();

    // Receive root node for the first time.
    let first = store
        .receive_root_node(
            signed(remote_id, root.proof.version_vector.duplicate(), root.proof.hash),
            &MultiBlockPresence::Absent,
            true,
            None,
        )
        .unwrap();
    assert!(first.inserted);
    assert!(first.request_children);

    // Receiving it again is a no-op.
    let second = store
        .receive_root_node(
            signed(remote_id, root.proof.version_vector.duplicate(), root.proof.hash),
            &MultiBlockPresence::Absent,
            true,
            None,
        )
        .unwrap();
    assert!(!second.inserted);

    assert_eq!(store.roots.iter().filter(|r| r.proof.writer_id == remote_id).count(), 1);
}

#[test]
fn receive_outdated_root_node() {
    let remote_id = key(2);
    let mut store = Store::new();
    store
        .receive_root_node(
            signed(remote_id, vv(remote_id, 2), empty_inner_hash()),
            &MultiBlockPresence::Absent,
            true,
            None,
        )
        .unwrap();
    let status = store
        .receive_root_node(
            signed(remote_id, vv(remote_id, 1), locator(9)),
            &MultiBlockPresence::Full,
            true,
            None,
        )
        .unwrap();
    assert!(!status.inserted);
    assert!(!status.request_children);
    assert_eq!(store.roots.len(), 1);
}

#[test]
fn receive_root_node_without_versions_is_ignored() {
    let mut store = Store::new();
    let status = store
        .receive_root_node(
            signed(key(2), VersionVector::new(), empty_inner_hash()),
            &MultiBlockPresence::Absent,
            true,
            None,
        )
        .unwrap();
    assert!(!status.inserted);
    assert!(!status.request_children);
    assert_eq!(store.roots.len(), 0);
}

#[test]
fn receive_root_node_with_existing_hash() {
    let local_id = key(1);
    let remote_id = key(2);

    let (mut store, _, _) = source(local_id, 1);

    // Receive root node with the same hash as the current local one but different writer id.
    let root = root_of(&store, &local_id);
    assert!(root.summary.is_complete());

    let status = store
        .receive_root_node(
            signed(remote_id, root.proof.version_vector.duplicate(), root.proof.hash),
            &MultiBlockPresence::Full,
            true,
            None,
        )
        .unwrap();
    assert!(status.inserted);
    // Every node is here already, so the snapshot is approved at once.
    assert_eq!(status.status.new_approved, vec![remote_id]);

    assert!(root_of(&store, &local_id).summary.is_complete());
    assert_eq!(root_of(&store, &remote_id).proof.hash, root.proof.hash);
}

#[test]
fn receive_valid_child_nodes() {
    let remote_id = key(2);
    let (src, _, blocks) = source(remote_id, 1);
    let root = root_of(&src, &remote_id);

    let mut store = Store::new();
    let leaves = receive_nodes(&mut store, &src, &root, None);

    assert_eq!(leaves.len(), 1);
    assert_eq!(leaves[0].block_id, blocks[0].1.id);

    // Every layer arrived.
    let layer0 = inner_nodes(&store, root.proof.hash);
    assert!(!layer0.is_empty());
    let layer1 = inner_nodes(&store, present(&layer0)[0].hash);
    assert!(!layer1.is_empty());
    let layer2 = inner_nodes(&store, present(&layer1)[0].hash);
    assert!(!layer2.is_empty());
    let group = leaf_nodes(&store, present(&layer2)[0].hash);
    assert!(!group.is_empty());

    // The snapshot is complete, so it was approved, with its block missing.
    let received = root_of(&store, &remote_id);
    assert_eq!(received.summary.state, NodeState::Approved);
    assert_eq!(received.summary.block_presence, MultiBlockPresence::Absent);
    assert_eq!(store.find_block(&remote_id, &blocks[0].0), Ok(blocks[0].1.id));
}

#[test]
fn receive_child_nodes_with_missing_root_parent() {
    let remote_id = key(2);
    let (src, _, _) = source(remote_id, 1);
    let root = root_of(&src, &remote_id);

    let mut store = Store::new();

    let layer0 = inner_nodes(&src, root.proof.hash);
    let result = store.receive_inner_nodes(&layer0, None);
    assert!(matches!(result, Err(Error::ParentNodeNotFound)));

    // The orphaned inner nodes were not written to the db.
    assert!(store.inners0.is_empty());
    assert!(store.inners1.is_empty());
    assert!(store.inners2.is_empty());

    let layer1 = inner_nodes(&src, present(&layer0)[0].hash);
    let layer2 = inner_nodes(&src, present(&layer1)[0].hash);
    let group = leaf_nodes(&src, present(&layer2)[0].hash);
    let result = store.receive_leaf_nodes(&group, None);
    assert!(matches!(result, Err(Error::ParentNodeNotFound)));

    // The orphaned leaf nodes were not written to the db.
    assert!(store.leaves.is_empty());
}

#[test]
fn does_not_delete_old_branch_until_new_branch_is_complete() {
    let remote_id = key(2);

    // Create snapshot v0
    let (mut src, mut snapshot, blocks0) = source(remote_id, 1);
    let root0 = root_of(&src, &remote_id);

    // Receive it all.
    let mut store = Store::new();
    receive_nodes(&mut store, &src, &root0, None);
    for (_, block) in &blocks0 {
        store
            .write_received_block(block.content.clone(), block.nonce.clone(), &block.id)
            .unwrap();
    }

    // Verify we can retrieve all the blocks.
    for (locator, block) in &blocks0 {
        let id = store.find_block(&remote_id, locator).unwrap();
        assert_eq!(id, block.id);
        assert!(store.block_exists(&id));
    }

    // Create snapshot v1
    snapshot
        .insert_block(
            &mut src,
            &locator(77),
            &BlockId::from_content(&content(77)),
            SingleBlockPresence::Present,
        )
        .unwrap();
    let root1 = root_of(&src, &remote_id);

    // Receive its root node only.
    let status = store
        .receive_root_node(
            signed(remote_id, root1.proof.version_vector.duplicate(), root1.proof.hash),
            &MultiBlockPresence::Full,
            true,
            None,
        )
        .unwrap();
    assert!(status.inserted);
    assert!(status.status.new_approved.is_empty());

    // All the blocks of the first snapshot are still retrievable
    for (locator, block) in &blocks0 {
        let id = store.find_block(&remote_id, locator).unwrap();
        assert_eq!(id, block.id);
        assert!(store.block_exists(&id));
    }
}

#[test]
fn approved_snapshot_has_no_missing_node() {
    let remote_id = key(2);
    let (src, _, _) = source(remote_id, 6);
    let root = root_of(&src, &remote_id);

    let mut store = Store::new();
    store
        .receive_root_node(
            signed(remote_id, root.proof.version_vector.duplicate(), root.proof.hash),
            &MultiBlockPresence::Full,
            true,
            None,
        )
        .unwrap();
    assert!(store.load_latest_approved_root_node(&remote_id, RootNodeFilter::Any).is_err());

    // With only the first layer the snapshot stays incomplete.
    let layer0 = inner_nodes(&src, root.proof.hash);
    let status = store.receive_inner_nodes(&layer0, None).unwrap();
    assert!(status.status.new_approved.is_empty());
    assert_eq!(status.request_children.len(), present(&layer0).len());
    assert_eq!(store.roots[0].summary.state, NodeState::Incomplete);

    receive_nodes(&mut store, &src, &root, None);
    assert_eq!(store.roots[0].summary.state, NodeState::Approved);

    // Walk it: every node is stored, and none is marked as incomplete.
    for n0 in present(&inner_nodes(&store, root.proof.hash)) {
        assert_ne!(n0.summary.state, NodeState::Incomplete);
        for n1 in present(&inner_nodes(&store, n0.hash)) {
            assert_ne!(n1.summary.state, NodeState::Incomplete);
            for n2 in present(&inner_nodes(&store, n1.hash)) {
                assert_ne!(n2.summary.state, NodeState::Incomplete);
                assert!(!leaf_nodes(&store, n2.hash).is_empty());
            }
        }
    }
}

#[test]
fn stored_nodes_are_stored_under_their_hash() {
    let (store, _, _) = source(key(1), 9);
    for table in [&store.inners0, &store.inners1, &store.inners2] {
        for i in 0..table.len() {
            assert_eq!(table.value_at(i).hash(), table.key_at(i));
        }
    }
    for i in 0..store.leaves.len() {
        assert_eq!(store.leaves.value_at(i).hash(), store.leaves.key_at(i));
    }
    for i in 0..store.blocks.len() {
        let block = store.blocks.value_at(i);
        assert_eq!(BlockId::from_content(&block.content).hash, store.blocks.key_at(i));
    }
}

#[test]
fn empty_snapshot_is_approved() {
    let remote_id = key(2);
    let mut store = Store::new();
    let status = store
        .receive_root_node(
            signed(remote_id, vv(remote_id, 1), empty_inner_hash()),
            &MultiBlockPresence::Absent,
            true,
            Some(0),
        )
        .unwrap();
    assert!(status.inserted);
    assert_eq!(status.status.new_approved, vec![remote_id]);
    assert_eq!(root_of(&store, &remote_id).summary.state, NodeState::Approved);
    assert_eq!(store.count_leaves(&empty_inner_hash()), 0);
}

#[test]
fn snapshot_over_quota_is_rejected() {
    let remote_id = key(2);
    let n = 3u64;
    let (src, _, blocks) = source(remote_id, (n + 1) as u8);
    let root = root_of(&src, &remote_id);

    let mut store = Store::new();
    let quota = Some(n * BLOCK_SIZE as u64);
    let leaves = receive_nodes(&mut store, &src, &root, quota);
    assert_eq!(leaves.len() as u64, n + 1);

    assert_eq!(store.roots.len(), 1);
    assert_eq!(store.roots[0].summary.state, NodeState::Rejected);
    assert!(store.load_latest_approved_root_node(&remote_id, RootNodeFilter::Any).is_err());
    // No block is stored for it.
    assert_eq!(store.count_blocks(), 0);
    assert!(blocks.iter().all(|(_, block)| !store.is_referenced(&block.id)));

    // A subsequent smaller snapshot still approves.
    let other = key(3);
    let (small, _, _) = source(other, n as u8);
    let small_root = root_of(&small, &other);
    receive_nodes(&mut store, &small, &small_root, quota);
    assert_eq!(root_of(&store, &other).summary.state, NodeState::Approved);
    assert_eq!(store.roots[0].summary.state, NodeState::Rejected);
}

#[test]
fn snapshot_at_quota_is_approved() {
    let remote_id = key(2);
    let (src, _, _) = source(remote_id, 3);
    let root = root_of(&src, &remote_id);
    let mut store = Store::new();
    receive_nodes(&mut store, &src, &root, Some(3 * BLOCK_SIZE as u64));
    assert_eq!(store.roots[0].summary.state, NodeState::Approved);
    assert!(store.fits_quota(&root.proof.hash, 3 * BLOCK_SIZE as u64));
    assert!(!store.fits_quota(&root.proof.hash, 3 * BLOCK_SIZE as u64 - 1));
}

#[test]
fn compute_summary_from_empty_leaf_nodes() {
    let store = Store::new();
    let hash = empty_leaf_hash();
    let summary = ouisync::store::summaries::compute_leaves_summary(&store.leaves, &hash);

    assert_eq!(summary.state, NodeState::Complete);
    assert_eq!(summary.block_presence, MultiBlockPresence::Absent);
    assert_eq!(Summary::from_leaves(&LeafNodes::new()).block_presence, MultiBlockPresence::Absent);
}

#[test]
fn compute_summary_from_incomplete_leaf_nodes() {
    let store = Store::new();
    let mut nodes = LeafNodes::new();
    nodes.insert(locator(1), BlockId::from_content(&content(1)), SingleBlockPresence::Missing);
    let hash = nodes.hash();

    let summary = ouisync::store::summaries::compute_leaves_summary(&store.leaves, &hash);

    assert_eq!(summary, Summary::incomplete());
}

#[test]
fn compute_summary_from_complete_leaf_nodes_with_all_missing_blocks() {
    let mut nodes = LeafNodes::new();
    nodes.insert(locator(1), BlockId::from_content(&content(1)), SingleBlockPresence::Missing);
    let summary = Summary::from_leaves(&nodes);

    assert_eq!(summary.state, NodeState::Complete);
    assert_eq!(summary.block_presence, MultiBlockPresence::Absent);
}

#[test]
fn compute_summary_from_complete_leaf_nodes_with_some_present_blocks() {
    let mut nodes = LeafNodes::new();
    nodes.insert(locator(0), BlockId::from_content(&content(0)), SingleBlockPresence::Present);
    nodes.insert(locator(1), BlockId::from_content(&content(1)), SingleBlockPresence::Missing);
    nodes.insert(locator(2), BlockId::from_content(&content(2)), SingleBlockPresence::Missing);
    let summary = Summary::from_leaves(&nodes);

    assert_eq!(summary.state, NodeState::Complete);
    assert!(matches!(summary.block_presence, MultiBlockPresence::Partial(_)));
}

#[test]
fn compute_summary_from_complete_leaf_nodes_with_all_present_blocks() {
    let mut nodes = LeafNodes::new();
    nodes.insert(locator(0), BlockId::from_content(&content(0)), SingleBlockPresence::Present);
    nodes.insert(locator(1), BlockId::from_content(&content(1)), SingleBlockPresence::Present);
    let summary = Summary::from_leaves(&nodes);

    assert_eq!(summary.state, NodeState::Complete);
    assert_eq!(summary.block_presence, MultiBlockPresence::Full);
}

#[test]
fn compute_summary_from_empty_inner_nodes() {
    let store = Store::new();
    let hash = empty_inner_hash();
    let summary = ouisync::store::summaries::compute_inners_summary(&store.inners0, &hash);

    assert_eq!(summary.state, NodeState::Complete);
    assert_eq!(summary.block_presence, MultiBlockPresence::Absent);
}

#[test]
fn compute_summary_from_incomplete_inner_nodes() {
    let store = Store::new();
    let mut nodes = InnerNodes::new();
    nodes.insert(0, InnerNode::new(locator(5), Summary::incomplete()));
    let hash = nodes.hash();

    let summary = ouisync::store::summaries::compute_inners_summary(&store.inners0, &hash);
    assert_eq!(summary, Summary::incomplete());

    assert_eq!(Summary::from_inners(&nodes), Summary::incomplete());
}

fn leaf_group(seeds: &[(u8, SingleBlockPresence)]) -> LeafNodes {
    let mut nodes = LeafNodes::new();
    for (seed, presence) in seeds {
        nodes.insert(locator(*seed as u128), BlockId::from_content(&content(*seed)), *presence);
    }
    nodes
}

#[test]
fn compute_summary_from_complete_inner_nodes_with_all_missing_blocks() {
    let mut inners = InnerNodes::new();
    for bucket in 0..2u8 {
        let leaves = leaf_group(&[(bucket, SingleBlockPresence::Missing)]);
        inners.insert(bucket, InnerNode::new(leaves.hash(), Summary::from_leaves(&leaves)));
    }
    let summary = Summary::from_inners(&inners);

    assert_eq!(summary.state, NodeState::Complete);
    assert_eq!(summary.block_presence, MultiBlockPresence::Absent);
}

#[test]
fn compute_summary_from_complete_inner_nodes_with_some_present_blocks() {
    // all missing
    let leaves0 =
        leaf_group(&[(0, SingleBlockPresence::Missing), (1, SingleBlockPresence::Missing)]);
    // some present
    let leaves1 =
        leaf_group(&[(2, SingleBlockPresence::Missing), (3, SingleBlockPresence::Present)]);
    // all present
    let leaves2 =
        leaf_group(&[(4, SingleBlockPresence::Present), (5, SingleBlockPresence::Present)]);

    let mut inners = InnerNodes::new();
    inners.insert(0, InnerNode::new(leaves0.hash(), Summary::from_leaves(&leaves0)));
    inners.insert(1, InnerNode::new(leaves1.hash(), Summary::from_leaves(&leaves1)));
    inners.insert(2, InnerNode::new(leaves2.hash(), Summary::from_leaves(&leaves2)));
    let summary = Summary::from_inners(&inners);

    assert_eq!(summary.state, NodeState::Complete);
    assert!(matches!(summary.block_presence, MultiBlockPresence::Partial(_)));
}

#[test]
fn compute_summary_from_complete_inner_nodes_with_all_present_blocks() {
    let mut inners = InnerNodes::new();
    for bucket in 0..2u8 {
        let leaves = leaf_group(&[
            (bucket * 2, SingleBlockPresence::Present),
            (bucket * 2 + 1, SingleBlockPresence::Present),
        ]);
        inners.insert(bucket, InnerNode::new(leaves.hash(), Summary::from_leaves(&leaves)));
    }
    let summary = Summary::from_inners(&inners);

    assert_eq!(summary.state, NodeState::Complete);
    assert_eq!(summary.block_presence, MultiBlockPresence::Full);
}

#[test]
fn summary_follows_received_blocks() {
    let remote_id = key(2);
    let (src, _, blocks) = source(remote_id, 5);
    let root = root_of(&src, &remote_id);

    let mut store = Store::new();
    receive_nodes(&mut store, &src, &root, None);

    // Initially all blocks are missing
    assert_eq!(root_of(&store, &remote_id).summary.block_presence, MultiBlockPresence::Absent);

    let mut received_blocks = 0;
    for (_, block) in &blocks {
        let writers = store
            .write_received_block(block.content.clone(), block.nonce.clone(), &block.id)
            .unwrap();
        assert_eq!(writers, vec![remote_id]);
        received_blocks += 1;

        let presence = root_of(&store, &remote_id).summary.block_presence;
        if received_blocks < blocks.len() {
            assert!(matches!(presence, MultiBlockPresence::Partial(_)));
        } else {
            assert_eq!(presence, MultiBlockPresence::Full);
        }
    }
    assert_eq!(store.sync_progress().value, 5);
    assert_eq!(store.sync_progress().total, 5);
}

#[test]
fn receive_valid_blocks() {
    let branch_id = key(2);
    let (src, _, blocks) = source(branch_id, 5);
    let root = root_of(&src, &branch_id);

    let mut store = Store::new();
    receive_nodes(&mut store, &src, &root, None);
    for (_, block) in &blocks {
        store
            .write_received_block(block.content.clone(), block.nonce.clone(), &block.id)
            .unwrap();
    }

    for (_, block) in &blocks {
        let read = store.read_block(&block.id).unwrap();
        assert_eq!(&read.content[..], &block.content[..]);
        assert_eq!(read.nonce, block.nonce);
        assert_eq!(BlockId::from_content(&read.content), block.id);
    }
}

#[test]
fn receive_orphaned_block() {
    let mut store = Store::new();
    let block = block(1);

    assert!(matches!(
        store.write_received_block(block.content.clone(), block.nonce.clone(), &block.id),
        Err(Error::BlockNotReferenced)
    ));
    assert!(!store.block_exists(&block.id));
}

#[test]
fn receive_block_with_wrong_content() {
    let branch_id = key(2);
    let (src, _, blocks) = source(branch_id, 1);
    let root = root_of(&src, &branch_id);
    let mut store = Store::new();
    receive_nodes(&mut store, &src, &root, None);

    let advertised = blocks[0].1.id;
    let mut forged = blocks[0].1.content.clone();
    forged[100] ^= 1;

    assert!(matches!(
        store.write_received_block(forged, nonce(0), &advertised),
        Err(Error::WrongBlockId)
    ));
    assert!(!store.block_exists(&advertised));
    assert_eq!(store.count_blocks(), 0);

    assert!(matches!(
        store.write_received_block(vec![0u8; BLOCK_SIZE - 1], nonce(0), &advertised),
        Err(Error::WrongBlockLength)
    ));
    assert!(matches!(
        store.write_received_block(blocks[0].1.content.clone(), vec![0u8; 3], &advertised),
        Err(Error::WrongBlockLength)
    ));
}

#[test]
fn remove_block() {
    let mut store = Store::new();

    let branch0 = BranchData::new(key(1));
    let branch1 = BranchData::new(key(2));

    let block = block(1);
    store.write_block(block.clone());

    let locator0 = locator(0);
    let mut snapshot0 = branch0.load_or_create_snapshot(&store);
    snapshot0
        .insert_block(&mut store, &locator0, &block.id, SingleBlockPresence::Present)
        .unwrap();

    let locator1 = locator(1);
    let mut snapshot1 = branch1.load_or_create_snapshot(&store);
    snapshot1
        .insert_block(&mut store, &locator1, &block.id, SingleBlockPresence::Present)
        .unwrap();

    assert!(store.block_exists(&block.id));
    assert_eq!(store.remove_unreachable_blocks(), 0);

    snapshot0.remove_block(&mut store, &locator0, None).unwrap();
    assert_eq!(store.remove_unreachable_blocks(), 0);
    assert!(store.block_exists(&block.id));

    snapshot1.remove_block(&mut store, &locator1, None).unwrap();
    assert_eq!(store.unreachable_blocks, vec![block.id]);
    assert_eq!(store.remove_unreachable_blocks(), 1);
    assert!(!store.block_exists(&block.id));
}

#[test]
fn overwrite_block() {
    let mut store = Store::new();
    let branch = BranchData::new(key(1));
    let locator = locator(0);

    let block0 = block(0);
    store.write_block(block0.clone());
    let mut snapshot = branch.load_or_create_snapshot(&store);
    snapshot
        .insert_block(&mut store, &locator, &block0.id, SingleBlockPresence::Present)
        .unwrap();

    assert!(store.block_exists(&block0.id));
    assert_eq!(store.count_blocks(), 1);

    let block1 = block(1);
    store.write_block(block1.clone());
    snapshot
        .insert_block(&mut store, &locator, &block1.id, SingleBlockPresence::Present)
        .unwrap();
    store.remove_unreachable_blocks();

    assert!(!store.block_exists(&block0.id));
    assert!(store.block_exists(&block1.id));
    assert_eq!(store.count_blocks(), 1);
}

#[test]
fn every_stored_block_is_referenced_or_listed() {
    let writer = key(1);
    let (mut store, mut snapshot, blocks) = source(writer, 4);
    let stray = block(200);
    store.write_block(stray.clone());

    assert_eq!(store.unreachable_blocks, vec![stray.id]);
    for (_, block) in &blocks {
        assert!(store.is_referenced(&block.id));
    }

    snapshot.remove_block(&mut store, &blocks[0].0, None).unwrap();
    let mut listed = store.unreachable_blocks.clone();
    listed.sort();
    let mut expected = vec![stray.id, blocks[0].1.id];
    expected.sort();
    assert_eq!(listed, expected);

    for i in 0..store.blocks.len() {
        let id = BlockId { hash: store.blocks.key_at(i) };
        assert!(store.is_referenced(&id) != store.unreachable_blocks.contains(&id));
    }

    // Removing them removes as many as were listed, and leaves none listed.
    assert_eq!(store.count_blocks(), 5);
    assert_eq!(store.remove_unreachable_blocks(), 2);
    assert!(store.unreachable_blocks.is_empty());
    assert_eq!(store.count_blocks(), 3);
    assert!(!store.block_exists(&stray.id));
    assert!(!store.block_exists(&blocks[0].1.id));
    for (locator, block) in &blocks[1..] {
        assert!(store.block_exists(&block.id));
        assert_eq!(store.find_block(&writer, locator), Ok(block.id));
    }
    assert_eq!(store.remove_unreachable_blocks(), 0);
}

#[test]
fn fallback() {
    let writer = key(1);
    let mut store = Store::new();
    let branch = BranchData::new(writer);
    let locator = locator(0);

    let id0 = BlockId::from_content(&content(0));
    let id1 = BlockId::from_content(&content(1));
    let id2 = BlockId::from_content(&content(2));
    let id3 = BlockId::from_content(&content(3));

    // Four snapshots, sent by the writer one after the other: in the first
    // two the block is present, in the last two it is missing.
    let mut src = Store::new();
    let mut snapshot = branch.load_or_create_snapshot(&src);
    for (block_id, presence) in [
        (id0, SingleBlockPresence::Present),
        (id1, SingleBlockPresence::Present),
        (id2, SingleBlockPresence::Missing),
        (id3, SingleBlockPresence::Missing),
    ] {
        snapshot.insert_block(&mut src, &locator, &block_id, presence).unwrap();
        let root = root_of(&src, &writer);
        receive_nodes(&mut store, &src, &root, None);
        if presence == SingleBlockPresence::Present {
            store.set_block_presence(&block_id, SingleBlockPresence::Present);
            store.update_summaries();
        }
    }
    assert_eq!(store.roots.len(), 4);

    let latest = SnapshotData { root_node: root_of(&store, &writer) };
    latest.prune(&mut store);

    assert_eq!(
        latest.get_block(&store, &locator).unwrap(),
        (id3, SingleBlockPresence::Missing)
    );

    // The previous snapshot was pruned because it can't serve as fallback for the latest one
    // but the one before it was not because it can.
    assert_eq!(store.roots.len(), 2);
    let previous = latest.load_prev(&store).unwrap();
    assert_eq!(
        previous.get_block(&store, &locator).unwrap(),
        (id1, SingleBlockPresence::Present)
    );

    // All the further snapshots were pruned as well
    assert!(previous.load_prev(&store).is_none());

    // When the block of the latest snapshot arrives, the fallback is no longer needed.
    store.set_block_presence(&id3, SingleBlockPresence::Present);
    store.update_summaries();
    let latest = SnapshotData { root_node: root_of(&store, &writer) };
    latest.prune(&mut store);
    assert_eq!(store.roots.len(), 1);
    assert_eq!(
        latest.get_block(&store, &locator).unwrap(),
        (id3, SingleBlockPresence::Present)
    );
}

#[test]
fn draft_does_not_remove_its_predecessor() {
    let writer = key(1);
    let mut store = Store::new();
    store
        .receive_root_node(
            signed(writer, vv(writer, 1), empty_inner_hash()),
            &MultiBlockPresence::Absent,
            true,
            None,
        )
        .unwrap();
    // A snapshot of another writer's making with the same versions.
    let first = root_of(&store, &writer);
    let proof =
        Proof::new(writer, first.proof.version_vector.duplicate(), empty_inner_hash(), signature());
    store.create_root_node(proof, first.summary).unwrap();
    assert_eq!(store.roots.len(), 2);

    let latest = SnapshotData { root_node: root_of(&store, &writer) };
    latest.prune(&mut store);
    assert_eq!(store.roots.len(), 2);

    // Only the first of the two is published.
    let published = store.load_latest_approved_root_node(&writer, RootNodeFilter::Published).unwrap();
    assert_eq!(published.snapshot_id, first.snapshot_id);
    let any = store.load_latest_approved_root_node(&writer, RootNodeFilter::Any).unwrap();
    assert_ne!(any.snapshot_id, first.snapshot_id);
}

#[test]
fn transfer_snapshot_between_two_replicas() {
    let writer = key(1);
    let (mut a, mut snapshot, blocks) = source(writer, 8);
    assert_eq!(snapshot.version_vector().get(&writer), 8);

    let mut b = Store::new();
    let root = root_of(&a, &writer);
    let leaves = receive_nodes(&mut b, &a, &root, None);
    for leaf in &leaves {
        match handle_request(&a, Request::Block(leaf.block_id, DebugRequest::start())) {
            Response::Block { content, nonce, .. } => {
                b.write_received_block(content, nonce, &leaf.block_id).unwrap();
            }
            other => panic!("no block: {:?}", other),
        }
    }

    assert_eq!(root_of(&b, &writer).proof.hash, root.proof.hash);
    for (locator, block) in &blocks {
        assert_eq!(b.find_block(&writer, locator), Ok(block.id));
        assert_eq!(b.read_block(&block.id).unwrap().content, block.content);
    }
    assert_eq!(root_of(&b, &writer).summary.block_presence, MultiBlockPresence::Full);

    // Two more changes arrive one after the other, in the order of their versions.
    for change in 0..2u8 {
        let added = block(100 + change);
        a.write_block(added.clone());
        snapshot
            .insert_block(&mut a, &locator(100 + change as u128), &added.id, SingleBlockPresence::Present)
            .unwrap();
        let root = root_of(&a, &writer);
        let before = root_of(&b, &writer);
        assert!(before.proof.version_vector.lt(&root.proof.version_vector));

        receive_nodes(&mut b, &a, &root, None);
        let after = root_of(&b, &writer);
        assert_eq!(after.proof.hash, root.proof.hash);
        assert_eq!(after.proof.version_vector.get(&writer), 9 + change as u64);
        assert_eq!(b.find_block(&writer, &locator(100 + change as u128)), Ok(added.id));
        for (locator, block) in &blocks {
            assert_eq!(b.find_block(&writer, locator), Ok(block.id));
        }
    }
}

#[test]
fn unknown_requests_are_answered_with_errors() {
    let store = Store::new();
    let writer = key(1);
    let disambiguator = ResponseDisambiguator::new(MultiBlockPresence::Absent);
    assert!(matches!(
        handle_request(&store, Request::RootNode(writer, DebugRequest::start())),
        Response::RootNodeError(w, _) if w == writer
    ));
    assert!(matches!(
        handle_request(&store, Request::ChildNodes(locator(1), disambiguator, DebugRequest::start())),
        Response::ChildNodesError(h, d, _) if h == locator(1) && d == disambiguator
    ));
    let id = BlockId::from_content(&content(1));
    assert!(matches!(
        handle_request(&store, Request::Block(id, DebugRequest::start())),
        Response::BlockError(b, _) if b == id
    ));
}

#[test]
fn remove_branch_removes_every_snapshot_of_the_writer() {
    let (mut store, _, _) = source(key(1), 2);
    let other = key(2);
    store
        .receive_root_node(
            signed(other, vv(other, 1), empty_inner_hash()),
            &MultiBlockPresence::Absent,
            true,
            None,
        )
        .unwrap();
    assert_eq!(store.roots.len(), 2);
    store.remove_branch(key(1));
    assert_eq!(store.roots.len(), 1);
    assert_eq!(store.roots[0].proof.writer_id, other);
    assert_eq!(store.find_block(&key(1), &locator(0)), Err(Error::BranchNotFound));
}

#[test]
fn previous_approved_snapshot_is_of_the_same_writer() {
    let a = key(1);
    let b = key(2);
    let mut store = Store::new();
    for (writer, version) in [(a, 1), (b, 1), (a, 2), (b, 2), (a, 3)] {
        store
            .receive_root_node(
                signed(writer, vv(writer, version), empty_inner_hash()),
                &MultiBlockPresence::Absent,
                true,
                None,
            )
            .unwrap();
    }
    assert_eq!(store.roots.len(), 5);

    let latest = root_of(&store, &a);
    assert_eq!(latest.proof.version_vector.get(&a), 3);
    let second = store.load_prev_approved_root_node(&latest).unwrap();
    assert_eq!(second.proof.writer_id, a);
    assert_eq!(second.proof.version_vector.get(&a), 2);
    let first = store.load_prev_approved_root_node(&second).unwrap();
    assert_eq!(first.proof.writer_id, a);
    assert_eq!(first.proof.version_vector.get(&a), 1);
    assert!(store.load_prev_approved_root_node(&first).is_none());

    let latest = root_of(&store, &b);
    let first = store.load_prev_approved_root_node(&latest).unwrap();
    assert_eq!(first.proof.writer_id, b);
    assert_eq!(first.proof.version_vector.get(&b), 1);
}

#[test]
fn clone_root_node_into_another_branch() {
    let a = key(1);
    let b = key(2);
    let (mut store, snapshot, blocks) = source(a, 3);
    let src = root_of(&store, &a);
    assert!(matches!(
        store.load_latest_approved_root_node(&b, RootNodeFilter::Any),
        Err(Error::BranchNotFound)
    ));

    let cloned = store.clone_root_node_into(src.duplicate(), b, signature()).unwrap();
    assert_eq!(cloned.proof.writer_id, b);
    assert_eq!(cloned.proof.hash, src.proof.hash);
    assert_eq!(cloned.proof.version_vector.get(&a), 3);
    assert_eq!(cloned.summary, src.summary);
    assert_ne!(cloned.snapshot_id, src.snapshot_id);

    assert_eq!(root_of(&store, &b).snapshot_id, cloned.snapshot_id);
    assert_eq!(root_of(&store, &a).snapshot_id, src.snapshot_id);
    for (locator, block) in &blocks {
        assert_eq!(store.find_block(&b, locator), Ok(block.id));
    }
    assert_eq!(store.count_leaf_nodes_in_branch(&b), Ok(3));
    assert_eq!(snapshot.to_branch_data().count_leaf_nodes(&store), Ok(3));
    assert_eq!(store.count_leaf_nodes_in_branch(&key(3)), Err(Error::BranchNotFound));
    assert_eq!(BranchData::new(key(3)).count_leaf_nodes(&store), Err(Error::EntryNotFound));
}

#[test]
fn latest_snapshot_never_goes_back() {
    let writer = key(4);
    let mut store = Store::new();
    let mut seen = 0;
    // Snapshots arrive out of order; the older ones are passed over.
    for version in [1u64, 3, 2, 3, 5, 4] {
        store
            .receive_root_node(
                signed(writer, vv(writer, version), empty_inner_hash()),
                &MultiBlockPresence::Absent,
                true,
                None,
            )
            .unwrap();
        let latest = root_of(&store, &writer).proof.version_vector.get(&writer);
        assert!(latest >= seen);
        assert!(latest >= version);
        seen = latest;
    }
    assert_eq!(seen, 5);
    assert_eq!(store.roots.len(), 3);
    // Of two stored snapshots of the writer, the later one has the higher version.
    for i in 1..store.roots.len() {
        assert!(store.roots[i - 1]
            .proof
            .version_vector
            .lt(&store.roots[i].proof.version_vector));
    }
}

#[test]
fn removing_the_last_snapshot_leaves_no_node() {
    let a = key(1);
    let b = key(2);
    let (mut store, _, _) = source(a, 5);
    assert!(count_groups(&store) > 0);
    let src = root_of(&store, &a);
    store.clone_root_node_into(src.duplicate(), b, signature()).unwrap();

    // The nodes are shared: they stay as long as one of the branches is there.
    let groups = count_groups(&store);
    store.remove_branch(a);
    assert_eq!(count_groups(&store), groups);
    assert_eq!(store.count_leaf_nodes_in_branch(&b), Ok(5));

    store.remove_branch(b);
    assert_eq!(count_groups(&store), 0);
    assert_eq!(count_branch_forest_entries(&store), 0);
    assert_eq!(store.roots.len(), 0);
}

#[test]
fn write_goes_on_from_a_snapshot_whose_nodes_are_stored() {
    let a = key(1);
    let b = key(2);
    let (mut store, snapshot, blocks) = source(a, 3);
    // The branch of `b` shares the nodes; a handle of `a` taken now gets stale.
    let src = root_of(&store, &a);
    store.clone_root_node_into(src.duplicate(), b, signature()).unwrap();
    let mut stale = SnapshotData { root_node: snapshot.root_node.duplicate() };
    store.remove_branch(a);
    assert!(!stale.is_stored(&store));

    // The nodes are still there, so the write goes on.
    let added = BlockId::from_content(&content(77));
    assert_eq!(
        stale.insert_block(&mut store, &locator(77), &added, SingleBlockPresence::Present),
        Ok(true)
    );
    assert_eq!(store.find_block(&a, &locator(77)), Ok(added));
    for (locator, block) in &blocks {
        assert_eq!(store.find_block(&a, locator), Ok(block.id));
        assert_eq!(store.find_block(&b, locator), Ok(block.id));
    }
    assert_eq!(stale.version_vector().get(&a), 4);

    // Where the nodes went with the snapshot, there is nothing to go on from.
    let mut gone = SnapshotData { root_node: stale.root_node.duplicate() };
    store.remove_branch(a);
    store.remove_branch(b);
    assert_eq!(
        gone.insert_block(&mut store, &locator(78), &added, SingleBlockPresence::Present),
        Err(Error::BranchNotFound)
    );
    assert_eq!(gone.remove_block(&mut store, &locator(77), None), Err(Error::BranchNotFound));
    assert_eq!(store.roots.len(), 0);
}
