use ouisync::crypto::hash;
use ouisync::crypto::password::{get_or_generate_password_salt, PASSWORD_SALT_LEN};
use ouisync::crypto::sign::PublicKey;
use ouisync::index::branch_data::BranchData;
use ouisync::network::registry::{repository_info_hash, retry_delay, IndexMap, INFO_HASH_LEN};
use ouisync::network::seen_peers::{PeerAddr, SeenPeers, REMOVE_AFTER_ROUND_COUNT};
use ouisync::protocol::block::{Block, BlockId, BLOCK_NONCE_SIZE, BLOCK_SIZE};
use ouisync::protocol::root_node::RootNodeFilter;
use ouisync::protocol::node::{InnerNode, InnerNodes, LeafNodes};
use ouisync::protocol::summary::{MultiBlockPresence, SingleBlockPresence, Summary};
use ouisync::store::commit::{plan_commit, CommitPlan};
use ouisync::store::Store;

#[test]
fn sanity_checks() {
    let mut seen_peers = SeenPeers::new();
    // 127.0.0.1:1234 over QUIC
    let peer_addr = PeerAddr { quic: true, ip: 0xffff_7f00_0001, port: 1234 };
    let peer = seen_peers.insert(peer_addr).unwrap();

    assert!(seen_peers.insert(peer_addr).is_none());

    peer.release(&mut seen_peers);

    let peer = seen_peers.insert(peer_addr).unwrap();

    for _ in 0..(REMOVE_AFTER_ROUND_COUNT + 1) {
        assert!(peer.addr_if_seen(&seen_peers).is_some());
        seen_peers.start_new_round();
    }

    assert!(peer.addr_if_seen(&seen_peers).is_none());

    let peer = seen_peers.insert(peer_addr).unwrap();

    seen_peers.start_new_round();
    // Inserted, but it's not new, so None is returned.
    assert!(seen_peers.insert(peer_addr).is_none());

    seen_peers.start_new_round();
    assert!(peer.addr_if_seen(&seen_peers).is_some());

    seen_peers.start_new_round();
    assert!(peer.addr_if_seen(&seen_peers).is_some());

    seen_peers.start_new_round();
    assert!(peer.addr_if_seen(&seen_peers).is_none());

    let _peer = seen_peers.insert(peer_addr).unwrap();
}

#[test]
fn seen_peers_are_told_apart_by_protocol_and_port() {
    let mut seen_peers = SeenPeers::new();
    let tcp = PeerAddr { quic: false, ip: 1, port: 80 };
    let quic = PeerAddr { quic: true, ip: 1, port: 80 };
    let other_port = PeerAddr { quic: false, ip: 1, port: 81 };

    assert!(seen_peers.insert(tcp).is_some());
    assert!(seen_peers.insert(quic).is_some());
    assert!(seen_peers.insert(other_port).is_some());
    assert!(seen_peers.insert(tcp).is_none());

    let mut collected: Vec<PeerAddr> =
        seen_peers.collect().iter().map(|peer| *peer.initial_addr()).collect();
    collected.sort_by_key(|addr| (addr.quic, addr.port));
    assert_eq!(collected, vec![tcp, other_port, quic]);

    seen_peers.remove(&tcp);
    assert!(!seen_peers.is_seen(&tcp));
    assert!(seen_peers.is_seen(&quic));
    assert_eq!(seen_peers.collect().len(), 2);
}

#[test]
fn peer_in_use_is_kept_until_the_last_handle_is_released() {
    let mut seen_peers = SeenPeers::new();
    let addr = PeerAddr { quic: false, ip: 9, port: 9 };
    let first = seen_peers.insert(addr).unwrap();
    let second = first.duplicate(&mut seen_peers).unwrap();

    for _ in 0..5 {
        seen_peers.start_new_round();
    }
    // No longer seen, but still known: handles are in use.
    assert!(first.addr_if_seen(&seen_peers).is_none());
    assert_eq!(seen_peers.peers.len(), 1);

    first.release(&mut seen_peers);
    assert_eq!(seen_peers.peers.len(), 1);
    second.release(&mut seen_peers);
    assert_eq!(seen_peers.peers.len(), 0);
}

#[test]
fn registry_gives_ids_in_turn() {
    let mut map = IndexMap::new();
    assert_eq!(map.insert("first".to_string()), Some(0));
    assert_eq!(map.insert("second".to_string()), Some(1));
    map.remove(0);
    assert!(!map.contains(0));
    assert!(map.contains(1));
    assert_eq!(map.insert("third".to_string()), Some(2));

    // The ids wrap around, and a taken id is not given twice.
    map.next_id = u64::MAX;
    assert_eq!(map.insert("last".to_string()), Some(u64::MAX));
    assert_eq!(map.next_id, 0);
    assert_eq!(map.insert("again".to_string()), Some(0));
    assert_eq!(map.insert("taken".to_string()), None);
    assert_eq!(map.next_id, 1);
}

#[test]
fn retry_delay_doubles_up_to_five_seconds() {
    assert_eq!(retry_delay(0), 200);
    assert_eq!(retry_delay(1), 400);
    assert_eq!(retry_delay(2), 800);
    assert_eq!(retry_delay(3), 1600);
    assert_eq!(retry_delay(4), 3200);
    assert_eq!(retry_delay(5), 5000);
    assert_eq!(retry_delay(10), 5000);
    assert_eq!(retry_delay(u32::MAX), 5000);
}

#[test]
fn info_hash_is_start_of_digest() {
    let info_hash = repository_info_hash(b"repository");
    assert_eq!(info_hash.len(), INFO_HASH_LEN);
    assert_eq!(&info_hash[..], &hash::Hash::digest_bytes(b"repository")[..20]);
    assert_ne!(info_hash, repository_info_hash(b"other"));
}

#[test]
fn stored_salt_is_kept() {
    assert_eq!(PASSWORD_SALT_LEN, 16);
    assert_eq!(get_or_generate_password_salt(Some([3u8; 16])), ([3u8; 16], false));
    let (first, generated) = get_or_generate_password_salt(None);
    assert!(generated);
    let (second, _) = get_or_generate_password_salt(None);
    // Two salts of sixteen random bytes differ.
    assert_ne!(first, second);
}

#[test]
fn commit_runs_what_is_needed() {
    assert_eq!(
        plan_commit(true, true, false),
        CommitPlan { needs_hook: true, commit_cache: true, untrack_blocks: true }
    );
    assert_eq!(
        plan_commit(false, true, false),
        CommitPlan { needs_hook: true, commit_cache: false, untrack_blocks: true }
    );
    assert_eq!(
        plan_commit(true, false, false),
        CommitPlan { needs_hook: true, commit_cache: true, untrack_blocks: false }
    );
    assert_eq!(
        plan_commit(false, false, false),
        CommitPlan { needs_hook: false, commit_cache: false, untrack_blocks: false }
    );
    assert_eq!(
        plan_commit(false, false, true),
        CommitPlan { needs_hook: true, commit_cache: false, untrack_blocks: false }
    );
}

fn writer(n: u128) -> PublicKey {
    PublicKey { key: hash::Hash { hi: 0xcc00 + n, lo: n } }
}

fn stored_block(seed: u8) -> Block {
    Block::new(vec![seed; BLOCK_SIZE], vec![seed; BLOCK_NONCE_SIZE]).unwrap()
}

#[test]
fn unreachable_nodes_are_removed() {
    let mut store = Store::new();
    let a = writer(1);
    let mut snapshot = BranchData::new(a).load_or_create_snapshot(&store);

    let locator = hash::Hash::digest(&[1]);
    let first = BlockId::from_content(&[1]);
    let second = BlockId::from_content(&[2]);
    snapshot.insert_block(&mut store, &locator, &first, SingleBlockPresence::Present).unwrap();
    snapshot.insert_block(&mut store, &locator, &second, SingleBlockPresence::Present).unwrap();

    // The nodes of the first snapshot went with it.
    assert_eq!(store.roots.len(), 1);
    assert_eq!(store.inners0.len() + store.inners1.len() + store.inners2.len(), 3);
    assert_eq!(store.leaves.len(), 1);

    // Groups that no snapshot refers to: one of inner nodes, one of leaves.
    let mut orphans = InnerNodes::new();
    orphans.insert(7, InnerNode::new(hash::Hash::digest(&[7]), Summary::incomplete()));
    ouisync::store::nodes::save_inner_group(&mut store.inners1, &orphans).unwrap();
    let mut leaves = LeafNodes::new();
    leaves.insert(hash::Hash::digest(&[8]), first, SingleBlockPresence::Missing);
    ouisync::store::nodes::save_leaf_group(&mut store.leaves, &leaves).unwrap();
    assert_eq!(store.inners0.len() + store.inners1.len() + store.inners2.len(), 4);
    assert_eq!(store.leaves.len(), 2);

    store.remove_unreachable_nodes();

    // One group in each inner layer and one group of leaves are left.
    assert_eq!(store.inners0.len() + store.inners1.len() + store.inners2.len(), 3);
    assert_eq!(store.leaves.len(), 1);
    assert_eq!(store.find_block(&a, &locator), Ok(second));

    // After the last block was removed nothing is left.
    snapshot.remove_block(&mut store, &locator, None).unwrap();
    assert_eq!(store.inners0.len() + store.inners1.len() + store.inners2.len(), 0);
    assert_eq!(store.leaves.len(), 0);
    assert_eq!(store.roots.len(), 1);
}

#[test]
fn expired_block_is_still_advertised() {
    let mut store = Store::new();
    let a = writer(1);
    let block = stored_block(1);
    let locator = hash::Hash::digest(&[1]);
    store.write_block(block.clone());
    BranchData::new(a)
        .load_or_create_snapshot(&store)
        .insert_block(&mut store, &locator, &block.id, SingleBlockPresence::Present)
        .unwrap();

    store.expire_block(&block.id);
    assert!(!store.block_exists(&block.id));
    let root = store.load_latest_approved_root_node(&a, RootNodeFilter::Any).unwrap();
    assert_eq!(root.summary.block_presence, MultiBlockPresence::Full);
    assert_eq!(
        BranchData::new(a).get(&store, &locator),
        Ok((block.id, SingleBlockPresence::Expired))
    );

    // When the block is removed for good it is missing.
    store.remove_block(&block.id);
    let root = store.load_latest_approved_root_node(&a, RootNodeFilter::Any).unwrap();
    assert_eq!(root.summary.block_presence, MultiBlockPresence::Absent);
    assert_eq!(
        BranchData::new(a).get(&store, &locator),
        Ok((block.id, SingleBlockPresence::Missing))
    );
}
