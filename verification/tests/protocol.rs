use ouisync::access_control::{
    get_access_secrets, read_key_validator, set_access_secrets, AccessMode, AccessSecrets,
    SecretKey, SigningKey,
};
use ouisync::blob::{Buffer, Cursor};
use ouisync::branch::{block_received_events, AtomicCounter, BranchEventSender, BranchShared, Payload};
use ouisync::crypto::hash;
use ouisync::crypto::sign::PublicKey;
use ouisync::error::Error;
use ouisync::joint_entry::{
    entry_type_to_num, Directory, EntryType, File, JointEntry, ENTRY_TYPE_DIRECTORY,
    ENTRY_TYPE_FILE,
};
use ouisync::collections::table::Table;
use ouisync::network::message::{Message, RepositoryId, Request};
use ouisync::network::debug_payload::{DebugRequest, DebugResponse};
use ouisync::network::server::{Choked, RootNodeReply, Server};
use ouisync::protocol::block::{BlockId, BLOCK_SIZE};
use ouisync::protocol::locator::{BlobId, Locator};
use ouisync::protocol::node::{get_bucket, InnerNode, InnerNodes, LeafNodes};
use ouisync::protocol::signed::{signable_bytes, Proof};
use ouisync::protocol::summary::{
    clamp, MultiBlockPresence, NodeState, SingleBlockPresence, Summary,
};
use ouisync::version_vector::{Relation, VersionVector};

fn key(n: u128) -> PublicKey {
    PublicKey { key: hash::Hash { hi: 0xaa00 + n, lo: n } }
}

#[test]
fn hash_bytes_round_trip() {
    let h = hash::Hash { hi: 0x0102030405060708090a0b0c0d0e0f10, lo: 0xf1f2f3f4f5f6f7f8f9fafbfcfdfeff00 };
    let bytes = h.to_bytes();
    assert_eq!(bytes.len(), 32);
    // Little-endian: the low word first, its low byte first.
    assert_eq!(bytes[0], 0x00);
    assert_eq!(bytes[1], 0xff);
    assert_eq!(bytes[15], 0xf1);
    assert_eq!(bytes[16], 0x10);
    assert_eq!(bytes[31], 0x01);
    assert_eq!(hash::Hash::try_from_slice(&bytes), Some(h));
    assert_eq!(hash::Hash::try_from_slice(&bytes[..31]), None);
    let mut array = [0u8; 32];
    array.copy_from_slice(&bytes);
    assert_eq!(hash::Hash::from_bytes(&array), h);
    assert_eq!(hash::Hash::null().to_bytes(), vec![0u8; 32]);
}

#[test]
fn digest_is_sha3_256() {
    // The digest of the empty input, as the standard gives it.
    let expected: [u8; 32] = [
        0xa7, 0xff, 0xc6, 0xf8, 0xbf, 0x1e, 0xd7, 0x66, 0x51, 0xc1, 0x47, 0x56, 0xa0, 0x61, 0xd6,
        0x62, 0xf5, 0x80, 0xff, 0x4d, 0xe4, 0x3b, 0x49, 0xfa, 0x82, 0xd8, 0x0a, 0x4b, 0x80, 0xf8,
        0x43, 0x4a,
    ];
    assert_eq!(hash::Hash::digest_bytes(&[]), expected);
    assert_eq!(hash::Hash::digest(&[]), hash::Hash::from_bytes(&expected));
    assert_eq!(hash::Hash::digest(&[]).to_bytes(), expected.to_vec());
    assert_ne!(hash::Hash::digest(&[0]), hash::Hash::digest(&[]));
}

#[test]
fn hash_order_is_by_high_word_first() {
    let a = hash::Hash { hi: 1, lo: 9 };
    let b = hash::Hash { hi: 2, lo: 0 };
    let c = hash::Hash { hi: 2, lo: 1 };
    assert!(a.lt(&b));
    assert!(b.lt(&c));
    assert!(!c.lt(&b));
    assert!(!a.lt(&a));
}

#[test]
fn bucket_is_byte_of_locator() {
    let locator = hash::Hash { hi: 0, lo: 0x00aabbcc };
    assert_eq!(get_bucket(&locator, 0), 0xcc);
    assert_eq!(get_bucket(&locator, 1), 0xbb);
    assert_eq!(get_bucket(&locator, 2), 0xaa);
    let bytes = locator.to_bytes();
    for layer in 0..3 {
        assert_eq!(get_bucket(&locator, layer), bytes[layer]);
    }
}

#[test]
fn node_state_update() {
    for (a, b, expected) in [
        (NodeState::Incomplete, NodeState::Incomplete, NodeState::Incomplete),
        (NodeState::Incomplete, NodeState::Complete, NodeState::Incomplete),
        (NodeState::Complete, NodeState::Incomplete, NodeState::Incomplete),
        (NodeState::Approved, NodeState::Incomplete, NodeState::Incomplete),
        (NodeState::Complete, NodeState::Complete, NodeState::Complete),
        (NodeState::Complete, NodeState::Approved, NodeState::Complete),
        (NodeState::Rejected, NodeState::Complete, NodeState::Complete),
        (NodeState::Approved, NodeState::Approved, NodeState::Approved),
        (NodeState::Rejected, NodeState::Rejected, NodeState::Rejected),
    ] {
        let mut state = a;
        state.update(b);
        assert_eq!(state, expected);
    }
    assert!(NodeState::Approved.is_approved());
    assert!(!NodeState::Complete.is_approved());
    assert!(!NodeState::Rejected.is_approved());
    assert!(!NodeState::Incomplete.is_approved());
}

#[test]
fn block_presence_is_outdated() {
    assert!(!MultiBlockPresence::Full.is_outdated(&MultiBlockPresence::Full));
    assert!(!MultiBlockPresence::Full.is_outdated(&MultiBlockPresence::Partial(5)));
    assert!(!MultiBlockPresence::Full.is_outdated(&MultiBlockPresence::Absent));
    assert!(!MultiBlockPresence::Absent.is_outdated(&MultiBlockPresence::Absent));
    assert!(MultiBlockPresence::Absent.is_outdated(&MultiBlockPresence::Partial(5)));
    assert!(MultiBlockPresence::Absent.is_outdated(&MultiBlockPresence::Full));
    assert!(MultiBlockPresence::Partial(5).is_outdated(&MultiBlockPresence::Full));
    assert!(!MultiBlockPresence::Partial(5).is_outdated(&MultiBlockPresence::Absent));
    assert!(!MultiBlockPresence::Partial(5).is_outdated(&MultiBlockPresence::Partial(5)));
    assert!(MultiBlockPresence::Partial(5).is_outdated(&MultiBlockPresence::Partial(6)));

    assert!(SingleBlockPresence::Missing.is_missing());
    assert!(!SingleBlockPresence::Present.is_missing());
    assert!(!SingleBlockPresence::Expired.is_missing());
}

#[test]
fn summary_is_outdated() {
    let complete_none = Summary { state: NodeState::Complete, block_presence: MultiBlockPresence::Absent };
    let complete_full = Summary::full();
    assert!(Summary::incomplete().is_outdated(&complete_none));
    assert!(Summary::incomplete().is_outdated(&Summary::incomplete()));
    assert!(complete_none.is_outdated(&complete_full));
    assert!(!complete_full.is_outdated(&complete_none));
    assert!(!complete_full.is_outdated(&Summary::incomplete()));
    assert_eq!(complete_full.with_state(NodeState::Approved).state, NodeState::Approved);
    assert_eq!(
        complete_full.with_state(NodeState::Approved).block_presence,
        MultiBlockPresence::Full
    );
}

#[test]
fn checksum_bytes() {
    assert_eq!(MultiBlockPresence::Absent.checksum(), vec![0u8; 16]);
    assert_eq!(MultiBlockPresence::Full.checksum(), vec![0xffu8; 16]);
    let mut expected = vec![0u8; 16];
    expected[0] = 0x34;
    expected[1] = 0x12;
    assert_eq!(MultiBlockPresence::Partial(0x1234).checksum(), expected);
    assert_eq!(MultiBlockPresence::from_checksum_value(0), MultiBlockPresence::Absent);
    assert_eq!(MultiBlockPresence::from_checksum_value(u128::MAX), MultiBlockPresence::Full);
    assert_eq!(MultiBlockPresence::from_checksum_value(7), MultiBlockPresence::Partial(7));
    assert_eq!(clamp(0), 1);
    assert_eq!(clamp(u128::MAX), u128::MAX - 1);
    assert_eq!(clamp(12345), 12345);
}

#[test]
fn partial_presence_is_digest_of_checksums() {
    let mut nodes = LeafNodes::new();
    nodes.insert(hash::Hash { hi: 0, lo: 1 }, BlockId::from_content(&[1]), SingleBlockPresence::Present);
    nodes.insert(hash::Hash { hi: 0, lo: 2 }, BlockId::from_content(&[2]), SingleBlockPresence::Missing);
    let summary = Summary::from_leaves(&nodes);

    let mut input = vec![0xffu8; 16];
    input.extend_from_slice(&[0u8; 16]);
    let expected = clamp(xxhash_rust::xxh3::xxh3_128(&input));
    assert_eq!(summary.block_presence, MultiBlockPresence::Partial(expected));

    // An expired block counts as present.
    let mut expired = LeafNodes::new();
    expired.insert(hash::Hash { hi: 0, lo: 1 }, BlockId::from_content(&[1]), SingleBlockPresence::Expired);
    assert_eq!(Summary::from_leaves(&expired).block_presence, MultiBlockPresence::Full);
}

#[test]
fn empty_inner_nodes_are_passed_over() {
    let mut inners = InnerNodes::new();
    inners.insert(3, InnerNode::new(ouisync::protocol::node::empty_inner_hash(), Summary::incomplete()));
    inners.insert(4, InnerNode::new(ouisync::protocol::node::empty_leaf_hash(), Summary::incomplete()));
    let summary = Summary::from_inners(&inners);
    assert_eq!(summary.state, NodeState::Complete);
    assert_eq!(summary.block_presence, MultiBlockPresence::Absent);
    assert_eq!(InnerNodes::new().hash(), ouisync::protocol::node::empty_inner_hash());
    assert_eq!(LeafNodes::new().hash(), ouisync::protocol::node::empty_leaf_hash());
}

#[test]
fn node_hash_ignores_summaries_and_presence() {
    let mut a = InnerNodes::new();
    let mut b = InnerNodes::new();
    a.insert(9, InnerNode::new(hash::Hash { hi: 1, lo: 2 }, Summary::incomplete()));
    b.insert(9, InnerNode::new(hash::Hash { hi: 1, lo: 2 }, Summary::full()));
    assert_eq!(a.hash(), b.hash());
    assert_eq!(a.into_incomplete().hash(), b.hash());
    b.insert(10, InnerNode::new(hash::Hash { hi: 1, lo: 2 }, Summary::full()));
    assert_ne!(a.hash(), b.hash());

    let mut x = LeafNodes::new();
    let mut y = LeafNodes::new();
    x.insert(hash::Hash { hi: 0, lo: 1 }, BlockId::from_content(&[1]), SingleBlockPresence::Present);
    y.insert(hash::Hash { hi: 0, lo: 1 }, BlockId::from_content(&[1]), SingleBlockPresence::Missing);
    assert_eq!(x.hash(), y.hash());
    assert_eq!(x.into_missing().get_at(0).block_presence, SingleBlockPresence::Missing);
    y.insert(hash::Hash { hi: 0, lo: 1 }, BlockId::from_content(&[2]), SingleBlockPresence::Missing);
    assert_ne!(x.hash(), y.hash());
}

#[test]
fn leaf_nodes_are_kept_in_order() {
    let mut nodes = LeafNodes::new();
    let id = BlockId::from_content(&[1]);
    for lo in [5u128, 1, 9, 3, 7] {
        assert!(nodes.insert(hash::Hash { hi: 0, lo }, id, SingleBlockPresence::Present));
    }
    assert!(!nodes.insert(hash::Hash { hi: 0, lo: 9 }, id, SingleBlockPresence::Present));
    let order: Vec<u128> = (0..nodes.len()).map(|i| nodes.get_at(i).locator.lo).collect();
    assert_eq!(order, vec![1, 3, 5, 7, 9]);
    assert_eq!(nodes.remove(&hash::Hash { hi: 0, lo: 5 }).map(|n| n.locator.lo), Some(5));
    assert_eq!(nodes.remove(&hash::Hash { hi: 0, lo: 5 }), None);
    assert_eq!(nodes.get(&hash::Hash { hi: 0, lo: 7 }).map(|n| n.block_id), Some(id));
    assert_eq!(nodes.get(&hash::Hash { hi: 0, lo: 8 }), None);
    assert_eq!(nodes.len(), 4);
}

#[test]
fn version_vector_order() {
    let a = key(1);
    let b = key(2);

    let mut x = VersionVector::first(a);
    let mut y = VersionVector::first(b);
    assert_eq!(x.relation(&y), Relation::Concurrent);
    assert_eq!(VersionVector::new().relation(&x), Relation::Less);
    assert_eq!(x.relation(&VersionVector::new()), Relation::Greater);
    assert_eq!(x.relation(&VersionVector::first(a)), Relation::Equal);
    assert!(VersionVector::new().is_empty());
    assert!(!x.is_empty());

    x.merge(&y);
    assert_eq!(x.get(&a), 1);
    assert_eq!(x.get(&b), 1);
    assert_eq!(y.relation(&x), Relation::Less);
    assert!(y.lt(&x));
    assert!(y.le(&x));
    assert!(!x.le(&y));

    assert_eq!(y.increment(b), Ok(()));
    assert_eq!(y.get(&b), 2);
    assert_eq!(x.relation(&y), Relation::Concurrent);

    // An entry is overwritten only by a higher version.
    y.insert(b, 1);
    assert_eq!(y.get(&b), 2);
    y.insert(b, 5);
    assert_eq!(y.get(&b), 5);
    assert!(y.same(&y.duplicate()));
}

#[test]
fn signable_bytes_of_proof() {
    let writer = key(1);
    let mut vv = VersionVector::new();
    vv.insert(key(2), 0x0102);
    let root = hash::Hash { hi: 3, lo: 4 };
    let bytes = signable_bytes(&writer, &vv, &root);

    let mut expected = writer.to_bytes();
    expected.extend(key(2).to_bytes());
    expected.extend_from_slice(&0x0102u64.to_le_bytes());
    expected.extend(root.to_bytes());
    assert_eq!(bytes, expected);

    let proof = Proof::new(writer, vv, root, Vec::new());
    assert_eq!(proof.signable_bytes(), expected);
}

#[test]
fn locator_sequence() {
    let blob = BlobId { id: hash::Hash { hi: 7, lo: 8 } };
    let head = Locator::head(blob);
    assert_eq!(head.number(), 0);
    assert_eq!(head.blob_id(), &blob);
    assert_eq!(head.next().number(), 1);
    assert_eq!(head.nth(5).number(), 5);
    assert_eq!(head.nth(5).nth(2), head.nth(7));
    assert_eq!(*head.nth(5).blob_id(), blob);
    assert_eq!(Locator::root(), Locator::head(BlobId::root()));

    let sequence = head.nth(3).sequence(4);
    assert_eq!(sequence, vec![head.nth(3), head.nth(4), head.nth(5), head.nth(6)]);

    // The sequence ends at the last block number.
    let last = head.nth(u32::MAX - 1);
    assert_eq!(last.sequence(5), vec![last, head.nth(u32::MAX)]);
    assert_eq!(last.checked_nth(1), Some(head.nth(u32::MAX)));
    assert_eq!(last.checked_nth(2), None);
}

#[test]
fn locator_encoding() {
    let blob = BlobId { id: hash::Hash { hi: 7, lo: 8 } };
    let locator = Locator::head(blob).nth(0x01020304);
    let secret_key = [9u8; 32];

    let mut input = secret_key.to_vec();
    input.extend(blob.id.to_bytes());
    input.extend_from_slice(&[4, 3, 2, 1]);
    assert_eq!(locator.encode(&secret_key), hash::Hash::digest(&input));

    assert_ne!(locator.encode(&secret_key), locator.encode(&[8u8; 32]));
    assert_ne!(locator.encode(&secret_key), locator.next().encode(&secret_key));
}

#[test]
fn named_locator() {
    let name = ouisync::locator::BlockName { name: hash::Hash { hi: 1, lo: 2 } };
    assert_eq!(ouisync::locator::Locator::Root.head_name(), None);
    assert_eq!(ouisync::locator::Locator::Head(name, 3).head_name(), None);
    assert_eq!(ouisync::locator::Locator::Trunk(name, 3).head_name(), Some(&name));
    assert_eq!(ouisync::locator::Locator::Root.number(), 0);
    assert_eq!(ouisync::locator::Locator::Head(name, 3).number(), 0);
    assert_eq!(ouisync::locator::Locator::Trunk(name, 3).number(), 3);

    assert_eq!(ouisync::locator::Locator::Root.encode(&ouisync::locator::Cryptor::Null), None);

    let mut input = name.name.to_bytes();
    input.extend_from_slice(&3u32.to_le_bytes());
    input.push(1);
    assert_eq!(ouisync::locator::Locator::Trunk(name, 3).encode(&ouisync::locator::Cryptor::Null), Some(hash::Hash::digest(&input)));

    let key = hash::Hash { hi: 5, lo: 6 };
    let mut keyed = hash::Hash::digest_bytes(&key.to_bytes()).to_vec();
    keyed.extend(name.name.to_bytes());
    keyed.extend_from_slice(&3u32.to_le_bytes());
    keyed.push(0);
    assert_eq!(
        ouisync::locator::Locator::Head(name, 3).encode(&ouisync::locator::Cryptor::ChaCha20Poly1305(key)),
        Some(hash::Hash::digest(&keyed))
    );
}

#[test]
fn cursor_reads_and_writes() {
    let mut cursor = Cursor::new(Buffer::new());
    assert_eq!(cursor.buffer.len(), BLOCK_SIZE);
    assert_eq!(cursor.write(&[1, 2, 3, 4]), 4);
    cursor.write_u64(0x0807060504030201);
    assert_eq!(cursor.pos, 12);

    cursor.pos = 0;
    let mut dst = vec![0u8; 3];
    assert_eq!(cursor.read(&mut dst), 3);
    assert_eq!(dst, vec![1, 2, 3]);
    let array: [u8; 1] = cursor.read_array();
    assert_eq!(array, [4]);
    assert_eq!(cursor.read_u64(), 0x0807060504030201);
    assert_eq!(cursor.pos, 12);
    assert_eq!(&cursor.buffer.bytes[4..12], &[1, 2, 3, 4, 5, 6, 7, 8]);

    // At the end, only what fits is read or written.
    cursor.pos = BLOCK_SIZE - 2;
    assert_eq!(cursor.write(&[9, 9, 9, 9]), 2);
    assert_eq!(cursor.pos, BLOCK_SIZE);
    assert_eq!(cursor.write(&[9]), 0);
    let mut dst = vec![7u8; 4];
    assert_eq!(cursor.read(&mut dst), 0);
    assert_eq!(dst, vec![7u8; 4]);
    cursor.pos = BLOCK_SIZE - 2;
    assert_eq!(cursor.read(&mut dst), 2);
    assert_eq!(dst, vec![9, 9, 7, 7]);

    cursor.buffer.scramble();
    assert!(cursor.buffer.bytes.iter().all(|byte| *byte == 0));
    assert_eq!(cursor.buffer.len(), BLOCK_SIZE);
}

#[test]
fn joint_entry_len() {
    let file = JointEntry::File(File { len: 12 });
    assert_eq!(file.entry_type(), EntryType::File);
    assert_eq!(file.len(), 12);
    assert_eq!(file.as_file().map(|f| f.len), Ok(12));
    assert!(matches!(file.as_directories(), Err(Error::EntryIsDirectory)));

    let mut versions = Table::new();
    versions.insert(key(1).key, Directory { len: 10 });
    versions.insert(key(2).key, Directory { len: 32 });
    let dir = JointEntry::Directory(versions);
    assert_eq!(dir.entry_type(), EntryType::Directory);
    assert_eq!(dir.len(), 42);
    assert_eq!(dir.checked_len(), Some(42));
    assert!(matches!(dir.as_file(), Err(Error::EntryNotDirectory)));
    assert_eq!(dir.as_directories().map(|d| d.len()).ok(), Some(2));

    let mut huge = Table::new();
    huge.insert(key(1).key, Directory { len: u64::MAX });
    huge.insert(key(2).key, Directory { len: 1 });
    assert_eq!(JointEntry::Directory(huge).checked_len(), None);

    assert_eq!(entry_type_to_num(EntryType::File), ENTRY_TYPE_FILE);
    assert_eq!(entry_type_to_num(EntryType::Directory), ENTRY_TYPE_DIRECTORY);
    assert_eq!(entry_type_to_num(EntryType::File), 1);
    assert_eq!(entry_type_to_num(EntryType::Directory), 2);
}

#[test]
fn counter_counts() {
    let mut counter = AtomicCounter::new();
    assert_eq!(counter.increment(), 1);
    assert_eq!(counter.increment(), 2);
    counter.reset();
    assert_eq!(counter.increment(), 1);
    counter.value = u32::MAX;
    assert_eq!(counter.checked_increment(), None);
    assert_eq!(counter.value, u32::MAX);
    assert_eq!(BranchShared::new().uncommitted_block_counter.value, 0);

    let sender = BranchEventSender::new(key(1));
    assert_eq!(sender.send(), Payload::SnapshotApproved(key(1)));
    let id = BlockId::from_content(&[1]);
    assert_eq!(
        block_received_events(id, &vec![key(1), key(2)]),
        vec![
            Payload::BlockReceived { block_id: id, branch_id: key(1) },
            Payload::BlockReceived { block_id: id, branch_id: key(2) },
        ]
    );
}

#[test]
fn server_cookies() {
    let mut server = Server::new();
    assert_eq!(server, Server { cookie: 1, waiting: false });

    // A client that is behind is served at once.
    assert_eq!(server.handle_root_node(0, true), RootNodeReply::Send { cookie: 1 });
    assert!(!server.waiting);

    // A client that is up to date waits for a change.
    assert_eq!(server.handle_root_node(1, true), RootNodeReply::Wait);
    assert!(server.waiting);
    assert_eq!(server.handle_local_change(true), RootNodeReply::Send { cookie: 2 });
    assert!(!server.waiting);

    // A change that nobody waits for is only counted.
    assert_eq!(server.handle_local_change(true), RootNodeReply::Wait);
    assert_eq!(server.cookie, 3);

    // Without a root node there is nothing to send.
    assert_eq!(server.handle_root_node(0, false), RootNodeReply::Wait);
    assert!(server.waiting);

    // The cookie wraps around, and zero serves everybody.
    let mut old = Server { cookie: u64::MAX, waiting: false };
    assert_eq!(old.handle_local_change(true), RootNodeReply::Wait);
    assert_eq!(old.cookie, 0);
    assert_eq!(old.handle_root_node(5, true), RootNodeReply::Send { cookie: 0 });
}

#[test]
fn choked_peer_gets_one_notification() {
    let mut peer = Choked::new();
    assert!(peer.on_local_change());
    peer.choke();
    assert!(!peer.on_local_change());
    assert!(!peer.on_local_change());
    assert!(peer.unchoke());
    assert!(!peer.unchoke());
    assert!(peer.on_local_change());
}

#[test]
fn message_kinds() {
    let id = RepositoryId { key: key(1) };
    let request = Request::RootNode(key(2), DebugRequest::start());
    assert_eq!(Message::Request { dst_id: id, request }.into_request(), Some(request));
    assert!(Message::Request { dst_id: id, request }.into_response().is_none());
    assert_eq!(
        Message::CreateLink { src_id: id, dst_name: "repo".to_string() }.into_request(),
        None
    );
    assert_eq!(Message::CreateLink { src_id: id, dst_name: "repo".to_string() }.dst_id(), None);
    assert_eq!(Message::Request { dst_id: id, request }.dst_id(), Some(id));
    assert_eq!(DebugRequest::start().reply(), DebugResponse::unsolicited());
    assert_eq!(DebugResponse::unsolicited().follow_up(), DebugRequest::start());
}

#[test]
fn access_secrets() {
    let id = RepositoryId { key: key(1) };
    let other = RepositoryId { key: key(2) };
    let read_key = SecretKey { key: hash::Hash { hi: 1, lo: 1 } };
    let write_key = SigningKey { key: hash::Hash { hi: 2, lo: 2 } };
    let dummy_read = SecretKey { key: hash::Hash { hi: 3, lo: 3 } };
    let dummy_write = SigningKey { key: hash::Hash { hi: 4, lo: 4 } };

    let mut salted = id.key.to_bytes();
    salted.extend_from_slice(b"read_key_validator");
    assert_eq!(read_key_validator(&id), hash::Hash::digest(&salted));

    let blind = set_access_secrets(&AccessSecrets::Blind { id }, dummy_read, dummy_write);
    assert_eq!(blind.read_key, dummy_read);
    assert_eq!(blind.write_key, dummy_write);
    assert_eq!(blind.read_key_validator, read_key_validator(&id));

    let read = set_access_secrets(&AccessSecrets::Read { id, read_key }, dummy_read, dummy_write);
    assert_eq!(read.read_key, read_key);
    assert_eq!(read.write_key, dummy_write);

    let write = set_access_secrets(
        &AccessSecrets::Write { id, read_key, write_key },
        dummy_read,
        dummy_write,
    );
    assert_eq!(write.read_key, read_key);
    assert_eq!(write.write_key, write_key);

    // What is read back: with the right keys the access that was stored...
    let validator = read_key_validator(&id);
    assert_eq!(
        get_access_secrets(id, read_key, &validator, write_key, &id),
        AccessSecrets::Write { id, read_key, write_key }
    );
    assert_eq!(
        get_access_secrets(id, read_key, &validator, dummy_write, &other),
        AccessSecrets::Read { id, read_key }
    );
    // ...and with keys that decrypt to nothing of use, blind access.
    let garbage = hash::Hash { hi: 9, lo: 9 };
    assert_eq!(
        get_access_secrets(id, dummy_read, &garbage, dummy_write, &other),
        AccessSecrets::Blind { id }
    );
    assert_eq!(AccessSecrets::Blind { id }.access_mode(), AccessMode::Blind);
    assert_eq!(AccessSecrets::Read { id, read_key }.access_mode(), AccessMode::Read);
    assert_eq!(AccessSecrets::Write { id, read_key, write_key }.access_mode(), AccessMode::Write);
    assert_eq!(AccessSecrets::Read { id, read_key }.read_key(), Some(read_key));
    assert_eq!(AccessSecrets::Blind { id }.read_key(), None);
    assert_eq!(AccessSecrets::Blind { id }.id(), &id);
}

#[test]
fn stored_presence_is_read_back() {
    for presence in [
        MultiBlockPresence::Absent,
        MultiBlockPresence::Full,
        MultiBlockPresence::Partial(1),
        MultiBlockPresence::Partial(0x0102_0304_0506_0708_090a_0b0c_0d0e_0f10),
    ] {
        assert_eq!(MultiBlockPresence::decode(&presence.checksum()), Ok(presence));
    }
    assert_eq!(MultiBlockPresence::decode(&[0u8; 16]), Ok(MultiBlockPresence::Absent));
    assert_eq!(MultiBlockPresence::decode(&[0xffu8; 16]), Ok(MultiBlockPresence::Full));
    let mut bytes = [0u8; 16];
    bytes[0] = 0x10;
    bytes[15] = 0x01;
    assert_eq!(
        MultiBlockPresence::decode(&bytes),
        Ok(MultiBlockPresence::Partial(0x0100_0000_0000_0000_0000_0000_0000_0010))
    );
    // Only sixteen bytes stand for a presence.
    assert_eq!(MultiBlockPresence::decode(&[0u8; 15]), Err(Error::MalformedData));
    assert_eq!(MultiBlockPresence::decode(&[0u8; 17]), Err(Error::MalformedData));
    assert_eq!(MultiBlockPresence::decode(&[]), Err(Error::MalformedData));
}
