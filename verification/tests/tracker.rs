use ouisync::block::tracker::{BlockTracker, BlockTrackerClient};
use ouisync::protocol::block::{BlockId, BLOCK_SIZE};

fn make_block(seed: u8) -> BlockId {
    let mut content = vec![0u8; BLOCK_SIZE];
    for (i, byte) in content.iter_mut().enumerate() {
        *byte = seed.wrapping_add((i % 251) as u8);
    }
    BlockId::from_content(&content)
}

#[test]
fn simple() {
    let mut tracker = BlockTracker::new();

    let client = tracker.client();

    // Initially no blocks are returned
    assert_eq!(client.try_accept(&mut tracker), None);

    // Offered but not required blocks are not returned
    let block0 = make_block(0);
    client.offer(&mut tracker, block0);
    assert_eq!(client.try_accept(&mut tracker), None);

    // Required but not offered blocks are not returned
    let block1 = make_block(1);
    tracker.begin_require(block1).commit(&mut tracker);
    assert_eq!(client.try_accept(&mut tracker), None);

    // Required + offered blocks are returned...
    tracker.begin_require(block0).commit(&mut tracker);
    assert_eq!(client.try_accept(&mut tracker), Some(block0));

    // ...but only once.
    assert_eq!(client.try_accept(&mut tracker), None);
}

#[test]
fn fallback_on_cancel_before_accept() {
    let mut tracker = BlockTracker::new();

    let client0 = tracker.client();
    let client1 = tracker.client();

    let block = make_block(0);

    tracker.begin_require(block).commit(&mut tracker);
    client0.offer(&mut tracker, block);
    client1.offer(&mut tracker, block);

    client0.cancel(&mut tracker, &block);

    assert_eq!(client0.try_accept(&mut tracker), None);
    assert_eq!(client1.try_accept(&mut tracker), Some(block));

    tracker.complete(&block);

    assert!(tracker.is_empty());
}

#[test]
fn fallback_on_cancel_before_accept_() {
    let mut tracker = BlockTracker::new();

    let client0 = tracker.client();
    let client1 = tracker.client();

    let block = make_block(0);

    tracker.begin_require(block).commit(&mut tracker);
    client0.offer(&mut tracker, block);
    client1.offer(&mut tracker, block);

    client0.cancel(&mut tracker, &block);

    assert_eq!(client0.try_accept(&mut tracker), None);

    let accepted_block = client1.try_accept_(&mut tracker).unwrap();
    assert_eq!(accepted_block.block_id(), &block);

    accepted_block.complete(&mut tracker);

    assert!(tracker.is_empty());
}

#[test]
fn fallback_on_cancel_after_accept() {
    let mut tracker = BlockTracker::new();

    let client0 = tracker.client();
    let client1 = tracker.client();

    let block = make_block(0);

    tracker.begin_require(block).commit(&mut tracker);
    client0.offer(&mut tracker, block);
    client1.offer(&mut tracker, block);

    assert_eq!(client0.try_accept(&mut tracker), Some(block));
    assert_eq!(client1.try_accept(&mut tracker), None);

    client0.cancel(&mut tracker, &block);

    assert_eq!(client0.try_accept(&mut tracker), None);
    assert_eq!(client1.try_accept(&mut tracker), Some(block));
}

#[test]
fn fallback_on_client_drop_after_require_before_accept() {
    let mut tracker = BlockTracker::new();

    let client0 = tracker.client();
    let client1 = tracker.client();

    let block = make_block(0);

    client0.offer(&mut tracker, block);
    client1.offer(&mut tracker, block);

    tracker.begin_require(block).commit(&mut tracker);

    client0.release(&mut tracker);

    assert_eq!(client1.try_accept(&mut tracker), Some(block));
}

#[test]
fn fallback_on_client_drop_after_require_after_accept() {
    let mut tracker = BlockTracker::new();

    let client0 = tracker.client();
    let client1 = tracker.client();

    let block = make_block(0);

    client0.offer(&mut tracker, block);
    client1.offer(&mut tracker, block);

    tracker.begin_require(block).commit(&mut tracker);

    assert_eq!(client0.try_accept(&mut tracker), Some(block));
    assert_eq!(client1.try_accept(&mut tracker), None);

    client0.release(&mut tracker);

    assert_eq!(client1.try_accept(&mut tracker), Some(block));
}

#[test]
fn fallback_on_client_drop_before_request() {
    let mut tracker = BlockTracker::new();

    let client0 = tracker.client();
    let client1 = tracker.client();

    let block = make_block(0);

    client0.offer(&mut tracker, block);
    client1.offer(&mut tracker, block);

    client0.release(&mut tracker);

    tracker.begin_require(block).commit(&mut tracker);

    assert_eq!(client1.try_accept(&mut tracker), Some(block));
}

#[test]
fn concurrent_require_and_complete() {
    let mut tracker = BlockTracker::new();
    let client = tracker.client();

    let block = make_block(0);
    client.offer(&mut tracker, block);

    let require = tracker.begin_require(block);
    tracker.complete(&block);
    require.commit(&mut tracker);

    assert!(!tracker.contains(&block));
}

#[test]
fn concurrent_require_and_drop() {
    let mut tracker = BlockTracker::new();
    let client = tracker.client();

    let block = make_block(0);
    client.offer(&mut tracker, block);

    let require1 = tracker.begin_require(block);
    let require2 = tracker.begin_require(block);
    require1.abandon(&mut tracker);
    require2.commit(&mut tracker);

    assert_eq!(client.try_accept(&mut tracker), Some(block));
}

#[test]
fn race() {
    let num_clients = 10;

    let mut tracker = BlockTracker::new();
    let clients: Vec<BlockTrackerClient> = (0..num_clients).map(|_| tracker.client()).collect();

    let block = make_block(0);

    tracker.begin_require(block).commit(&mut tracker);

    for client in &clients {
        client.offer(&mut tracker, block);
    }

    // All clients stay alive until the end, so that nothing that was
    // accepted is released before all have asked.
    let results: Vec<Option<BlockId>> =
        clients.iter().map(|client| client.try_accept(&mut tracker)).collect();

    // Exactly one client gets the block id
    let mut block_ids = results.into_iter().flatten();
    assert_eq!(block_ids.next(), Some(block));
    assert_eq!(block_ids.next(), None);
}

#[test]
fn stress() {
    for num_blocks in [1usize, 2, 7, 33, 99] {
        let mut tracker = BlockTracker::new();
        let client = tracker.client();

        let block_ids: Vec<BlockId> = (0..num_blocks).map(|i| make_block(i as u8)).collect();

        // Requires and offers, interleaved in an order that moves with the number of blocks.
        let mut ops: Vec<(bool, BlockId)> = Vec::new();
        for (i, id) in block_ids.iter().enumerate() {
            if (i + num_blocks) % 3 == 0 {
                ops.push((true, *id));
                ops.insert(0, (false, *id));
            } else {
                ops.insert(i / 2, (true, *id));
                ops.push((false, *id));
            }
        }

        for (require, block_id) in ops {
            if require {
                tracker.begin_require(block_id).commit(&mut tracker);
            } else {
                client.offer(&mut tracker, block_id);
            }
        }

        let mut accepted: Vec<BlockId> = Vec::new();
        while let Some(block_id) = client.try_accept(&mut tracker) {
            assert!(!accepted.contains(&block_id));
            accepted.push(block_id);
        }

        assert_eq!(accepted.len(), block_ids.len());
        for block_id in &block_ids {
            assert!(accepted.contains(block_id));
        }
    }
}

#[test]
fn offer_is_first_only_once() {
    let mut tracker = BlockTracker::new();
    let client = tracker.client();
    let block = make_block(3);

    assert!(client.offer(&mut tracker, block));
    assert!(!client.offer(&mut tracker, block));

    // After the offer was cancelled the block can be offered anew.
    client.cancel(&mut tracker, &block);
    assert!(client.offer(&mut tracker, block));
}

#[test]
fn accept_follows_the_order_of_offers() {
    let mut tracker = BlockTracker::new();
    let client = tracker.client();
    let blocks: Vec<BlockId> = (0..5).map(make_block).collect();

    for block in blocks.iter().rev() {
        client.offer(&mut tracker, *block);
    }
    for block in &blocks {
        tracker.begin_require(*block).commit(&mut tracker);
    }

    for block in blocks.iter().rev() {
        assert_eq!(client.try_accept(&mut tracker), Some(*block));
    }
    assert_eq!(client.try_accept(&mut tracker), None);
}

#[test]
fn abandoned_requirement_leaves_no_entry() {
    let mut tracker = BlockTracker::new();
    let block = make_block(9);

    let require = tracker.begin_require(block);
    assert!(tracker.contains(&block));
    require.abandon(&mut tracker);
    assert!(!tracker.contains(&block));
    assert!(tracker.is_empty());
}

#[test]
fn abandoned_requirement_keeps_offered_block() {
    let mut tracker = BlockTracker::new();
    let client = tracker.client();
    let block = make_block(9);

    client.offer(&mut tracker, block);
    tracker.begin_require(block).abandon(&mut tracker);

    // The offer stands, so the entry stays and the block can still be required.
    assert!(tracker.contains(&block));
    assert!(!client.offer(&mut tracker, block));
    tracker.begin_require(block).commit(&mut tracker);
    assert_eq!(client.try_accept(&mut tracker), Some(block));
}

#[test]
fn require_then_complete_leaves_no_entry() {
    let mut tracker = BlockTracker::new();
    let block = make_block(4);

    tracker.begin_require(block).commit(&mut tracker);
    tracker.complete(&block);

    assert!(!tracker.contains(&block));
    assert!(tracker.is_empty());
}

#[test]
fn complete_clears_the_offers_of_every_client() {
    let mut tracker = BlockTracker::new();
    let client0 = tracker.client();
    let client1 = tracker.client();
    let block = make_block(5);

    client0.offer(&mut tracker, block);
    client1.offer(&mut tracker, block);
    tracker.begin_require(block).commit(&mut tracker);
    tracker.complete(&block);

    // Both can offer the block as for the first time.
    assert!(client0.offer(&mut tracker, block));
    assert!(client1.offer(&mut tracker, block));
}

#[test]
fn commit_notifies_only_when_block_becomes_required() {
    let mut tracker = BlockTracker::new();
    let block = make_block(6);

    assert!(tracker.begin_require(block).commit(&mut tracker));
    assert!(!tracker.begin_require(block).commit(&mut tracker));
}

#[test]
fn cancel_notifies_only_if_accepted() {
    let mut tracker = BlockTracker::new();
    let client0 = tracker.client();
    let client1 = tracker.client();
    let block = make_block(7);

    tracker.begin_require(block).commit(&mut tracker);
    client0.offer(&mut tracker, block);
    client1.offer(&mut tracker, block);

    assert_eq!(client0.try_accept(&mut tracker), Some(block));
    assert!(!client1.cancel(&mut tracker, &block));
    assert!(client0.cancel(&mut tracker, &block));
    // A second cancel finds no offer.
    assert!(!client0.cancel(&mut tracker, &block));
}

#[test]
fn released_client_offers_nothing() {
    let mut tracker = BlockTracker::new();
    let client = tracker.client();
    let block = make_block(8);
    let id = client.client_id;

    client.release(&mut tracker);

    let ghost = BlockTrackerClient { client_id: id };
    assert!(!ghost.offer(&mut tracker, block));
    assert_eq!(ghost.try_accept(&mut tracker), None);
    assert!(!tracker.contains(&block));
}
