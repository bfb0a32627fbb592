use nimiq_consensus::block::{Block, BlockType, Validity};
use nimiq_consensus::chain::NanoBlockchain;
use nimiq_consensus::queue::{
    BlockQueue, BlockQueueConfig, BlockQueueEvent, BlockTopic, MsgAcceptance, QueueAction,
    QueueInput,
};
use nimiq_consensus::tendermint::{Step, Tendermint};

fn main_hash(n: u32) -> u64 {
    1000 + n as u64
}

fn main_block(n: u32) -> Block {
    let parent = if n == 0 { 0 } else { main_hash(n - 1) };
    Block::new(main_hash(n), parent, n, 0)
}

fn queue_at(height: u32, config: BlockQueueConfig) -> BlockQueue {
    let mut chain = NanoBlockchain::new(main_block(0).with_type(BlockType::Macro));
    for n in 1..=height {
        chain.push(main_block(n)).unwrap();
    }
    chain.take_events();
    BlockQueue::new(config, chain)
}

fn synced_queue_at(height: u32) -> BlockQueue {
    let mut queue = queue_at(height, BlockQueueConfig::default());
    assert_eq!(
        queue.handle(QueueInput::PeerMacroSynced(7)),
        Some(BlockQueueEvent::PeerMacroSynced(7))
    );
    queue
}

fn announce(queue: &mut BlockQueue, block: Block, pubsub_id: u64) -> Option<BlockQueueEvent> {
    queue.handle(QueueInput::Announced { block, pubsub_id, peer_id: 7 })
}

fn buffered_hashes(queue: &BlockQueue) -> Vec<(u32, Vec<u64>)> {
    queue
        .buffered_blocks()
        .into_iter()
        .map(|(h, bs)| (h, bs.into_iter().map(|b| b.hash).collect()))
        .collect()
}

#[test]
fn gap_is_filled_from_missing_blocks_response() {
    let mut queue = synced_queue_at(100);
    assert_eq!(queue.blockchain().block_number(), 100);
    let b101 = main_block(101);
    let b102 = main_block(102);

    assert_eq!(announce(&mut queue, b102, 1), Some(BlockQueueEvent::ReceivedBlocks));
    assert_eq!(buffered_hashes(&queue), vec![(102, vec![main_hash(102)])]);
    assert_eq!(queue.blockchain().block_number(), 100);
    let actions = queue.take_actions();
    assert_eq!(actions.len(), 1);
    match &actions[0] {
        QueueAction::RequestMissingBlocks { target_hash, locators } => {
            assert_eq!(*target_hash, main_hash(102));
            let expected: Vec<u64> = (96..=100).rev().map(main_hash).collect();
            assert_eq!(locators, &expected);
        }
        other => panic!("unexpected action {:?}", other),
    }

    let event = queue.handle(QueueInput::MissingBlocks(vec![b101, b102]));
    assert_eq!(event, Some(BlockQueueEvent::ReceivedBlocks));
    assert_eq!(queue.blockchain().block_number(), 102);
    assert_eq!(queue.blockchain().head_hash(), main_hash(102));
    assert_eq!(queue.buffered_blocks().len(), 0);
    assert_eq!(queue.take_actions().len(), 0);
}

#[test]
fn announcements_wait_for_a_synced_peer() {
    let mut queue = queue_at(10, BlockQueueConfig::default());
    assert_eq!(queue.num_peers(), 0);
    assert_eq!(announce(&mut queue, main_block(11), 1), None);
    assert_eq!(queue.blockchain().block_number(), 10);
    assert_eq!(queue.take_actions().len(), 0);
    assert_eq!(queue.accepted_block_announcements(), 0);
}

#[test]
fn next_block_is_pushed_and_counted() {
    let mut queue = synced_queue_at(10);
    assert_eq!(announce(&mut queue, main_block(11), 42), Some(BlockQueueEvent::ReceivedBlocks));
    assert_eq!(queue.blockchain().block_number(), 11);
    assert_eq!(queue.accepted_block_announcements(), 1);
    let actions = queue.take_actions();
    assert_eq!(actions.len(), 1);
    assert!(matches!(
        actions[0],
        QueueAction::ValidateMessage { pubsub_id: 42, acceptance: MsgAcceptance::Accept }
    ));
    // The same block again is known: relayed, but not counted.
    announce(&mut queue, main_block(11), 43);
    assert_eq!(queue.accepted_block_announcements(), 1);
    let actions = queue.take_actions();
    assert!(matches!(
        actions[0],
        QueueAction::ValidateMessage { pubsub_id: 43, acceptance: MsgAcceptance::Accept }
    ));
}

#[test]
fn invalid_announcement_is_rejected() {
    let mut queue = synced_queue_at(10);
    let bad = main_block(11).with_validity(Validity::BadJustification);
    announce(&mut queue, bad, 5);
    assert_eq!(queue.blockchain().block_number(), 10);
    let actions = queue.take_actions();
    assert!(matches!(
        actions[0],
        QueueAction::ValidateMessage { pubsub_id: 5, acceptance: MsgAcceptance::Reject }
    ));
}

#[test]
fn inferior_fork_announcement_is_ignored() {
    let mut queue = synced_queue_at(10);
    let fork = Block::new(9010, main_hash(9), 10, 0);
    announce(&mut queue, fork, 6);
    assert_eq!(queue.blockchain().head_hash(), main_hash(10));
    let actions = queue.take_actions();
    assert!(matches!(
        actions[0],
        QueueAction::ValidateMessage { pubsub_id: 6, acceptance: MsgAcceptance::Ignore }
    ));
}

#[test]
fn block_beyond_window_only_resyncs_peer() {
    let mut queue = synced_queue_at(100);
    let far = Block::new(5000, 4999, 165, 0);
    queue.push_block(far, 9);
    assert_eq!(queue.blockchain().block_number(), 100);
    assert_eq!(queue.buffered_blocks().len(), 0);
    let actions = queue.take_actions();
    assert_eq!(actions.len(), 1);
    assert!(matches!(actions[0], QueueAction::PutPeerIntoSyncMode(9)));
    // At the edge of the window the block is still buffered.
    queue.push_block(Block::new(5001, 4999, 164, 0), 9);
    assert_eq!(queue.buffered_blocks().len(), 1);
}

#[test]
fn full_buffer_drops_new_blocks() {
    let config = BlockQueueConfig { buffer_max: 1, window_max: 64 };
    let mut queue = queue_at(10, config);
    queue.push_block(main_block(13), 1);
    queue.push_block(main_block(12), 1);
    assert_eq!(buffered_hashes(&queue), vec![(13, vec![main_hash(13)])]);
    assert_eq!(queue.take_actions().len(), 1);
}

#[test]
fn response_with_invalid_block_poisons_its_descendants() {
    let mut queue = synced_queue_at(100);
    queue.push_block(main_block(103), 7);
    queue.push_block(main_block(104), 7);
    assert_eq!(queue.buffered_blocks().len(), 2);
    let b101 = main_block(101);
    let b102 = main_block(102).with_validity(Validity::BadHeader);
    let b103 = main_block(103);
    queue.on_missing_blocks_received(vec![b101, b102, b103]);
    assert_eq!(queue.blockchain().block_number(), 101);
    assert_eq!(queue.buffered_blocks().len(), 0);
    assert_eq!(queue.blockchain().get_chain_info(main_hash(102)), None);
    assert_eq!(queue.blockchain().get_chain_info(main_hash(103)), None);
    assert_eq!(queue.blockchain().get_chain_info(main_hash(104)), None);
}

#[test]
fn drain_stops_at_first_gap() {
    let mut queue = synced_queue_at(100);
    queue.push_block(main_block(102), 7);
    queue.push_block(main_block(103), 7);
    queue.push_block(main_block(105), 7);
    queue.on_missing_blocks_received(vec![main_block(101)]);
    assert_eq!(queue.blockchain().block_number(), 103);
    assert_eq!(buffered_hashes(&queue), vec![(105, vec![main_hash(105)])]);
}

#[test]
fn announced_next_block_drains_buffer() {
    let mut queue = synced_queue_at(20);
    queue.push_block(main_block(22), 7);
    queue.push_block(main_block(23), 7);
    assert_eq!(announce(&mut queue, main_block(21), 3), Some(BlockQueueEvent::ReceivedBlocks));
    assert_eq!(queue.blockchain().block_number(), 23);
    assert_eq!(queue.buffered_blocks().len(), 0);
    assert_eq!(queue.accepted_block_announcements(), 1);
}

#[test]
fn peers_are_tracked_once_and_forgotten() {
    let mut queue = queue_at(1, BlockQueueConfig::default());
    queue.handle(QueueInput::PeerMacroSynced(4));
    queue.handle(QueueInput::PeerMacroSynced(5));
    queue.handle(QueueInput::PeerMacroSynced(4));
    assert_eq!(queue.num_peers(), 2);
    assert_eq!(queue.peers(), vec![4, 5]);
    assert_eq!(queue.handle(QueueInput::PeerLeft(4)), Some(BlockQueueEvent::PeerLeft(4)));
    assert_eq!(queue.peers(), vec![5]);
    queue.handle(QueueInput::PeerLeft(9));
    assert_eq!(queue.num_peers(), 1);
}

#[test]
fn default_config_spans_batches() {
    let config = BlockQueueConfig::default();
    assert_eq!(config.buffer_max, 128);
    assert_eq!(config.window_max, 64);
}

#[test]
fn block_topic_is_named_blocks() {
    let topic = BlockTopic::default();
    assert_eq!(topic.topic(), "blocks");
    assert!(topic.validate());
}

#[test]
fn tendermint_starts_in_initial_state() {
    let machine: Tendermint<u64, &str> = Tendermint::new("deps");
    assert_eq!(machine.deps, "deps");
    assert_eq!(machine.state.round, 0);
    assert_eq!(machine.state.step, Step::Propose);
    assert!(machine.state.locked_value.is_none());
    assert!(machine.state.valid_round.is_none());
}

#[test]
fn response_starting_with_inferior_block_is_discarded() {
    let mut queue = synced_queue_at(50);
    // A buffered block whose parent comes in the response after the inferior one.
    let orphan_child = Block::new(8002, 8001, 52, 0);
    queue.push_block(orphan_child, 7);
    let inferior = Block::new(8000, main_hash(49), 50, 0);
    let next = Block::new(8001, 8000, 51, 0);
    let event = queue.handle(QueueInput::MissingBlocks(vec![inferior, next]));
    assert_eq!(event, Some(BlockQueueEvent::ReceivedBlocks));
    assert_eq!(queue.blockchain().head_hash(), main_hash(50));
    assert_eq!(queue.blockchain().get_chain_info(8000), None);
    assert_eq!(queue.blockchain().get_chain_info(8001), None);
    assert_eq!(queue.buffered_blocks().len(), 0);
}

#[test]
fn better_sibling_announcement_rebranches() {
    let mut queue = synced_queue_at(30);
    let fork = Block::new(9030, main_hash(29), 30, 4);
    assert_eq!(announce(&mut queue, fork, 11), Some(BlockQueueEvent::ReceivedBlocks));
    assert_eq!(queue.blockchain().head_hash(), 9030);
    assert_eq!(queue.accepted_block_announcements(), 0);
    let actions = queue.take_actions();
    assert!(matches!(
        actions[0],
        QueueAction::ValidateMessage { pubsub_id: 11, acceptance: MsgAcceptance::Accept }
    ));
}

#[test]
fn known_response_changes_nothing() {
    let mut queue = synced_queue_at(12);
    queue.on_missing_blocks_received(vec![main_block(11), main_block(12)]);
    assert_eq!(queue.blockchain().block_number(), 12);
    assert_eq!(queue.buffered_blocks().len(), 0);
    queue.on_missing_blocks_received(Vec::new());
    assert_eq!(queue.blockchain().block_number(), 12);
}
