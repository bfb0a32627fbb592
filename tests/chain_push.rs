use nimiq_consensus::block::{Block, BlockType, Validity};
use nimiq_consensus::chain::{BlockchainEvent, NanoBlockchain, PushError, PushResult};

fn main_hash(n: u32) -> u64 {
    1000 + n as u64
}

fn main_block(n: u32) -> Block {
    let parent = if n == 0 { 0 } else { main_hash(n - 1) };
    Block::new(main_hash(n), parent, n, 0)
}

fn chain_to(height: u32) -> NanoBlockchain {
    let mut chain = NanoBlockchain::new(main_block(0).with_type(BlockType::Macro));
    for n in 1..=height {
        assert_eq!(chain.push(main_block(n)), Ok(PushResult::Extended));
    }
    chain
}

#[test]
fn push_extends_main_chain() {
    let mut chain = chain_to(0);
    assert_eq!(chain.push(main_block(1)), Ok(PushResult::Extended));
    assert_eq!(chain.head_hash(), main_hash(1));
    assert_eq!(chain.block_number(), 1);
    let genesis = chain.get_chain_info(main_hash(0)).unwrap();
    assert_eq!(genesis.main_chain_successor, Some(main_hash(1)));
    let info = chain.get_chain_info(main_hash(1)).unwrap();
    assert!(info.on_main_chain);
    assert_eq!(info.main_chain_successor, None);
    let events = chain.take_events();
    assert_eq!(events.len(), 1);
    assert!(matches!(events[0], BlockchainEvent::Extended(h) if h == main_hash(1)));
    assert_eq!(chain.take_events().len(), 0);
}

#[test]
fn push_twice_is_known_and_changes_nothing() {
    let mut chain = chain_to(3);
    let b = main_block(4);
    assert_eq!(chain.push(b), Ok(PushResult::Extended));
    let events_before = chain.take_events().len();
    assert_eq!(events_before, 4);
    assert_eq!(chain.push(b), Ok(PushResult::Known));
    assert_eq!(chain.head_hash(), main_hash(4));
    assert_eq!(chain.take_events().len(), 0);
    assert_eq!(chain.get_chain_info(main_hash(4)).unwrap().main_chain_successor, None);
}

#[test]
fn push_orphan_is_refused() {
    let mut chain = chain_to(2);
    let orphan = Block::new(5000, 4999, 3, 0);
    assert_eq!(chain.push(orphan), Err(PushError::Orphan));
    assert_eq!(chain.get_chain_info(5000), None);
    assert_eq!(chain.head_hash(), main_hash(2));
}

#[test]
fn push_bad_header_is_refused_without_writes() {
    let mut chain = chain_to(2);
    let b = main_block(3).with_validity(Validity::BadHeader);
    assert_eq!(chain.push(b), Err(PushError::InvalidHeader));
    assert_eq!(chain.get_chain_info(main_hash(3)), None);
    assert_eq!(chain.head_hash(), main_hash(2));
}

#[test]
fn push_bad_justification_is_refused() {
    let mut chain = chain_to(2);
    let b = main_block(3).with_validity(Validity::BadJustification);
    assert_eq!(chain.push(b), Err(PushError::InvalidJustification));
    assert_eq!(chain.get_chain_info(main_hash(3)), None);
}

#[test]
fn push_wrong_height_is_invalid_successor() {
    let mut chain = chain_to(2);
    let b = Block::new(7000, main_hash(2), 5, 0);
    assert_eq!(chain.push(b), Err(PushError::InvalidSuccessor));
    assert_eq!(chain.get_chain_info(7000), None);
    assert_eq!(chain.block_number(), 2);
}

#[test]
fn push_bad_state_is_duplicate_transaction() {
    let mut chain = chain_to(2);
    let b = main_block(3).with_validity(Validity::BadState);
    assert_eq!(chain.push(b), Err(PushError::DuplicateTransaction));
    assert_eq!(chain.get_chain_info(main_hash(3)), None);
    assert_eq!(chain.get_chain_info(main_hash(2)).unwrap().main_chain_successor, None);
}

#[test]
fn higher_view_sibling_rebranches() {
    let mut chain = chain_to(5);
    chain.take_events();
    let fork = Block::new(9005, main_hash(4), 5, 1);
    assert_eq!(chain.push(fork), Ok(PushResult::Rebranched));
    assert_eq!(chain.head_hash(), 9005);
    let old_head = chain.get_chain_info(main_hash(5)).unwrap();
    assert!(!old_head.on_main_chain);
    assert_eq!(old_head.main_chain_successor, None);
    assert!(chain.get_chain_info(9005).unwrap().on_main_chain);
    assert_eq!(chain.get_chain_info(main_hash(4)).unwrap().main_chain_successor, Some(9005));
    let events = chain.take_events();
    assert_eq!(events.len(), 1);
    match &events[0] {
        BlockchainEvent::Rebranched(reverted, adopted) => {
            assert_eq!(reverted, &vec![main_block(5)]);
            assert_eq!(adopted, &vec![fork]);
        }
        other => panic!("unexpected event {:?}", other),
    }
}

#[test]
fn equal_view_sibling_is_ignored() {
    let mut chain = chain_to(5);
    let fork = Block::new(9005, main_hash(4), 5, 0);
    assert_eq!(chain.push(fork), Ok(PushResult::Ignored));
    assert_eq!(chain.head_hash(), main_hash(5));
    assert_eq!(chain.get_chain_info(9005), None);
}

#[test]
fn lower_view_sibling_is_ignored() {
    let mut chain = chain_to(3);
    let b = Block::new(main_hash(4), main_hash(3), 4, 2);
    assert_eq!(chain.push(b), Ok(PushResult::Extended));
    let fork = Block::new(9004, main_hash(3), 4, 1);
    assert_eq!(chain.push(fork), Ok(PushResult::Ignored));
    assert_eq!(chain.head_hash(), main_hash(4));
}

#[test]
fn shorter_fork_is_ignored() {
    let mut chain = chain_to(5);
    let fork = Block::new(9004, main_hash(3), 4, 7);
    assert_eq!(chain.push(fork), Ok(PushResult::Ignored));
    assert_eq!(chain.get_chain_info(9004), None);
}

#[test]
fn failed_rebranch_leaves_chain_at_ancestor() {
    let mut chain = chain_to(5);
    chain.take_events();
    let fork = Block::new(9005, main_hash(4), 5, 1).with_validity(Validity::BadState);
    assert_eq!(chain.push(fork), Err(PushError::InvalidFork));
    assert_eq!(chain.head_hash(), main_hash(4));
    assert_eq!(chain.block_number(), 4);
    assert!(!chain.get_chain_info(main_hash(5)).unwrap().on_main_chain);
    assert_eq!(chain.get_chain_info(main_hash(4)).unwrap().main_chain_successor, None);
    assert_eq!(chain.get_chain_info(9005), None);
    assert_eq!(chain.take_events().len(), 0);
}

#[test]
fn rebranch_across_macro_head_is_invalid_fork() {
    let mut chain = chain_to(4);
    let macro_head = main_block(5).with_type(BlockType::Macro);
    assert_eq!(chain.push(macro_head), Ok(PushResult::Extended));
    let fork = Block::new(9005, main_hash(4), 5, 3);
    assert_eq!(chain.push(fork), Err(PushError::InvalidFork));
    assert_eq!(chain.head_hash(), main_hash(5));
    assert!(chain.get_chain_info(main_hash(5)).unwrap().on_main_chain);
    assert_eq!(chain.get_chain_info(9005), None);
}

#[test]
fn macro_fork_block_is_invalid_fork() {
    let mut chain = chain_to(5);
    let fork = Block::new(9005, main_hash(4), 5, 3).with_type(BlockType::Macro);
    assert_eq!(chain.push(fork), Err(PushError::InvalidFork));
    assert_eq!(chain.head_hash(), main_hash(5));
}

#[test]
fn child_of_reverted_block_is_stored_as_fork() {
    let mut chain = chain_to(5);
    let fork = Block::new(9005, main_hash(4), 5, 1);
    assert_eq!(chain.push(fork), Ok(PushResult::Rebranched));
    let child = Block::new(main_hash(6), main_hash(5), 6, 0);
    assert_eq!(chain.push(child), Ok(PushResult::Forked));
    let info = chain.get_chain_info(main_hash(6)).unwrap();
    assert!(!info.on_main_chain);
    assert_eq!(chain.head_hash(), 9005);
}

#[test]
fn blocks_backward_follow_parents() {
    let chain = chain_to(6);
    let blocks = chain.get_blocks_backward(main_hash(6), 3);
    assert_eq!(blocks, vec![main_block(6), main_block(5), main_block(4)]);
    let all = chain.get_blocks_backward(main_hash(2), 10);
    assert_eq!(all.len(), 3);
    assert_eq!(all[2].hash, main_hash(0));
    assert_eq!(chain.get_blocks_backward(4242, 3).len(), 0);
    assert_eq!(chain.get_blocks_backward(main_hash(6), 0).len(), 0);
}
