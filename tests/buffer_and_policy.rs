use std::collections::HashSet;

use nimiq_consensus::block::Block;
use nimiq_consensus::buffer::BlockBuffer;
use nimiq_consensus::policy::{last_macro_block, BATCH_LENGTH};

fn blk(hash: u64, parent: u64, n: u32) -> Block {
    Block::new(hash, parent, n, 0)
}

fn contents(buffer: &BlockBuffer) -> Vec<(u32, Vec<u64>)> {
    buffer
        .buckets()
        .into_iter()
        .map(|(h, bs)| (h, bs.into_iter().map(|b| b.hash).collect()))
        .collect()
}

#[test]
fn insert_orders_by_height_and_keeps_arrival_order() {
    let mut buffer = BlockBuffer::new();
    assert!(buffer.is_empty());
    buffer.insert(blk(1, 0, 7));
    buffer.insert(blk(2, 0, 5));
    buffer.insert(blk(3, 0, 7));
    buffer.insert(blk(4, 0, 6));
    buffer.insert(blk(5, 0, 5));
    assert_eq!(buffer.len(), 5);
    assert_eq!(
        contents(&buffer),
        vec![(5, vec![2, 5]), (6, vec![4]), (7, vec![1, 3])]
    );
}

#[test]
fn pop_ready_takes_lowest_bucket_within_limit() {
    let mut buffer = BlockBuffer::new();
    buffer.insert(blk(1, 0, 11));
    buffer.insert(blk(2, 0, 12));
    buffer.insert(blk(3, 0, 11));
    assert_eq!(buffer.pop_ready(10).len(), 0);
    assert_eq!(buffer.len(), 3);
    let bucket = buffer.pop_ready(11);
    assert_eq!(bucket.iter().map(|b| b.hash).collect::<Vec<_>>(), vec![1, 3]);
    assert_eq!(contents(&buffer), vec![(12, vec![2])]);
    assert_eq!(buffer.pop_ready(100).len(), 1);
    assert!(buffer.is_empty());
    assert_eq!(buffer.pop_ready(100).len(), 0);
}

#[test]
fn eviction_follows_parent_links_transitively() {
    let mut buffer = BlockBuffer::new();
    buffer.insert(blk(10, 99, 5));
    buffer.insert(blk(11, 10, 6));
    buffer.insert(blk(12, 11, 7));
    buffer.insert(blk(20, 50, 6));
    let mut invalid = HashSet::new();
    invalid.insert(99u64);
    buffer.evict_descendants_of(invalid);
    assert_eq!(contents(&buffer), vec![(6, vec![20])]);
}

#[test]
fn eviction_reaches_blocks_listed_before_their_parent() {
    let mut buffer = BlockBuffer::new();
    // A block claiming a lower height than its buffered parent needs a second pass.
    buffer.insert(blk(30, 31, 4));
    buffer.insert(blk(31, 77, 8));
    buffer.insert(blk(32, 1, 9));
    let mut invalid = HashSet::new();
    invalid.insert(77u64);
    buffer.evict_descendants_of(invalid);
    assert_eq!(contents(&buffer), vec![(9, vec![32])]);
}

#[test]
fn eviction_with_empty_set_keeps_everything() {
    let mut buffer = BlockBuffer::new();
    buffer.insert(blk(1, 0, 3));
    buffer.insert(blk(2, 1, 4));
    buffer.evict_descendants_of(HashSet::new());
    assert_eq!(contents(&buffer), vec![(3, vec![1]), (4, vec![2])]);
}

#[test]
fn buckets_of_empty_buffer() {
    let buffer = BlockBuffer::new();
    assert_eq!(buffer.buckets().len(), 0);
}

#[test]
fn last_macro_block_rounds_down_to_batch() {
    assert_eq!(BATCH_LENGTH, 32);
    assert_eq!(last_macro_block(100), 96);
    assert_eq!(last_macro_block(96), 96);
    assert_eq!(last_macro_block(31), 0);
    assert_eq!(last_macro_block(0), 0);
    assert_eq!(last_macro_block(u32::MAX), u32::MAX - 31);
}
