//! Blocks: layout, iteration, and tests for damaged blocks.
use mini_lsm::block::{Block, BlockBuilder, BlockIterator};
use mini_lsm::key::KeySlice;
use std::sync::Arc;

fn entries(mut it: BlockIterator) -> Vec<(Vec<u8>, u64, Vec<u8>)> {
    let mut all = Vec::new();
    while it.is_valid() {
        all.push((it.key().key_ref().to_vec(), it.key().ts(), it.value().to_vec()));
        it.next();
    }
    all
}

fn two_entries() -> Block {
    let mut b = BlockBuilder::new(4096);
    assert!(b.is_empty());
    assert!(b.add(KeySlice::from_slice(b"ab"), b"1"));
    assert!(b.add(KeySlice::from_slice_with_ts(b"ac", 5), b"22"));
    assert!(!b.is_empty());
    b.build()
}

#[test]
fn a_block_takes_entries_up_to_its_size_and_no_further_than_its_offsets_reach() {
    for block_size in [65_535, 65_536, 1 << 20] {
        let mut b = BlockBuilder::new(block_size);
        assert!(b.add(KeySlice::from_slice(b"a"), &[0; 30_000]));
        assert!(b.add(KeySlice::from_slice(b"b"), &[0; 30_000]));
        // each entry takes 14 bytes beside its key and value
        assert!(!b.add(KeySlice::from_slice(b"c"), &[0; 5_491]));
        assert!(b.add(KeySlice::from_slice(b"c"), &[0; 5_490]));
        assert!(!b.add(KeySlice::from_slice(b"d"), b""));
        let block = b.build();
        assert_eq!(block.offsets, vec![0, 30_015, 60_030]);
    }
}

#[test]
fn block_bytes_are_laid_out() {
    let block = two_entries();
    assert_eq!(block.offsets, vec![0, 17]);
    assert_eq!(
        block.encode(),
        vec![
            0, 0, 2, 0, 97, 98, 0, 0, 0, 0, 0, 0, 0, 0, 1, 0, 49, 1, 0, 1, 0, 99, 5, 0, 0, 0, 0, 0,
            0, 0, 2, 0, 50, 50, 0, 0, 0, 17, 0, 2, 0, 0, 17, 0, 2, 0
        ]
    );
}

#[test]
fn block_is_read_back() {
    let bytes = two_entries().encode();
    assert!(Block::is_decodable(&bytes));
    let block = Block::decode(&bytes);
    assert!(block.is_sound());
    let it = BlockIterator::create_and_seek_to_first(Arc::new(block));
    assert_eq!(
        entries(it),
        vec![
            (b"ab".to_vec(), 0, b"1".to_vec()),
            (b"ac".to_vec(), 5, b"22".to_vec()),
        ]
    );
}

#[test]
fn block_builder_refuses_when_full() {
    let mut b = BlockBuilder::new(34);
    assert!(b.add(KeySlice::from_slice(b"ab"), b"1"));
    // 17 bytes are taken; the next entry takes 17 more
    assert!(b.add(KeySlice::from_slice(b"ac"), b"22"));
    assert!(!b.add(KeySlice::from_slice(b"ad"), b""));
    assert_eq!(b.build().offsets.len(), 2);
}

#[test]
fn block_builder_takes_a_first_entry_of_any_size() {
    let mut b = BlockBuilder::new(8);
    assert!(b.add(KeySlice::from_slice(b"key"), &[7; 100]));
    assert!(!b.add(KeySlice::from_slice(b"kez"), b""));
    assert_eq!(b.first_key().key_ref(), b"key");
}

#[test]
fn block_seek_finds_the_next_key() {
    let block = Arc::new(two_entries());
    let it = BlockIterator::create_and_seek_to_key(block.clone(), KeySlice::from_slice(b"abc"));
    assert_eq!(it.key().key_ref(), b"ac");
    let it = BlockIterator::create_and_seek_to_key(block.clone(), KeySlice::from_slice(b"a"));
    assert_eq!(it.key().key_ref(), b"ab");
    let mut it = BlockIterator::create_and_seek_to_key(block, KeySlice::from_slice(b"b"));
    assert!(!it.is_valid());
    it.seek_to_first();
    assert_eq!(it.value(), b"1");
}

#[test]
fn block_seek_prefers_later_versions() {
    let mut b = BlockBuilder::new(4096);
    assert!(b.add(KeySlice::from_slice_with_ts(b"k", 9), b"new"));
    assert!(b.add(KeySlice::from_slice_with_ts(b"k", 3), b"old"));
    let block = Arc::new(b.build());
    let it = BlockIterator::create_and_seek_to_key(
        block.clone(),
        KeySlice::from_slice_with_ts(b"k", 5),
    );
    assert_eq!(it.value(), b"old");
    let it = BlockIterator::create_and_seek_to_key(block, KeySlice::from_slice_with_ts(b"k", 10));
    assert_eq!(it.value(), b"new");
}

#[test]
fn damaged_blocks_are_told() {
    assert!(!Block::is_decodable(&[1]));
    assert!(!Block::is_decodable(&[0, 0, 2, 0]));
    assert!(Block::is_decodable(&[0, 0]));
    // an offset behind the end
    assert!(!Block { data: vec![0; 14], offsets: vec![1] }.is_sound());
    // a key without bytes
    assert!(!Block { data: vec![0; 14], offsets: vec![0] }.is_sound());
    // a value behind the end
    let data = vec![0, 0, 1, 0, 97, 0, 0, 0, 0, 0, 0, 0, 0, 1, 0];
    assert!(!Block { data, offsets: vec![0] }.is_sound());
    // more bytes borrowed than the first key has
    let mut data = vec![0, 0, 1, 0, 97, 0, 0, 0, 0, 0, 0, 0, 0, 0, 0];
    data.extend_from_slice(&[2, 0, 1, 0, 98, 0, 0, 0, 0, 0, 0, 0, 0, 0, 0]);
    assert!(!Block { data: data.clone(), offsets: vec![0, 15] }.is_sound());
    data[15] = 1;
    assert!(Block { data, offsets: vec![0, 15] }.is_sound());
}
