use std::sync::Arc;

use mini_lsm::block::Block;
use mini_lsm::block_builder::BlockBuilder;
use mini_lsm::block_iterator::BlockIterator;
use mini_lsm::key::{common_prefix, compare_keys, key_equal, key_less, KeyOrder};

fn two_entry_block() -> Block {
    let mut builder = BlockBuilder::new(4096);
    assert!(builder.is_empty());
    assert!(builder.add(b"key1", b"value1"));
    assert!(builder.add(b"key2", b"v2"));
    assert!(!builder.is_empty());
    builder.build()
}

#[test]
fn builder_encodes_entries_with_prefix_compression() {
    let block = two_entry_block();
    let mut expected: Vec<u8> = vec![0, 0, 4, 0];
    expected.extend_from_slice(b"key1");
    expected.extend_from_slice(&[6, 0]);
    expected.extend_from_slice(b"value1");
    // the second key shares "key" with the first one
    expected.extend_from_slice(&[3, 0, 1, 0]);
    expected.extend_from_slice(b"2");
    expected.extend_from_slice(&[2, 0]);
    expected.extend_from_slice(b"v2");
    assert_eq!(block.data, expected);
    assert_eq!(block.offsets, vec![0u16, 16]);
}

#[test]
fn encode_appends_offsets_and_count() {
    let block = two_entry_block();
    let encoded = block.encode();
    assert_eq!(encoded.len(), 25 + 4 + 2);
    assert_eq!(&encoded[25..], &[0, 0, 16, 0, 2, 0]);
}

#[test]
fn decode_of_encode_gives_the_block_back() {
    let block = two_entry_block();
    let decoded = Block::decode(&block.encode());
    assert_eq!(decoded.data, block.data);
    assert_eq!(decoded.offsets, block.offsets);
}

#[test]
fn encode_of_decode_gives_the_bytes_back() {
    let bytes: Vec<u8> = vec![9, 8, 7, 1, 0, 1, 0];
    let block = Block::decode(&bytes);
    assert_eq!(block.data, vec![9, 8, 7]);
    assert_eq!(block.offsets, vec![1u16]);
    assert_eq!(block.encode(), bytes);
}

#[test]
fn decode_without_entries() {
    let block = Block::decode(&[1, 2, 3, 0, 0]);
    assert_eq!(block.data, vec![1, 2, 3]);
    assert!(block.offsets.is_empty());
}

#[test]
fn builder_refuses_entries_past_block_size() {
    let mut builder = BlockBuilder::new(20);
    // an empty builder always takes the entry
    assert!(builder.add(b"key1", b"value1"));
    // 16 bytes of data + 1 rest byte + 6 + 2 * 2 offsets + 2 + 2 value bytes = 31 > 20
    assert!(!builder.add(b"key2", b"v2"));
    let block = builder.build();
    assert_eq!(block.offsets, vec![0u16]);
    assert_eq!(block.data.len(), 16);
}

#[test]
fn builder_accepts_entry_exactly_at_block_size() {
    let mut builder = BlockBuilder::new(31);
    assert!(builder.add(b"key1", b"value1"));
    assert!(builder.add(b"key2", b"v2"));
}

#[test]
fn block_iterator_reads_back_what_was_added() {
    let block = Arc::new(two_entry_block());
    let mut it = BlockIterator::create_and_seek_to_first(block);
    assert!(it.is_valid());
    assert_eq!(it.key(), b"key1");
    assert_eq!(it.value(), b"value1");
    it.next();
    assert!(it.is_valid());
    assert_eq!(it.key(), b"key2");
    assert_eq!(it.value(), b"v2");
    it.next();
    assert!(!it.is_valid());
    assert_eq!(it.key(), b"");
    it.seek_to_first();
    assert_eq!(it.key(), b"key1");
}

#[test]
fn block_iterator_seeks_to_first_key_not_below() {
    let block = Arc::new(two_entry_block());
    let it = BlockIterator::create_and_seek_to_key(block.clone(), b"key15");
    assert_eq!(it.key(), b"key2");
    let mut it = BlockIterator::create_and_seek_to_key(block, b"key0");
    assert_eq!(it.key(), b"key1");
    it.seek_to_key(b"key2");
    assert_eq!(it.key(), b"key2");
    assert_eq!(it.value(), b"v2");
    it.seek_to_key(b"key3");
    assert!(!it.is_valid());
}

#[test]
fn many_entries_round_trip_through_encoding() {
    let mut builder = BlockBuilder::new(65536);
    for i in 0..100u32 {
        let key = format!("key_{:03}", i);
        let value = format!("value_{}", i);
        assert!(builder.add(key.as_bytes(), value.as_bytes()));
    }
    let block = Block::decode(&builder.build().encode());
    let mut it = BlockIterator::create_and_seek_to_first(Arc::new(block));
    for i in 0..100u32 {
        assert!(it.is_valid());
        assert_eq!(it.key(), format!("key_{:03}", i).as_bytes());
        assert_eq!(it.value(), format!("value_{}", i).as_bytes());
        it.next();
    }
    assert!(!it.is_valid());
}

#[test]
fn keys_compare_lexicographically() {
    assert_eq!(compare_keys(b"abc", b"abd"), KeyOrder::Less);
    assert_eq!(compare_keys(b"ab", b"abc"), KeyOrder::Less);
    assert_eq!(compare_keys(b"b", b"abc"), KeyOrder::Greater);
    assert_eq!(compare_keys(b"abc", b"abc"), KeyOrder::Equal);
    assert!(key_less(b"", b"a"));
    assert!(!key_less(b"a", b"a"));
    assert!(key_equal(b"xy", b"xy"));
    assert!(!key_equal(b"xy", b"xz"));
    assert_eq!(common_prefix(b"key1", b"key2"), 3);
    assert_eq!(common_prefix(b"", b"key2"), 0);
    assert_eq!(common_prefix(b"same", b"same"), 4);
}
