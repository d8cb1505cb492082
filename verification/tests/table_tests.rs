use std::sync::Arc;

use mini_lsm::iterators::concat_iterator::SstConcatIterator;
use mini_lsm::iterators::StorageIterator;
use mini_lsm::table::SsTable;
use mini_lsm::table_builder::SsTableBuilder;
use mini_lsm::table_iterator::SsTableIterator;

/// Builds a table from the keys, each with the value "v" followed by the key, in blocks of
/// 40 bytes.
fn table_of(id: usize, keys: &[&str]) -> SsTable {
    let mut builder = SsTableBuilder::new(40);
    for key in keys {
        let value = format!("v{}", key);
        builder.add(key.as_bytes(), value.as_bytes());
    }
    builder.build(id)
}

fn five_keys() -> SsTable {
    table_of(7, &["key_1", "key_2", "key_3", "key_4", "key_5"])
}

fn drain<I: StorageIterator>(it: &mut I) -> Vec<(Vec<u8>, Vec<u8>)> {
    let mut out = Vec::new();
    while it.is_valid() {
        out.push((it.key().to_vec(), it.value().to_vec()));
        it.next().unwrap();
    }
    out
}

fn keys_of(entries: &[(Vec<u8>, Vec<u8>)]) -> Vec<String> {
    entries.iter().map(|(k, _)| String::from_utf8(k.clone()).unwrap()).collect()
}

#[test]
fn builder_splits_blocks_at_the_block_size() {
    let table = five_keys();
    assert_eq!(table.sst_id(), 7);
    assert_eq!(table.num_of_blocks(), 3);
    let offsets: Vec<usize> = table.block_meta.iter().map(|m| m.offset).collect();
    assert_eq!(offsets, vec![0, 36, 72]);
    assert_eq!(table.block_meta_offset, 93);
    // 93 bytes of blocks, 3 metas of 18 bytes, the meta offset, an 8-byte filter with its
    // probe count, and the filter offset
    assert_eq!(table.table_size(), 164);
    assert_eq!(table.first_key(), b"key_1");
    assert_eq!(table.last_key(), b"key_5");
}

#[test]
fn block_meta_records_first_and_last_keys() {
    let table = five_keys();
    let firsts: Vec<&[u8]> = table.block_meta.iter().map(|m| m.first_key.as_slice()).collect();
    let lasts: Vec<&[u8]> = table.block_meta.iter().map(|m| m.last_key.as_slice()).collect();
    assert_eq!(firsts, vec![&b"key_1"[..], b"key_3", b"key_5"]);
    // a block with one entry has that key as its last key too
    assert_eq!(lasts, vec![&b"key_2"[..], b"key_4", b"key_5"]);
}

#[test]
fn estimated_size_counts_finished_blocks() {
    let mut builder = SsTableBuilder::new(40);
    assert_eq!(builder.estimated_size(), 0);
    builder.add(b"key_1", b"vkey_1");
    builder.add(b"key_2", b"vkey_2");
    assert_eq!(builder.estimated_size(), 0);
    builder.add(b"key_3", b"vkey_3");
    assert_eq!(builder.estimated_size(), 36);
}

#[test]
fn the_bloom_filter_may_contain_every_added_key() {
    let table = five_keys();
    let bloom = table.bloom.as_ref().unwrap();
    assert_eq!(bloom.k, 6);
    assert_eq!(bloom.filter.len(), 8);
    for k in ["key_1", "key_2", "key_3", "key_4", "key_5"] {
        assert!(bloom.may_contain(farmhash::fingerprint32(k.as_bytes())));
    }
}

#[test]
fn the_table_file_ends_with_the_meta_and_filter_offsets() {
    let table = five_keys();
    let file = &table.file;
    assert_eq!(file.len(), 164);
    assert_eq!(&file[147..151], &93u32.to_le_bytes());
    assert_eq!(&file[160..164], &151u32.to_le_bytes());
    // the first meta: offset 0, then "key_1" and "key_2" with their lengths
    assert_eq!(&file[93..97], &0u32.to_le_bytes());
    assert_eq!(&file[97..99], &5u16.to_le_bytes());
    assert_eq!(&file[99..104], b"key_1");
}

#[test]
fn blocks_read_back_what_was_added() {
    let table = five_keys();
    let block = table.read_block_cached(1);
    assert_eq!(block.offsets.len(), 2);
    let again = SsTableBuilder::new(40).build_for_test();
    assert_eq!(again.sst_id(), 0);
    assert_eq!(again.num_of_blocks(), 1);
}

#[test]
fn table_iterator_yields_every_entry_in_order() {
    let mut it = SsTableIterator::create_and_seek_to_first(Arc::new(five_keys())).unwrap();
    let entries = drain(&mut it);
    assert_eq!(keys_of(&entries), vec!["key_1", "key_2", "key_3", "key_4", "key_5"]);
    assert_eq!(entries[2].1, b"vkey_3".to_vec());
    assert!(!it.is_valid());
    it.seek_to_first().unwrap();
    assert_eq!(it.key(), b"key_1");
    assert_eq!(it.num_active_iterators(), 1);
}

#[test]
fn table_iterator_seeks_to_the_first_key_not_below() {
    let table = Arc::new(five_keys());
    let it = SsTableIterator::create_and_seek_to_key(table.clone(), b"key_3").unwrap();
    assert_eq!(it.key(), b"key_3");
    let it = SsTableIterator::create_and_seek_to_key(table.clone(), b"key_25").unwrap();
    assert_eq!(it.key(), b"key_3");
    let it = SsTableIterator::create_and_seek_to_key(table.clone(), b"a").unwrap();
    assert_eq!(it.key(), b"key_1");
    let mut it = SsTableIterator::create_and_seek_to_key(table.clone(), b"key_45").unwrap();
    assert_eq!(it.key(), b"key_5");
    assert_eq!(it.value(), b"vkey_5");
    it.seek_to_key(b"key_6").unwrap();
    assert!(!it.is_valid());
    it.seek_to_key(b"key_2").unwrap();
    assert_eq!(keys_of(&drain(&mut it)), vec!["key_2", "key_3", "key_4", "key_5"]);
}

#[test]
fn concat_iterator_walks_the_tables_in_turn() {
    let tables = vec![
        Arc::new(table_of(1, &["a1", "a2", "a3"])),
        Arc::new(table_of(2, &["b1", "b2"])),
        Arc::new(table_of(3, &["c1"])),
    ];
    let mut it = SstConcatIterator::create_and_seek_to_first(tables).unwrap();
    assert_eq!(it.num_active_iterators(), 1);
    assert_eq!(keys_of(&drain(&mut it)), vec!["a1", "a2", "a3", "b1", "b2", "c1"]);
    assert_eq!(it.num_active_iterators(), 0);
}

#[test]
fn concat_iterator_seeks_across_tables() {
    let tables = vec![Arc::new(table_of(1, &["a1", "a2"])), Arc::new(table_of(2, &["b1", "b2"]))];
    let mut it = SstConcatIterator::create_and_seek_to_key(tables.clone(), b"a15").unwrap();
    assert_eq!(keys_of(&drain(&mut it)), vec!["a2", "b1", "b2"]);
    let mut it = SstConcatIterator::create_and_seek_to_key(tables.clone(), b"a3").unwrap();
    assert_eq!(keys_of(&drain(&mut it)), vec!["b1", "b2"]);
    let it = SstConcatIterator::create_and_seek_to_key(tables.clone(), b"c").unwrap();
    assert!(!it.is_valid());
    let it = SstConcatIterator::create_and_seek_to_first(Vec::new()).unwrap();
    assert!(!it.is_valid());
}
