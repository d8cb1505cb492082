use std::collections::HashMap;
use std::sync::Arc;

use mini_lsm::compact::{generate_new_sst_from_iter, CompactionTask};
use mini_lsm::iterators::StorageIterator;
use mini_lsm::lsm_iterator::KeyBound;
use mini_lsm::lsm_storage::LsmStorageState;
use mini_lsm::table::SsTable;
use mini_lsm::table_builder::SsTableBuilder;
use mini_lsm::table_iterator::SsTableIterator;

fn table(id: usize, first: &str, last: &str) -> Arc<SsTable> {
    Arc::new(SsTable {
        id,
        blocks: Vec::new(),
        block_meta: Vec::new(),
        block_meta_offset: 0,
        first_key: first.as_bytes().to_vec(),
        last_key: last.as_bytes().to_vec(),
        file_size: 100,
        file: Vec::new(),
        bloom: None,
    })
}

fn state() -> LsmStorageState {
    let mut sstables = HashMap::new();
    for t in [table(1, "m", "n"), table(2, "c", "d"), table(3, "x", "y"), table(4, "a", "b")] {
        sstables.insert(t.id, t);
    }
    LsmStorageState {
        memtable: 9,
        imm_memtables: vec![8, 7],
        l0_sstables: vec![1],
        levels: vec![(1, vec![2, 3, 4]), (2, vec![])],
        sstables,
    }
}

fn stream_table(entries: &[(&str, &str)]) -> SsTableIterator {
    let mut builder = SsTableBuilder::new(4096);
    for (k, v) in entries {
        builder.add(k.as_bytes(), v.as_bytes());
    }
    SsTableIterator::create_and_seek_to_first(Arc::new(builder.build(0))).unwrap()
}

fn keys(t: &Arc<SsTable>) -> Vec<String> {
    let mut it = SsTableIterator::create_and_seek_to_first(t.clone()).unwrap();
    let mut out = Vec::new();
    while it.is_valid() {
        out.push(String::from_utf8(it.key().to_vec()).unwrap());
        it.next().unwrap();
    }
    out
}

#[test]
fn freezing_makes_the_memtable_the_latest_immutable_one() {
    let s = state().force_freeze_memtable(10);
    assert_eq!(s.memtable, 10);
    assert_eq!(s.imm_memtables, vec![9, 8, 7]);
    assert_eq!(s.l0_sstables, vec![1]);
    assert_eq!(s.levels, state().levels);
    assert_eq!(s.sstables.len(), 4);
}

#[test]
fn flushing_moves_the_earliest_immutable_memtable_to_l0() {
    let s = state();
    assert_eq!(s.next_imm_memtable(), Some(7));
    let flushed = s.force_flush_next_imm_memtable(table(7, "e", "f"));
    assert_eq!(flushed.imm_memtables, vec![8]);
    assert_eq!(flushed.l0_sstables, vec![7, 1]);
    assert_eq!(flushed.sstables.get(&7).unwrap().first_key, b"e".to_vec());
    assert_eq!(flushed.memtable, 9);
    let mut empty = state();
    empty.imm_memtables.clear();
    assert_eq!(empty.next_imm_memtable(), None);
    let same = empty.force_flush_next_imm_memtable(table(7, "e", "f"));
    assert_eq!(same.l0_sstables, vec![1]);
    assert!(!same.sstables.contains_key(&7));
}

#[test]
fn a_flush_is_due_at_the_memtable_limit() {
    let s = state();
    assert!(s.should_flush(2));
    assert!(s.should_flush(1));
    assert!(!s.should_flush(3));
}

#[test]
fn full_compaction_takes_l0_and_l1() {
    let s = state();
    match s.full_compaction_task() {
        CompactionTask::ForceFullCompaction { l0_sstables, l1_sstables } => {
            assert_eq!(l0_sstables, vec![1]);
            assert_eq!(l1_sstables, vec![2, 3, 4]);
        }
        _ => panic!("not a full compaction"),
    }
}

#[test]
fn full_compaction_inputs_skip_unknown_ids_and_sort_l1() {
    let s = state();
    let (l0, l1) = s.full_compaction_inputs(&vec![1, 42], &vec![2, 3, 4, 43]);
    assert_eq!(l0.iter().map(|t| t.id).collect::<Vec<_>>(), vec![1]);
    assert_eq!(l1.iter().map(|t| t.id).collect::<Vec<_>>(), vec![4, 2, 3]);
}

#[test]
fn applying_a_full_compaction_replaces_l0_and_l1() {
    let s = state();
    let (after, removed) =
        s.apply_full_compaction(&vec![1], &vec![2, 3, 4], &vec![table(20, "a", "k"), table(21, "l", "z")]);
    assert!(after.l0_sstables.is_empty());
    assert_eq!(after.levels, vec![(1, vec![20, 21]), (2, vec![])]);
    let mut ids: Vec<usize> = after.sstables.keys().copied().collect();
    ids.sort();
    assert_eq!(ids, vec![20, 21]);
    assert_eq!(removed, vec![1, 2, 3, 4]);
    assert_eq!(after.imm_memtables, vec![8, 7]);
}

#[test]
fn generation_cuts_tables_at_the_target_size_and_drops_deletions_at_the_bottom() {
    let iter = stream_table(&[("k1", "v1"), ("k2", "v2"), ("k3", ""), ("k4", "v4")]);
    let mut next_id = 5;
    let tables = generate_new_sst_from_iter(iter, true, 20, 10, &mut next_id).unwrap();
    assert_eq!(tables.len(), 2);
    assert_eq!(tables[0].sst_id(), 5);
    assert_eq!(tables[1].sst_id(), 6);
    assert_eq!(keys(&tables[0]), vec!["k1", "k2"]);
    assert_eq!(keys(&tables[1]), vec!["k4"]);
    assert_eq!(next_id, 7);
}

#[test]
fn generation_writes_no_table_for_dropped_deletions_alone() {
    let iter = stream_table(&[("k1", "v1"), ("k2", "v2"), ("k3", "")]);
    let mut next_id = 5;
    let tables = generate_new_sst_from_iter(iter, true, 20, 10, &mut next_id).unwrap();
    assert_eq!(tables.len(), 1);
    assert_eq!(keys(&tables[0]), vec!["k1", "k2"]);
    let only_deletions = stream_table(&[("k1", ""), ("k2", "")]);
    let tables = generate_new_sst_from_iter(only_deletions, true, 20, 10, &mut next_id).unwrap();
    assert!(tables.is_empty());
}

#[test]
fn generation_keeps_deletions_above_the_bottom() {
    let iter = stream_table(&[("k1", "v1"), ("k2", "v2"), ("k3", ""), ("k4", "v4")]);
    let mut next_id = 5;
    let tables = generate_new_sst_from_iter(iter, false, 20, 10, &mut next_id).unwrap();
    assert_eq!(tables.len(), 2);
    assert_eq!(keys(&tables[0]), vec!["k1", "k2"]);
    assert_eq!(keys(&tables[1]), vec!["k3", "k4"]);
    assert_eq!(next_id, 8);
}

#[test]
fn generation_of_a_large_target_writes_one_table() {
    let iter = stream_table(&[("a", "1"), ("b", "2"), ("c", "3")]);
    let mut next_id = 1;
    let tables = generate_new_sst_from_iter(iter, false, 4096, 1 << 20, &mut next_id).unwrap();
    assert_eq!(tables.len(), 1);
    assert_eq!(keys(&tables[0]), vec!["a", "b", "c"]);
    assert_eq!(next_id, 2);
}

fn built(id: usize, entries: &[(&str, &str)]) -> Arc<SsTable> {
    let mut builder = SsTableBuilder::new(32);
    for (k, v) in entries {
        builder.add(k.as_bytes(), v.as_bytes());
    }
    Arc::new(builder.build(id))
}

fn read_state() -> LsmStorageState {
    let mut sstables = HashMap::new();
    for t in [
        built(1, &[("b", "new"), ("d", "")]),
        built(2, &[("a", "x"), ("b", "old"), ("c", "y")]),
        built(3, &[("a", "oldest"), ("e", "z"), ("f1", "w")]),
    ] {
        sstables.insert(t.id, t);
    }
    LsmStorageState { memtable: 0, imm_memtables: vec![], l0_sstables: vec![1, 2], levels: vec![(1, vec![3])], sstables }
}

fn read(s: &LsmStorageState, key: &str) -> Option<String> {
    s.get_from_tables(key.as_bytes()).unwrap().map(|b| String::from_utf8(b.to_vec()).unwrap())
}

#[test]
fn reads_take_the_newest_table_holding_the_key() {
    let s = read_state();
    assert_eq!(read(&s, "b"), Some("new".to_string()));
    assert_eq!(read(&s, "a"), Some("x".to_string()));
    assert_eq!(read(&s, "c"), Some("y".to_string()));
    assert_eq!(read(&s, "e"), Some("z".to_string()));
    assert_eq!(read(&s, "f1"), Some("w".to_string()));
}

#[test]
fn reads_of_deleted_or_missing_keys_find_nothing() {
    let s = read_state();
    assert_eq!(read(&s, "d"), None);
    assert_eq!(read(&s, "f"), None);
    assert_eq!(read(&s, "0"), None);
    assert_eq!(read(&s, "z"), None);
}

#[test]
fn a_flushed_table_is_read_first() {
    let s = read_state().force_freeze_memtable(1).force_flush_next_imm_memtable(built(0, &[("a", "newest")]));
    assert_eq!(s.l0_sstables, vec![0, 1, 2]);
    assert_eq!(read(&s, "a"), Some("newest".to_string()));
    assert_eq!(read(&s, "b"), Some("new".to_string()));
}

fn scan_keys(s: &LsmStorageState, lower: KeyBound, upper: KeyBound) -> Vec<String> {
    let mut it = s.tables_for_range(&lower, &upper).unwrap();
    let mut out = Vec::new();
    while it.is_valid() {
        out.push(format!(
            "{}={}",
            String::from_utf8(it.key().to_vec()).unwrap(),
            String::from_utf8(it.value().to_vec()).unwrap()
        ));
        it.next().unwrap();
    }
    out
}

#[test]
fn range_without_bounds_merges_every_table() {
    let s = read_state();
    assert_eq!(
        scan_keys(&s, KeyBound::Unbounded, KeyBound::Unbounded),
        vec!["a=x", "b=new", "c=y", "d=", "e=z", "f1=w"]
    );
}

#[test]
fn range_from_an_included_key_takes_every_key_from_it_on() {
    let s = read_state();
    assert_eq!(
        scan_keys(&s, KeyBound::Included(b"b".to_vec()), KeyBound::Unbounded),
        vec!["b=new", "c=y", "d=", "e=z", "f1=w"]
    );
    // a table that does not hold the lower key still gives the keys above it
    assert_eq!(scan_keys(&s, KeyBound::Included(b"a0".to_vec()), KeyBound::Unbounded)[0], "b=new");
}

#[test]
fn range_after_an_excluded_key_takes_the_keys_above_it() {
    let s = read_state();
    assert_eq!(
        scan_keys(&s, KeyBound::Excluded(b"b".to_vec()), KeyBound::Unbounded),
        vec!["c=y", "d=", "e=z", "f1=w"]
    );
}

#[test]
fn range_leaves_out_tables_starting_beyond_the_upper_bound() {
    let s = read_state();
    assert_eq!(
        scan_keys(&s, KeyBound::Unbounded, KeyBound::Included(b"a".to_vec())),
        vec!["a=x", "b=old", "c=y", "e=z", "f1=w"]
    );
    assert!(scan_keys(&s, KeyBound::Unbounded, KeyBound::Excluded(b"a".to_vec())).is_empty());
}

#[test]
fn memtables_are_read_before_the_tables() {
    let s = read_state();
    let found = s.get(b"b", &vec![None, Some(b"mem".to_vec())]).unwrap();
    assert_eq!(found.map(|b| b.to_vec()), Some(b"mem".to_vec()));
    let deleted = s.get(b"b", &vec![Some(Vec::new()), Some(b"older".to_vec())]).unwrap();
    assert!(deleted.is_none());
    let from_tables = s.get(b"c", &vec![None, None]).unwrap();
    assert_eq!(from_tables.map(|b| b.to_vec()), Some(b"y".to_vec()));
}

#[test]
fn the_merged_scan_puts_memtables_and_tables_together() {
    let s = read_state();
    let mem = stream_table(&[("z", "m")]);
    let mut it = s.get_twomerged_iter(vec![Box::new(mem)], &KeyBound::Unbounded, &KeyBound::Unbounded).unwrap();
    let mut out = Vec::new();
    while it.is_valid() {
        out.push(format!(
            "{}={}",
            String::from_utf8(it.key().to_vec()).unwrap(),
            String::from_utf8(it.value().to_vec()).unwrap()
        ));
        it.next().unwrap();
    }
    assert_eq!(out, vec!["a=x", "b=new", "c=y", "d=", "e=z", "f1=w", "z=m"]);
}

fn compaction_state(l0: &[(&str, &str)], l1: &[(&str, &str)]) -> LsmStorageState {
    let mut sstables = HashMap::new();
    sstables.insert(10, built(10, l0));
    sstables.insert(20, built(20, l1));
    LsmStorageState {
        memtable: 5,
        imm_memtables: vec![],
        l0_sstables: vec![10],
        levels: vec![(1, vec![20]), (2, vec![])],
        sstables,
    }
}

#[test]
fn full_compaction_merges_l0_into_l1_and_drops_deletions() {
    let s = compaction_state(&[("c", "3")], &[("a", "1"), ("b", "")]);
    let mut next_id = 30;
    let (after, removed) = s.force_full_compaction(4096, 1 << 20, &mut next_id).unwrap();
    assert_eq!(removed, vec![10, 20]);
    assert!(after.l0_sstables.is_empty());
    assert_eq!(after.levels, vec![(1, vec![30]), (2, vec![])]);
    assert_eq!(next_id, 31);
    let mut ids: Vec<usize> = after.sstables.keys().copied().collect();
    ids.sort();
    assert_eq!(ids, vec![30]);
    assert_eq!(keys(after.sstables.get(&30).unwrap()), vec!["a", "c"]);
    assert_eq!(after.memtable, 5);
}

#[test]
fn full_compaction_writes_each_key_once_with_the_newest_value() {
    let s = compaction_state(&[("b", "new"), ("c", "3")], &[("a", "1"), ("b", "old")]);
    let mut next_id = 30;
    let (after, _) = s.force_full_compaction(4096, 1 << 20, &mut next_id).unwrap();
    assert_eq!(keys(after.sstables.get(&30).unwrap()), vec!["a", "b", "c"]);
    assert_eq!(read(&after, "b"), Some("new".to_string()));
    assert_eq!(read(&after, "a"), Some("1".to_string()));
}

#[test]
fn full_compaction_interleaves_l0_and_l1_keys() {
    let s = compaction_state(&[("a", "1"), ("c", "3")], &[("b", "2")]);
    let mut next_id = 30;
    let task = s.full_compaction_task();
    let tables = s.compact(&task, 4096, 1 << 20, &mut next_id).unwrap();
    assert_eq!(tables.len(), 1);
    assert_eq!(keys(&tables[0]), vec!["a", "b", "c"]);
}

#[test]
fn full_compaction_of_nothing_writes_nothing() {
    let mut s = compaction_state(&[("a", "1")], &[("b", "2")]);
    s.l0_sstables = vec![];
    s.levels[0].1 = vec![];
    let mut next_id = 30;
    let task = s.full_compaction_task();
    let tables = s.compact(&task, 4096, 1 << 20, &mut next_id).unwrap();
    assert!(tables.is_empty());
    assert_eq!(next_id, 30);
}

fn drain_pairs<I: StorageIterator>(it: &mut I) -> Vec<String> {
    let mut out = Vec::new();
    while it.is_valid() {
        out.push(format!(
            "{}={}",
            String::from_utf8(it.key().to_vec()).unwrap(),
            String::from_utf8(it.value().to_vec()).unwrap()
        ));
        it.next().unwrap();
    }
    out
}

#[test]
fn scan_merges_memtables_and_tables_and_skips_deletions() {
    let s = read_state();
    let mem = stream_table(&[("z", "m")]);
    let mut it = s.scan(vec![Box::new(mem)], &KeyBound::Unbounded, &KeyBound::Unbounded).unwrap();
    assert_eq!(drain_pairs(&mut it), vec!["a=x", "b=new", "c=y", "e=z", "f1=w", "z=m"]);
    assert!(!it.is_valid());
}

#[test]
fn scan_stops_at_the_upper_bound() {
    let s = read_state();
    let mem = stream_table(&[("z", "m")]);
    let mut it = s.scan(vec![Box::new(mem)], &KeyBound::Unbounded, &KeyBound::Included(b"e".to_vec())).unwrap();
    assert_eq!(drain_pairs(&mut it), vec!["a=x", "b=new", "c=y", "e=z"]);
}

#[test]
fn scan_from_a_key_before_a_table_yields_the_whole_table() {
    let mut sstables = HashMap::new();
    sstables.insert(1, built(1, &[("b", "2"), ("c", "3")]));
    let s = LsmStorageState { memtable: 0, imm_memtables: vec![], l0_sstables: vec![1], levels: vec![(1, vec![])], sstables };
    let none: Vec<Box<SsTableIterator>> = Vec::new();
    let mut it = s.scan(none, &KeyBound::Included(b"a".to_vec()), &KeyBound::Unbounded).unwrap();
    assert_eq!(drain_pairs(&mut it), vec!["b=2", "c=3"]);
}

#[test]
fn a_write_at_the_target_size_freezes_the_memtable() {
    assert!(mini_lsm::lsm_storage::should_freeze(1 << 20, 1 << 20));
    assert!(!mini_lsm::lsm_storage::should_freeze((1 << 20) - 1, 1 << 20));
}

#[test]
fn a_forced_flush_freezes_a_memtable_with_data_and_flushes() {
    let s = read_state();
    assert_eq!(s.force_flush_plan(false), (true, true));
    assert_eq!(s.force_flush_plan(true), (false, false));
    let frozen = s.force_freeze_memtable(7);
    assert_eq!(frozen.force_flush_plan(true), (false, true));
}
