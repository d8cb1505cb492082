use std::sync::Arc;

use mini_lsm::iterators::merge_iterator::MergeIterator;
use mini_lsm::iterators::two_merge_iterator::TwoMergeIterator;
use mini_lsm::iterators::StorageIterator;
use mini_lsm::lsm_iterator::FusedIterator;
use mini_lsm::table::SsTable;
use mini_lsm::table_builder::SsTableBuilder;
use mini_lsm::table_iterator::SsTableIterator;

fn table_of(id: usize, entries: &[(&str, &str)]) -> SsTable {
    let mut builder = SsTableBuilder::new(4096);
    for (k, v) in entries {
        builder.add(k.as_bytes(), v.as_bytes());
    }
    builder.build(id)
}

fn iter_of(id: usize, entries: &[(&str, &str)]) -> SsTableIterator {
    SsTableIterator::create_and_seek_to_first(Arc::new(table_of(id, entries))).unwrap()
}

fn drain<I: StorageIterator>(it: &mut I) -> Vec<(String, String)> {
    let mut out = Vec::new();
    while it.is_valid() {
        out.push((
            String::from_utf8(it.key().to_vec()).unwrap(),
            String::from_utf8(it.value().to_vec()).unwrap(),
        ));
        it.next().unwrap();
    }
    out
}

fn pairs(items: &[(&str, &str)]) -> Vec<(String, String)> {
    items.iter().map(|(k, v)| (k.to_string(), v.to_string())).collect()
}

#[test]
fn merge_prefers_the_iterator_with_the_smaller_index() {
    let first = iter_of(1, &[("a", "1.1"), ("c", "1.3")]);
    let second = iter_of(2, &[("a", "2.1"), ("b", "2.2"), ("d", "2.4")]);
    let mut merged = MergeIterator::create(vec![Box::new(first), Box::new(second)]);
    assert_eq!(merged.num_active_iterators(), 2);
    assert_eq!(
        drain(&mut merged),
        pairs(&[("a", "1.1"), ("b", "2.2"), ("c", "1.3"), ("d", "2.4")])
    );
    assert_eq!(merged.num_active_iterators(), 0);
}

#[test]
fn merge_of_later_duplicates_keeps_the_first() {
    let first = iter_of(1, &[("b", "new")]);
    let second = iter_of(2, &[("a", "x"), ("b", "old"), ("c", "y")]);
    let third = iter_of(3, &[("b", "oldest"), ("c", "z")]);
    let mut merged = MergeIterator::create(vec![Box::new(first), Box::new(second), Box::new(third)]);
    assert_eq!(drain(&mut merged), pairs(&[("a", "x"), ("b", "new"), ("c", "y")]));
}

#[test]
fn merge_of_nothing_is_invalid() {
    let merged: MergeIterator<SsTableIterator> = MergeIterator::create(Vec::new());
    assert!(!merged.is_valid());
    assert_eq!(merged.num_active_iterators(), 0);
}

#[test]
fn two_merge_prefers_a_on_equal_keys() {
    let a = iter_of(1, &[("a", "a1"), ("b", "a2"), ("c", "a3")]);
    let b = iter_of(2, &[("a", "b1"), ("c", "b3")]);
    let mut it = TwoMergeIterator::create(a, b).unwrap();
    let mut out = Vec::new();
    while it.is_valid() {
        out.push((
            String::from_utf8(it.key().to_vec()).unwrap(),
            String::from_utf8(it.value().to_vec()).unwrap(),
        ));
        it.next().unwrap();
    }
    assert_eq!(out, pairs(&[("a", "a1"), ("b", "a2"), ("c", "a3")]));
}

#[test]
fn two_merge_chooses_again_after_advancing_a() {
    // After A moves past "a", B's "b" is the smaller head and is shown next.
    let a = iter_of(1, &[("a", "1"), ("c", "3")]);
    let b = iter_of(2, &[("b", "2")]);
    let mut it = TwoMergeIterator::create(a, b).unwrap();
    assert_eq!(drain(&mut it), pairs(&[("a", "1"), ("b", "2"), ("c", "3")]));
}

#[test]
fn two_merge_of_a_before_b_ends_with_b() {
    let a = iter_of(1, &[("a", "1")]);
    let b = iter_of(2, &[("b", "2")]);
    let mut it = TwoMergeIterator::create(a, b).unwrap();
    assert_eq!(drain(&mut it), pairs(&[("a", "1"), ("b", "2")]));
}

#[test]
fn two_merge_takes_b_when_a_is_empty() {
    let a: MergeIterator<SsTableIterator> = MergeIterator::create(Vec::new());
    let b = iter_of(2, &[("x", "1"), ("y", "2")]);
    let mut it = TwoMergeIterator::create(a, b).unwrap();
    assert!(it.is_valid());
    assert_eq!(it.key(), b"x");
    it.update_flag();
    assert_eq!(it.value(), b"1");
}

#[test]
fn two_merge_shows_b_before_a_when_b_holds_the_smaller_keys() {
    let a = iter_of(1, &[("c", "a3"), ("d", "a4")]);
    let b = iter_of(2, &[("a", "b1"), ("b", "b2")]);
    let mut it = TwoMergeIterator::create(a, b).unwrap();
    assert_eq!(drain(&mut it), pairs(&[("a", "b1"), ("b", "b2"), ("c", "a3"), ("d", "a4")]));
}

#[test]
fn fused_iterator_stays_at_the_end() {
    let inner = iter_of(1, &[("k", "v")]);
    let mut it = FusedIterator::new(inner);
    assert!(it.is_valid());
    assert_eq!(it.key(), b"k");
    assert_eq!(it.num_active_iterators(), 1);
    it.next().unwrap();
    assert!(!it.is_valid());
    it.next().unwrap();
    it.next().unwrap();
    assert!(!it.is_valid());
}
