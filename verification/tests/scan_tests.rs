use std::sync::Arc;

use mini_lsm::iterators::StorageIterator;
use mini_lsm::lsm_iterator::{scan_iterator, KeyBound, LsmIterator};
use mini_lsm::table_builder::SsTableBuilder;
use mini_lsm::table_iterator::SsTableIterator;

fn iter_of(entries: &[(&str, &str)]) -> SsTableIterator {
    let mut builder = SsTableBuilder::new(4096);
    for (k, v) in entries {
        builder.add(k.as_bytes(), v.as_bytes());
    }
    SsTableIterator::create_and_seek_to_first(Arc::new(builder.build(1))).unwrap()
}

fn entries() -> SsTableIterator {
    iter_of(&[("a", "1"), ("b", ""), ("c", "3"), ("d", ""), ("e", "5")])
}

fn drain<I: StorageIterator>(it: &mut I) -> Vec<String> {
    let mut out = Vec::new();
    while it.is_valid() {
        out.push(format!(
            "{}={}",
            String::from_utf8(it.key().to_vec()).unwrap(),
            String::from_utf8(it.value().to_vec()).unwrap()
        ));
        it.next().unwrap();
    }
    out
}

#[test]
fn lsm_iterator_skips_deletions_when_moving_on() {
    let mut it = LsmIterator::new(entries(), KeyBound::Unbounded).unwrap();
    assert_eq!(it.num_active_iterators(), 1);
    assert_eq!(drain(&mut it), vec!["a=1", "c=3", "e=5"]);
}

#[test]
fn lsm_iterator_stops_at_an_included_end() {
    let mut it = LsmIterator::new(entries(), KeyBound::Included(b"c".to_vec())).unwrap();
    assert_eq!(drain(&mut it), vec!["a=1", "c=3"]);
}

#[test]
fn lsm_iterator_stops_before_an_excluded_end() {
    let mut it = LsmIterator::new(entries(), KeyBound::Excluded(b"c".to_vec())).unwrap();
    assert_eq!(drain(&mut it), vec!["a=1"]);
    let mut it = LsmIterator::new(entries(), KeyBound::Excluded(b"a".to_vec())).unwrap();
    assert!(!it.is_valid());
    assert_eq!(drain(&mut it), Vec::<String>::new());
}

#[test]
fn lsm_iterator_shows_a_deletion_it_starts_on() {
    let mut it = LsmIterator::new(iter_of(&[("a", ""), ("b", "2")]), KeyBound::Unbounded).unwrap();
    assert_eq!(drain(&mut it), vec!["a=", "b=2"]);
}

#[test]
fn scan_skips_deletions_in_front() {
    let mut it = scan_iterator(iter_of(&[("a", ""), ("b", ""), ("c", "3"), ("d", "4")]), KeyBound::Unbounded).unwrap();
    assert_eq!(drain(&mut it), vec!["c=3", "d=4"]);
    it.next().unwrap();
    assert!(!it.is_valid());
}

#[test]
fn scan_with_an_end_bound() {
    let mut it = scan_iterator(entries(), KeyBound::Included(b"d".to_vec())).unwrap();
    assert_eq!(drain(&mut it), vec!["a=1", "c=3"]);
}
