//! Concatenates SSTables whose key ranges are ordered and do not overlap.
use std::sync::Arc;
use vstd::prelude::*;

use crate::iterators::{strictly_sorted, IteratorError, StorageIterator};
use crate::key::{
    key_le, key_less, key_lt, lemma_key_le_lt, lemma_key_lt_le, lemma_key_lt_transitive,
    lemma_key_trichotomy,
};
use crate::table::SsTable;
use crate::block_iterator::block_stream;
use crate::table_iterator::{
    at_or_after, block_search_bounds, blocks_from, lemma_at_or_after_found, lemma_at_or_after_skip,
    lemma_sorted_table_at_most_last, lemma_sorted_table_reaches, lemma_table_stream_sorted, meta_search_bounds,
    seek_stream, table_sorted, table_stream, SsTableIterator,
};

verus! {

/// What the iterator yields once it enters table `c` at its start: each table's entries in
/// turn, until a table yields nothing.
pub open spec fn tables_from(tables: Seq<Arc<SsTable>>, c: int) -> Seq<(Seq<u8>, Seq<u8>)>
    decreases tables.len() - c,
{
    if 0 <= c < tables.len() && table_stream(*tables[c]).len() > 0 {
        table_stream(*tables[c]) + tables_from(tables, c + 1)
    } else {
        Seq::empty()
    }
}

/// Binary search over the last keys of the tables landed at `p`: every table before it ends
/// below `key`, and the table at it, if any, does not.
pub open spec fn last_key_bounds(tables: Seq<Arc<SsTable>>, key: Seq<u8>, p: int) -> bool {
    &&& 0 <= p <= tables.len()
    &&& p == 0 || key_lt(tables[p - 1].last_key@, key)
    &&& p == tables.len() || !key_lt(tables[p].last_key@, key)
}

/// Table `i`.
pub open spec fn table_at(tables: Seq<Arc<SsTable>>, i: int) -> SsTable {
    *tables[i]
}

/// Every table is well formed.
pub open spec fn tables_wf(tables: Seq<Arc<SsTable>>) -> bool {
    forall|i: int| 0 <= i < tables.len() ==> (#[trigger] tables[i]).wf()
}

/// The tables are sorted and follow each other in key order: every table ends below the first
/// key of every later one.
pub open spec fn tables_in_order(tables: Seq<Arc<SsTable>>) -> bool {
    &&& forall|i: int| 0 <= i < tables.len() ==> table_sorted(#[trigger] table_at(tables, i))
    &&& forall|i: int, j: int|
        0 <= i < j < tables.len() ==> key_lt(#[trigger] tables[i].last_key@, #[trigger] tables[j].first_key@)
}

/// A sorted table starts at its first key, which is not above its last key.
pub(crate) proof fn lemma_first_at_most_last(t: SsTable)
    requires
        table_sorted(t),
    ensures
        table_stream(t).len() > 0,
        table_stream(t)[0].0 == t.first_key@,
        key_le(t.first_key@, t.last_key@),
{
    lemma_sorted_table_at_most_last(t);
    let b = t.block(0);
    assert(b.wf());
    assert(b.key_at(0).len() > 0);
    assert(blocks_from(t, 0) == block_stream(b, 0) + blocks_from(t, 1));
    assert(block_stream(b, 0)[0] == (b.key_at(0), b.value_at(0)));
    assert(blocks_from(t, 0)[0] == block_stream(b, 0)[0]);
}

/// Tables in key order yield, one after another, their keys in strictly increasing order,
/// none of them below the first key of the table they start from.
pub proof fn lemma_tables_from_sorted(tables: Seq<Arc<SsTable>>, c: int)
    requires
        tables_in_order(tables),
        0 <= c <= tables.len(),
    ensures
        strictly_sorted(tables_from(tables, c)),
        c < tables.len() ==> forall|p: int|
            0 <= p < tables_from(tables, c).len() ==> key_le(tables[c].first_key@, #[trigger] tables_from(tables, c)[p].0),
    decreases tables.len() - c,
{
    if c < tables.len() {
        let t = table_at(tables, c);
        assert(table_sorted(t));
        lemma_first_at_most_last(t);
        lemma_sorted_table_at_most_last(t);
        lemma_table_stream_sorted(t);
        lemma_tables_from_sorted(tables, c + 1);
        let ts = table_stream(t);
        let rest = tables_from(tables, c + 1);
        let whole = tables_from(tables, c);
        assert(whole == ts + rest);
        assert forall|j: int| 0 <= j < rest.len() implies key_lt(t.last_key@, #[trigger] rest[j].0) by {
            assert(c + 1 < tables.len());
            assert(key_lt(tables[c].last_key@, tables[c + 1].first_key@));
            lemma_key_lt_le(t.last_key@, tables[c + 1].first_key@, rest[j].0);
        }
        assert forall|i: int| 0 <= i < ts.len() implies key_le(t.first_key@, #[trigger] ts[i].0) by {
            if i > 0 {
                assert(key_lt(ts[0].0, ts[i].0));
            }
        }
        assert forall|i: int, j: int| 0 <= i < j < whole.len() implies key_lt(
            #[trigger] whole[i].0,
            #[trigger] whole[j].0,
        ) by {
            if j < ts.len() {
                assert(whole[i] == ts[i] && whole[j] == ts[j]);
            } else if i < ts.len() {
                assert(whole[i] == ts[i] && whole[j] == rest[j - ts.len()]);
                assert(key_le(ts[i].0, t.last_key@));
                assert(key_lt(t.last_key@, rest[j - ts.len()].0));
                lemma_key_le_lt(ts[i].0, t.last_key@, rest[j - ts.len()].0);
            } else {
                assert(whole[i] == rest[i - ts.len()] && whole[j] == rest[j - ts.len()]);
            }
        }
        assert forall|p: int| 0 <= p < whole.len() implies key_le(tables[c].first_key@, #[trigger] whole[p].0) by {
            if p < ts.len() {
                assert(whole[p] == ts[p]);
            } else {
                assert(whole[p] == rest[p - ts.len()]);
                assert(key_lt(t.last_key@, rest[p - ts.len()].0));
                lemma_key_le_lt(t.first_key@, t.last_key@, rest[p - ts.len()].0);
            }
        }
    }
}

/// Looking for `key` from table `c` on goes on from table `p` when the tables in between end
/// below `key`.
proof fn lemma_skip_tables(tables: Seq<Arc<SsTable>>, c: int, p: int, key: Seq<u8>)
    requires
        tables_in_order(tables),
        0 <= c <= p <= tables.len(),
        forall|i: int| c <= i < p ==> key_lt(#[trigger] tables[i].last_key@, key),
    ensures
        at_or_after(tables_from(tables, c), key) == at_or_after(tables_from(tables, p), key),
    decreases p - c,
{
    if c < p {
        let t = table_at(tables, c);
        assert(table_sorted(t));
        lemma_sorted_table_at_most_last(t);
        assert(tables_from(tables, c) == table_stream(t) + tables_from(tables, c + 1));
        assert(key_lt(tables[c].last_key@, key));
        assert forall|i: int| 0 <= i < table_stream(t).len() implies key_lt(#[trigger] table_stream(t)[i].0, key) by {
            crate::key::lemma_key_le_lt(table_stream(t)[i].0, t.last_key@, key);
        }
        lemma_at_or_after_skip(table_stream(t), tables_from(tables, c + 1), key);
        lemma_skip_tables(tables, c + 1, p, key);
    }
}

/// Concat multiple iterators ordered in key order and their key ranges do not overlap. We do not want to create the
/// iterators when initializing this iterator to reduce the overhead of seeking.
pub struct SstConcatIterator {
    current: Option<SsTableIterator>,
    next_sst_idx: usize,
    sstables: Vec<Arc<SsTable>>,
}

impl SstConcatIterator {
    /// The tables being concatenated.
    pub closed spec fn tables(&self) -> Seq<Arc<SsTable>> {
        self.sstables@
    }

    /// The iterator over the current table, if any.
    pub closed spec fn current(&self) -> Option<SsTableIterator> {
        self.current
    }

    /// The index of the table after the current one.
    pub closed spec fn next_index(&self) -> int {
        self.next_sst_idx as int
    }

    pub fn create_and_seek_to_first(sstables: Vec<Arc<SsTable>>) -> (r: Result<Self, IteratorError>)
        requires
            tables_wf(sstables@),
        ensures
            r matches Ok(it) && it.wf() && it.tables() == sstables@ && it.stream() == tables_from(sstables@, 0),
    {
        let mut iter = SstConcatIterator { current: None, next_sst_idx: 0, sstables };
        if iter.sstables.len() != 0 {
            let first_sst = iter.sstables[0].clone();
            let ss_table_iter = SsTableIterator::create_and_seek_to_first(first_sst)?;
            iter.current = Some(ss_table_iter);
            iter.next_sst_idx = 1;
        }
        Ok(iter)
    }

    /// Creates the iterator at the first key `>= key`: binary search for the first table whose
    /// last key is not below `key`, then a seek inside it; if nothing there is at or after
    /// `key`, the iterator yields nothing.
    pub fn create_and_seek_to_key(sstables: Vec<Arc<SsTable>>, key: &[u8]) -> (r: Result<Self, IteratorError>)
        requires
            tables_wf(sstables@),
        ensures
            r is Ok,
            r matches Ok(it) ==> it.wf(),
            r matches Ok(it) ==> it.tables() == sstables@,
            r matches Ok(it) ==> exists|p: int|
                {
                    &&& #[trigger] last_key_bounds(sstables@, key@, p)
                    &&& (p == sstables@.len() ==> it.stream().len() == 0)
                    &&& (p < sstables@.len() ==> exists|left: int, idx: int|
                        #![trigger seek_stream(*sstables@[p], key@, left, idx)]
                        {
                            let t = *sstables@[p];
                            let found = seek_stream(t, key@, left, idx);
                            &&& meta_search_bounds(t, key@, left)
                            &&& block_search_bounds(t.block(if left == 0 { 0 } else { left - 1 }), key@, idx)
                            &&& it.stream() == if found.len() > 0 {
                                found + tables_from(sstables@, p + 1)
                            } else {
                                Seq::empty()
                            }
                        })
                },
            r matches Ok(it) ==> (tables_in_order(sstables@) ==> it.stream() == at_or_after(
                tables_from(sstables@, 0),
                key@,
            )),
    {
        let mut iter = SstConcatIterator { current: None, next_sst_idx: 0, sstables };
        if iter.sstables.len() == 0 {
            proof {
                assert(iter.stream().len() == 0);
                assert(last_key_bounds(iter.sstables@, key@, 0));
            }
            return Ok(iter);
        }
        let n = iter.sstables.len();
        let mut lo: usize = 0;
        let mut hi: usize = n;
        while lo < hi
            invariant
                n == iter.sstables@.len(),
                lo <= hi <= n,
                lo == 0 || key_lt(iter.sstables@[lo - 1].last_key@, key@),
                hi == n || !key_lt(iter.sstables@[hi as int].last_key@, key@),
            decreases hi - lo,
        {
            let mid = lo + (hi - lo) / 2;
            if key_less(iter.sstables[mid].last_key(), key) {
                lo = mid + 1;
            } else {
                hi = mid;
            }
        }
        let idx = lo;
        proof {
            assert(last_key_bounds(iter.sstables@, key@, idx as int));
        }
        if idx < iter.sstables.len() {
            let sst = iter.sstables[idx].clone();
            let ss_table_iter = SsTableIterator::create_and_seek_to_key(sst, key)?;
            let ghost t = table_at(iter.sstables@, idx as int);
            let ghost (l, x) = choose|l: int, x: int|
                meta_search_bounds(t, key@, l) && block_search_bounds(t.block(if l == 0 { 0 } else { l - 1 }), key@, x)
                    && ss_table_iter.stream() == seek_stream(t, key@, l, x);
            if ss_table_iter.is_valid() {
                iter.current = Some(ss_table_iter);
                iter.next_sst_idx = idx + 1;
            } else {
                iter.current = None;
            }
            proof {
                let found = seek_stream(t, key@, l, x);
                assert(iter.stream() == if found.len() > 0 {
                    found + tables_from(iter.sstables@, idx + 1)
                } else {
                    Seq::empty()
                });
                if tables_in_order(iter.sstables@) {
                    let ts = iter.sstables@;
                    assert forall|i: int| 0 <= i < idx implies key_lt(#[trigger] ts[i].last_key@, key@) by {
                        if i < idx - 1 {
                            assert(table_sorted(table_at(ts, idx - 1)));
                            lemma_first_at_most_last(table_at(ts, idx - 1));
                            assert(key_lt(ts[i].last_key@, ts[idx - 1].first_key@));
                            crate::key::lemma_key_lt_le(ts[i].last_key@, ts[idx - 1].first_key@, ts[idx - 1].last_key@);
                            lemma_key_lt_transitive(ts[i].last_key@, ts[idx - 1].last_key@, key@);
                        }
                    }
                    lemma_skip_tables(ts, 0, idx as int, key@);
                    assert(table_sorted(t));
                    lemma_key_trichotomy(key@, t.last_key@);
                    lemma_sorted_table_reaches(t, key@);
                    lemma_first_at_most_last(t);
                    assert(tables_from(ts, idx as int) == table_stream(t) + tables_from(ts, idx + 1));
                    lemma_at_or_after_found(table_stream(t), tables_from(ts, idx + 1), key@);
                }
            }
        } else {
            proof {
                assert(iter.stream().len() == 0);
                if tables_in_order(iter.sstables@) {
                    let ts = iter.sstables@;
                    assert forall|i: int| 0 <= i < idx implies key_lt(#[trigger] ts[i].last_key@, key@) by {
                        if i < idx - 1 {
                            assert(table_sorted(table_at(ts, idx - 1)));
                            lemma_first_at_most_last(table_at(ts, idx - 1));
                            assert(key_lt(ts[i].last_key@, ts[idx - 1].first_key@));
                            crate::key::lemma_key_lt_le(ts[i].last_key@, ts[idx - 1].first_key@, ts[idx - 1].last_key@);
                            lemma_key_lt_transitive(ts[i].last_key@, ts[idx - 1].last_key@, key@);
                        }
                    }
                    lemma_skip_tables(ts, 0, idx as int, key@);
                    assert(tables_from(ts, idx as int) == Seq::<(Seq<u8>, Seq<u8>)>::empty());
                }
            }
        }
        Ok(iter)
    }

    fn move_to_next_sst(&mut self) -> (r: Result<(), IteratorError>)
        requires
            old(self).wf(),
        ensures
            r is Ok,
            final(self).wf(),
            final(self).tables() == old(self).tables(),
            final(self).stream() == tables_from(old(self).tables(), old(self).next_index()),
    {
        if self.next_sst_idx < self.sstables.len() {
            let next_sst = self.sstables[self.next_sst_idx].clone();
            let ss_table_iter = SsTableIterator::create_and_seek_to_first(next_sst)?;
            self.current = Some(ss_table_iter);
            self.next_sst_idx = self.next_sst_idx + 1;
        } else {
            self.current = None;
        }
        Ok(())
    }
}

impl StorageIterator for SstConcatIterator {
    closed spec fn wf(&self) -> bool {
        &&& tables_wf(self.sstables@)
        &&& self.next_sst_idx <= self.sstables@.len()
        &&& self.current matches Some(cur) ==> cur.wf() && self.next_sst_idx > 0
    }

    open spec fn stream(&self) -> Seq<(Seq<u8>, Seq<u8>)> {
        match self.current() {
            Some(cur) => if cur.stream().len() > 0 {
                cur.stream() + tables_from(self.tables(), self.next_index())
            } else {
                Seq::empty()
            },
            None => Seq::empty(),
        }
    }

    open spec fn active(&self) -> nat {
        if self.current() is Some {
            1
        } else {
            0
        }
    }

    /// Reading tables in memory never fails.
    open spec fn infallible(&self) -> bool {
        true
    }

    open spec fn may_fail_with(&self, e: IteratorError) -> bool {
        false
    }

    fn key(&self) -> (k: &[u8]) {
        match &self.current {
            Some(cur) => cur.key(),
            None => {
                proof {
                    assert(false);
                }
                &[]
            },
        }
    }

    fn value(&self) -> (v: &[u8]) {
        match &self.current {
            Some(cur) => cur.value(),
            None => {
                proof {
                    assert(false);
                }
                &[]
            },
        }
    }

    fn is_valid(&self) -> (r: bool) {
        match &self.current {
            Some(cur) => cur.is_valid(),
            None => false,
        }
    }

    fn next(&mut self) -> (r: Result<(), IteratorError>) {
        let ghost before = self.stream();
        match &mut self.current {
            Some(cur) => {
                let ghost cs = cur.stream();
                let res = cur.next();
                match res {
                    Ok(()) => {},
                    Err(e) => {
                        return Err(e);
                    },
                }
                if cur.is_valid() {
                    return Ok(());
                }
            },
            None => {
                return Ok(());
            },
        }
        self.move_to_next_sst()
    }

    fn num_active_iterators(&self) -> (n: usize) {
        match &self.current {
            Some(_) => 1,
            None => 0,
        }
    }
}

} // verus!
