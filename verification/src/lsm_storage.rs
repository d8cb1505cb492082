//! The state of the storage engine and its options.
use std::collections::HashMap;
use std::sync::Arc;
use vstd::prelude::*;

use crate::block::{bytes_contents, bytes_from_vec};
use crate::compact::leveled::{
    all_known, lemma_sort_by_first_known, sort_by_first, sort_ids_by_first_key, table_of, LeveledCompactionOptions,
};
use crate::compact::simple_leveled::SimpleLeveledCompactionOptions;
use crate::compact::{append_ids, copy_ids, copy_levels, remove_all, remove_ids, CompactionOptions, CompactionTask};
use crate::iterators::concat_iterator::lemma_first_at_most_last;
use crate::iterators::merge_iterator::{
    all_strictly_sorted, head_min, lemma_merge_equal_heads, lemma_merge_sorted, lemma_merge_value,
    lemma_value_of_below_head, merge, MergeIterator,
};
use crate::iterators::two_merge_iterator::{lemma_two_merge_sorted_union, two_merge_run, TwoMergeIterator};
use crate::iterators::{first_value, strictly_sorted, value_of, IteratorError, StorageIterator};
use crate::key::{key_equal, key_le, key_less, key_lt, lemma_key_lt_irreflexive, lemma_key_lt_le, lemma_key_trichotomy};
use crate::lsm_iterator::{
    lemma_scan_stream_value, live_value, lsm_stream, scan_iterator, skip_deleted, within, FusedIterator, KeyBound,
    KeyBoundView, LsmIterator,
};
use crate::table::SsTable;
use crate::table_iterator::{
    at_or_after, lemma_at_or_after_sorted, lemma_table_stream_sorted, table_sorted, table_stream, SsTableIterator,
};

verus! {

broadcast use vstd::std_specs::hash::group_hash_axioms;

/// The levels with their table ids as sequences.
pub open spec fn levels_view(levels: Seq<(usize, Vec<usize>)>) -> Seq<(usize, Seq<usize>)> {
    levels.map_values(|l: (usize, Vec<usize>)| (l.0, l.1@))
}

/// Represents the state of the storage engine. Memtables are named by their ids.
pub struct LsmStorageState {
    /// The id of the current memtable.
    pub memtable: usize,
    /// Ids of the immutable memtables, from latest to earliest.
    pub imm_memtables: Vec<usize>,
    /// L0 SSTs, from latest to earliest.
    pub l0_sstables: Vec<usize>,
    /// SsTables sorted by key range; L1 - L_max for leveled compaction, or tiers for tiered
    /// compaction.
    pub levels: Vec<(usize, Vec<usize>)>,
    /// SST objects.
    pub sstables: HashMap<usize, Arc<SsTable>>,
}

impl LsmStorageState {
    /// The levels with their table ids as sequences.
    pub open spec fn levels_spec(&self) -> Seq<(usize, Seq<usize>)> {
        levels_view(self.levels@)
    }

    /// The state `create` builds for the given compaction options: no tables, memtable 0, and
    /// for leveled and simple compaction one empty level per level number, for no compaction
    /// one empty level, for tiered compaction none.
    pub open spec fn created(&self, options: CompactionOptions) -> bool {
        &&& self.memtable == 0
        &&& self.imm_memtables@.len() == 0
        &&& self.l0_sstables@.len() == 0
        &&& self.sstables@ == Map::<usize, Arc<SsTable>>::empty()
        &&& self.levels_spec() == match options {
            CompactionOptions::Leveled(o) => Seq::new(
                o.max_levels as nat,
                |i: int| ((i + 1) as usize, Seq::<usize>::empty()),
            ),
            CompactionOptions::Simple(o) => Seq::new(
                o.max_levels as nat,
                |i: int| ((i + 1) as usize, Seq::<usize>::empty()),
            ),
            CompactionOptions::Tiered(_) => Seq::empty(),
            CompactionOptions::NoCompaction => seq![(1usize, Seq::<usize>::empty())],
        }
    }

    /// Creates the initial state for the given options.
    pub fn create(options: &LsmStorageOptions) -> (s: Self)
        ensures
            s.created(options.compaction_options),
    {
        let levels = match &options.compaction_options {
            CompactionOptions::Leveled(LeveledCompactionOptions { max_levels, .. }) => empty_levels(
                *max_levels,
            ),
            CompactionOptions::Simple(SimpleLeveledCompactionOptions { max_levels, .. }) => empty_levels(
                *max_levels,
            ),
            CompactionOptions::Tiered(_) => Vec::new(),
            CompactionOptions::NoCompaction => {
                let mut v: Vec<(usize, Vec<usize>)> = Vec::new();
                v.push((1, Vec::new()));
                v
            },
        };
        let s = Self {
            memtable: 0,
            imm_memtables: Vec::new(),
            l0_sstables: Vec::new(),
            levels,
            sstables: HashMap::new(),
        };
        proof {
            assert(s.levels_spec() =~= match options.compaction_options {
                CompactionOptions::Leveled(o) => Seq::new(
                    o.max_levels as nat,
                    |i: int| ((i + 1) as usize, Seq::<usize>::empty()),
                ),
                CompactionOptions::Simple(o) => Seq::new(
                    o.max_levels as nat,
                    |i: int| ((i + 1) as usize, Seq::<usize>::empty()),
                ),
                CompactionOptions::Tiered(_) => Seq::empty(),
                CompactionOptions::NoCompaction => seq![(1usize, Seq::<usize>::empty())],
            });
        }
        s
    }
}

/// The table map with the ids removed one after another.
pub open spec fn remove_keys(tables: Map<usize, Arc<SsTable>>, ids: Seq<usize>) -> Map<usize, Arc<SsTable>>
    decreases ids.len(),
{
    if ids.len() == 0 {
        tables
    } else {
        remove_keys(tables, ids.drop_last()).remove(ids.last())
    }
}

/// The table map with each table inserted in turn under its id.
pub open spec fn insert_tables(tables: Map<usize, Arc<SsTable>>, added: Seq<Arc<SsTable>>) -> Map<
    usize,
    Arc<SsTable>,
>
    decreases added.len(),
{
    if added.len() == 0 {
        tables
    } else {
        insert_tables(tables, added.drop_last()).insert(added.last().id, added.last())
    }
}

/// The ids of the tables, in order.
pub open spec fn ids_of(added: Seq<Arc<SsTable>>) -> Seq<usize> {
    added.map_values(|t: Arc<SsTable>| t.id)
}

/// The ids that the map knows, in order.
pub open spec fn known_ids(tables: Map<usize, Arc<SsTable>>, ids: Seq<usize>) -> Seq<usize>
    decreases ids.len(),
{
    if ids.len() == 0 {
        Seq::empty()
    } else {
        let before = known_ids(tables, ids.drop_last());
        if tables.contains_key(ids.last()) {
            before.push(ids.last())
        } else {
            before
        }
    }
}

/// The tables of the ids.
pub open spec fn tables_of(tables: Map<usize, Arc<SsTable>>, ids: Seq<usize>) -> Seq<Arc<SsTable>> {
    ids.map_values(|id: usize| tables[id])
}

/// The ids of the levels' tables, level after level.
pub open spec fn level_ids(levels: Seq<(usize, Seq<usize>)>) -> Seq<usize>
    decreases levels.len(),
{
    if levels.len() == 0 {
        Seq::empty()
    } else {
        level_ids(levels.drop_last()) + levels.last().1
    }
}

/// What a table holds for `key`: the value of its entry with that key, if it has one.
pub open spec fn table_hit(t: SsTable, key: Seq<u8>) -> Option<Seq<u8>> {
    let s = at_or_after(table_stream(t), key);
    if s.len() > 0 && s[0].0 == key {
        Some(s[0].1)
    } else {
        None
    }
}

/// What the first of the tables that holds `key` has for it.
pub open spec fn first_hit(tables: Map<usize, Arc<SsTable>>, ids: Seq<usize>, key: Seq<u8>) -> Option<Seq<u8>>
    decreases ids.len(),
{
    if ids.len() == 0 {
        None
    } else {
        match first_hit(tables, ids.drop_last(), key) {
            Some(v) => Some(v),
            None => table_hit(*tables[ids.last()], key),
        }
    }
}

/// What a read of `key` from the tables gives: the value of the first table that holds the
/// key, unless that value is empty, which marks a deletion.
pub open spec fn read_from_tables(tables: Map<usize, Arc<SsTable>>, ids: Seq<usize>, key: Seq<u8>) -> Option<
    Seq<u8>,
> {
    match first_hit(tables, ids, key) {
        Some(v) => if v.len() > 0 {
            Some(v)
        } else {
            None
        },
        None => None,
    }
}

/// The table with id `id`.
pub open spec fn table_with_id(tables: Map<usize, Arc<SsTable>>, id: usize) -> SsTable {
    *tables[id]
}

/// The table behind a shared pointer.
pub open spec fn shared_table(table: Arc<SsTable>) -> SsTable {
    *table
}

/// A read looks at the tables in order: the first one decides when it holds the key, and
/// otherwise the others do.
pub proof fn lemma_first_hit_front(tables: Map<usize, Arc<SsTable>>, x: usize, ids: Seq<usize>, key: Seq<u8>)
    ensures
        first_hit(tables, seq![x] + ids, key) == match table_hit(*tables[x], key) {
            Some(v) => Some(v),
            None => first_hit(tables, ids, key),
        },
    decreases ids.len(),
{
    let whole = seq![x] + ids;
    if ids.len() == 0 {
        assert(whole.drop_last() =~= Seq::<usize>::empty());
        assert(first_hit(tables, whole.drop_last(), key) is None);
        assert(whole.last() == x);
        assert(first_hit(tables, ids, key) is None);
    } else {
        lemma_first_hit_front(tables, x, ids.drop_last(), key);
        assert(whole.drop_last() =~= seq![x] + ids.drop_last());
        assert(whole.last() == ids.last());
        assert(first_hit(tables, whole, key) == match first_hit(tables, seq![x] + ids.drop_last(), key) {
            Some(v) => Some(v),
            None => table_hit(*tables[ids.last()], key),
        });
        assert(first_hit(tables, ids, key) == match first_hit(tables, ids.drop_last(), key) {
            Some(v) => Some(v),
            None => table_hit(*tables[ids.last()], key),
        });
    }
}

/// After a flush a read looks at the flushed table first: what it holds for a key decides,
/// and otherwise the read goes on through the tables it went through before.
pub proof fn lemma_read_after_flush(
    before: LsmStorageState,
    after: LsmStorageState,
    sst: Arc<SsTable>,
    key: Seq<u8>,
)
    requires
        before.imm_memtables@.len() > 0,
        after.l0_sstables@ == seq![before.imm_memtables@.last()] + before.l0_sstables@,
        after.levels_spec() == before.levels_spec(),
        after.sstables@ == before.sstables@.insert(before.imm_memtables@.last(), sst),
    ensures
        first_hit(after.sstables@, after.read_order(), key) == match table_hit(*sst, key) {
            Some(v) => Some(v),
            None => first_hit(after.sstables@, before.read_order(), key),
        },
{
    let id = before.imm_memtables@.last();
    assert(after.read_order() =~= seq![id] + before.read_order());
    lemma_first_hit_front(after.sstables@, id, before.read_order(), key);
}

/// A flush of a sorted table keeps every table a read looks at sorted: the flushed table comes
/// first, and the others are those a read looked at before.
pub proof fn lemma_flush_keeps_tables_sorted(before: LsmStorageState, after: LsmStorageState, sst: Arc<SsTable>)
    requires
        before.imm_memtables@.len() > 0,
        after.l0_sstables@ == seq![before.imm_memtables@.last()] + before.l0_sstables@,
        after.levels_spec() == before.levels_spec(),
        after.sstables@ == before.sstables@.insert(before.imm_memtables@.last(), sst),
        tables_sorted(before.sstables@, before.read_order()),
        table_sorted(*sst),
    ensures
        tables_sorted(after.sstables@, after.read_order()),
{
    let id = before.imm_memtables@.last();
    let order = after.read_order();
    assert(order =~= seq![id] + before.read_order());
    assert forall|i: int| 0 <= i < order.len() implies after.sstables@.contains_key(#[trigger] order[i]) && table_sorted(
        *after.sstables@[order[i]],
    ) by {
        if i > 0 {
            assert(order[i] == before.read_order()[i - 1]);
        }
    }
}

/// The state `create` makes for leveled or simple leveled compaction has `max_levels` empty
/// levels numbered 1, 2, ..., `max_levels` in order; for tiered compaction it has no tier;
/// without compaction it has the one empty level 1. It starts with no tables and memtable 0
/// alone.
pub proof fn lemma_created_levels(s: LsmStorageState, options: CompactionOptions)
    requires
        s.created(options),
    ensures
        s.memtable == 0,
        s.imm_memtables@.len() == 0,
        s.l0_sstables@.len() == 0,
        s.sstables@.dom().len() == 0,
        match options {
            CompactionOptions::Leveled(o) => s.levels@.len() == o.max_levels && forall|i: int|
                0 <= i < o.max_levels ==> (#[trigger] s.levels@[i]).0 == i + 1 && s.levels@[i].1@.len() == 0,
            CompactionOptions::Simple(o) => s.levels@.len() == o.max_levels && forall|i: int|
                0 <= i < o.max_levels ==> (#[trigger] s.levels@[i]).0 == i + 1 && s.levels@[i].1@.len() == 0,
            CompactionOptions::Tiered(_) => s.levels@.len() == 0,
            CompactionOptions::NoCompaction => s.levels@.len() == 1 && s.levels@[0].0 == 1 && s.levels@[0].1@.len()
                == 0,
        },
{
    let lv = s.levels_spec();
    assert(lv.len() == s.levels@.len());
    assert forall|i: int| 0 <= i < s.levels@.len() implies lv[i] == (#[trigger] s.levels@[i].0, s.levels@[i].1@) by {}
    assert(s.sstables@.dom() =~= Set::<usize>::empty());
    match options {
        CompactionOptions::Leveled(o) => {
            assert forall|i: int| 0 <= i < o.max_levels implies (#[trigger] s.levels@[i]).0 == i + 1
                && s.levels@[i].1@.len() == 0 by {
                assert(lv[i] == ((i + 1) as usize, Seq::<usize>::empty()));
                assert(lv[i] == (s.levels@[i].0, s.levels@[i].1@));
            }
        },
        CompactionOptions::Simple(o) => {
            assert forall|i: int| 0 <= i < o.max_levels implies (#[trigger] s.levels@[i]).0 == i + 1
                && s.levels@[i].1@.len() == 0 by {
                assert(lv[i] == ((i + 1) as usize, Seq::<usize>::empty()));
                assert(lv[i] == (s.levels@[i].0, s.levels@[i].1@));
            }
        },
        CompactionOptions::Tiered(_) => {},
        CompactionOptions::NoCompaction => {
            assert(lv[0] == (s.levels@[0].0, s.levels@[0].1@));
        },
    }
}

/// A read over two runs of tables looks at the first run, then the second.
proof fn lemma_first_hit_concat(tables: Map<usize, Arc<SsTable>>, xs: Seq<usize>, ys: Seq<usize>, key: Seq<u8>)
    ensures
        first_hit(tables, xs + ys, key) == match first_hit(tables, xs, key) {
            Some(v) => Some(v),
            None => first_hit(tables, ys, key),
        },
    decreases ys.len(),
{
    if ys.len() == 0 {
        assert(xs + ys =~= xs);
    } else {
        lemma_first_hit_concat(tables, xs, ys.drop_last(), key);
        assert((xs + ys).drop_last() =~= xs + ys.drop_last());
        assert((xs + ys).last() == ys.last());
    }
}

/// A read over tables none of which holds the key finds nothing.
proof fn lemma_first_hit_none(tables: Map<usize, Arc<SsTable>>, ids: Seq<usize>, key: Seq<u8>)
    requires
        forall|q: int| 0 <= q < ids.len() ==> table_hit(*tables[#[trigger] ids[q]], key) is None,
    ensures
        first_hit(tables, ids, key) is None,
    decreases ids.len(),
{
    if ids.len() > 0 {
        assert forall|q: int| 0 <= q < ids.drop_last().len() implies table_hit(*tables[#[trigger] ids.drop_last()[q]], key)
            is None by {
            assert(ids.drop_last()[q] == ids[q]);
        }
        lemma_first_hit_none(tables, ids.drop_last(), key);
        assert(table_hit(*tables[ids[ids.len() - 1]], key) is None);
    }
}

/// A read finds the value of the first table, in order, that holds the key.
proof fn lemma_first_hit_at(tables: Map<usize, Arc<SsTable>>, ids: Seq<usize>, key: Seq<u8>, p: int)
    requires
        0 <= p < ids.len(),
        table_hit(*tables[ids[p]], key) is Some,
        forall|q: int| 0 <= q < p ==> table_hit(*tables[#[trigger] ids[q]], key) is None,
    ensures
        first_hit(tables, ids, key) == table_hit(*tables[ids[p]], key),
    decreases ids.len(),
{
    if p == ids.len() - 1 {
        assert forall|q: int| 0 <= q < ids.drop_last().len() implies table_hit(*tables[#[trigger] ids.drop_last()[q]], key)
            is None by {
            assert(ids.drop_last()[q] == ids[q]);
        }
        lemma_first_hit_none(tables, ids.drop_last(), key);
    } else {
        assert forall|q: int| 0 <= q < p implies table_hit(*tables[#[trigger] ids.drop_last()[q]], key) is None by {
            assert(ids.drop_last()[q] == ids[q]);
        }
        assert(ids.drop_last()[p] == ids[p]);
        lemma_first_hit_at(tables, ids.drop_last(), key, p);
    }
}

/// The tables of two runs of levels are those of the first run followed by those of the
/// second.
proof fn lemma_level_ids_concat(a: Seq<(usize, Seq<usize>)>, b: Seq<(usize, Seq<usize>)>)
    ensures
        level_ids(a + b) == level_ids(a) + level_ids(b),
    decreases b.len(),
{
    if b.len() == 0 {
        assert(a + b =~= a);
        assert(level_ids(a) + level_ids(b) =~= level_ids(a));
    } else {
        lemma_level_ids_concat(a, b.drop_last());
        assert((a + b).drop_last() =~= a + b.drop_last());
        assert((a + b).last() == b.last());
        assert(level_ids(a) + (level_ids(b.drop_last()) + b.last().1) =~= level_ids(a) + level_ids(b.drop_last())
            + b.last().1);
    }
}

/// Every table of a run of levels belongs to one of its levels.
proof fn lemma_level_ids_member(levels: Seq<(usize, Seq<usize>)>, q: int)
    requires
        0 <= q < level_ids(levels).len(),
    ensures
        exists|j: int, b: int|
            0 <= j < levels.len() && 0 <= b < levels[j].1.len() && level_ids(levels)[q] == #[trigger] levels[j].1[b],
    decreases levels.len(),
{
    let init = levels.drop_last();
    if q < level_ids(init).len() {
        lemma_level_ids_member(init, q);
        let (j, b) = choose|j: int, b: int|
            0 <= j < init.len() && 0 <= b < init[j].1.len() && level_ids(init)[q] == #[trigger] init[j].1[b];
        assert(levels[j] == init[j]);
        assert(level_ids(levels)[q] == levels[j].1[b]);
    } else {
        let b = q - level_ids(init).len();
        assert(level_ids(levels)[q] == levels.last().1[b]);
        assert(levels[levels.len() - 1].1[b] == levels.last().1[b]);
    }
}

/// A read looks at L0 and then at the levels from the top down: when no table of L0, no
/// table of a level above level `i`, and no table before position `a` in level `i` holds a
/// key, but table `a` of level `i` does, the read gets that table's value. So of two levels
/// holding a key, the upper (newer) one wins.
pub proof fn lemma_read_prefers_upper_levels(s: LsmStorageState, key: Seq<u8>, i: int, a: int)
    requires
        0 <= i < s.levels@.len(),
        0 <= a < s.levels_spec()[i].1.len(),
        table_hit(*s.sstables@[s.levels_spec()[i].1[a]], key) is Some,
        forall|q: int| 0 <= q < s.l0_sstables@.len() ==> table_hit(*s.sstables@[#[trigger] s.l0_sstables@[q]], key) is None,
        forall|j: int, b: int|
            0 <= j < i && 0 <= b < s.levels_spec()[j].1.len() ==> table_hit(
                *s.sstables@[#[trigger] s.levels_spec()[j].1[b]],
                key,
            ) is None,
        forall|b: int| 0 <= b < a ==> table_hit(*s.sstables@[#[trigger] s.levels_spec()[i].1[b]], key) is None,
    ensures
        first_hit(s.sstables@, s.read_order(), key) == table_hit(*s.sstables@[s.levels_spec()[i].1[a]], key),
{
    let tables = s.sstables@;
    let lv = s.levels_spec();
    let upper = lv.take(i);
    let rest = lv.skip(i + 1);
    assert(lv =~= upper + seq![lv[i]] + rest);
    lemma_level_ids_concat(upper + seq![lv[i]], rest);
    lemma_level_ids_concat(upper, seq![lv[i]]);
    assert(seq![lv[i]].drop_last() =~= Seq::<(usize, Seq<usize>)>::empty());
    assert(seq![lv[i]].last() == lv[i]);
    assert(level_ids(Seq::<(usize, Seq<usize>)>::empty()) =~= Seq::<usize>::empty());
    assert(level_ids(seq![lv[i]]) =~= lv[i].1);
    let above = level_ids(upper);
    assert forall|q: int| 0 <= q < above.len() implies table_hit(*tables[#[trigger] above[q]], key) is None by {
        lemma_level_ids_member(upper, q);
        let (j, b) = choose|j: int, b: int|
            0 <= j < upper.len() && 0 <= b < upper[j].1.len() && above[q] == #[trigger] upper[j].1[b];
        assert(upper[j] == lv[j]);
        assert(table_hit(*tables[lv[j].1[b]], key) is None);
    }
    lemma_first_hit_none(tables, s.l0_sstables@, key);
    lemma_first_hit_none(tables, above, key);
    lemma_first_hit_at(tables, lv[i].1, key, a);
    let order = s.read_order();
    assert(order =~= s.l0_sstables@ + above + lv[i].1 + level_ids(rest));
    lemma_first_hit_concat(tables, s.l0_sstables@ + above + lv[i].1, level_ids(rest), key);
    lemma_first_hit_concat(tables, s.l0_sstables@ + above, lv[i].1, key);
    lemma_first_hit_concat(tables, s.l0_sstables@, above, key);
}

/// What the memtables hold for a key, as plain values.
pub open spec fn lookups_view(lookups: Seq<Option<Vec<u8>>>) -> Seq<Option<Seq<u8>>> {
    lookups.map_values(|o: Option<Vec<u8>>| match o {
        Some(v) => Some(v@),
        None => None,
    })
}

/// What the first memtable that holds a key has for it.
pub open spec fn first_memtable_hit(lookups: Seq<Option<Seq<u8>>>) -> Option<Seq<u8>>
    decreases lookups.len(),
{
    if lookups.len() == 0 {
        None
    } else {
        match lookups[0] {
            Some(v) => Some(v),
            None => first_memtable_hit(lookups.drop_first()),
        }
    }
}

/// What the iterators yield, one after another.
pub open spec fn iter_streams<M: StorageIterator>(iters: Seq<Box<M>>) -> Seq<Seq<(Seq<u8>, Seq<u8>)>> {
    Seq::new(iters.len(), |i: int| iters[i].stream())
}

/// What a scan merges: the memtable scans merged, merged in turn with what the tables give
/// for the bounds merged, the memtables winning on equal keys.
pub open spec fn scan_run(
    mem: Seq<Seq<(Seq<u8>, Seq<u8>)>>,
    tables: Map<usize, Arc<SsTable>>,
    ids: Seq<usize>,
    lower: KeyBoundView,
    upper: KeyBoundView,
) -> Seq<(Seq<u8>, Seq<u8>)> {
    two_merge_run(merge(mem), merge(range_picks(tables, ids, lower, upper)))
}

/// Whether a write leaves the memtable due to be frozen: its approximate size has reached the
/// target table size.
pub fn should_freeze(memtable_size: usize, target_sst_size: usize) -> (r: bool)
    ensures
        r == (memtable_size >= target_sst_size),
{
    memtable_size >= target_sst_size
}

/// A copy of a bound.
fn copy_bound(b: &KeyBound) -> (c: KeyBound)
    ensures
        c@ == b@,
{
    match b {
        KeyBound::Included(k) => KeyBound::Included(vstd::slice::slice_to_vec(k.as_slice())),
        KeyBound::Excluded(k) => KeyBound::Excluded(vstd::slice::slice_to_vec(k.as_slice())),
        KeyBound::Unbounded => KeyBound::Unbounded,
    }
}

/// Every table of the ids is known and sorted.
pub open spec fn tables_sorted(tables: Map<usize, Arc<SsTable>>, ids: Seq<usize>) -> bool {
    forall|i: int| 0 <= i < ids.len() ==> tables.contains_key(#[trigger] ids[i]) && table_sorted(*tables[ids[i]])
}

/// Every table of the ids is known and well formed.
pub open spec fn tables_readable(tables: Map<usize, Arc<SsTable>>, ids: Seq<usize>) -> bool {
    forall|i: int| 0 <= i < ids.len() ==> tables.contains_key(#[trigger] ids[i]) && tables[ids[i]].wf()
}

/// A table may hold keys within the upper bound of a scan: its first key is not beyond it.
pub open spec fn starts_within(upper: KeyBoundView, first: Seq<u8>) -> bool {
    match upper {
        KeyBoundView::Included(u) => !key_lt(u, first),
        KeyBoundView::Excluded(u) => key_lt(first, u),
        KeyBoundView::Unbounded => true,
    }
}

/// What a scan takes from a table: nothing when the table starts beyond the upper bound;
/// otherwise its entries from an included lower key on, its entries above an excluded lower
/// key, or all of its entries without a lower bound; nothing when that leaves no entry.
pub open spec fn range_pick(t: SsTable, lower: KeyBoundView, upper: KeyBoundView) -> Option<Seq<(Seq<u8>, Seq<u8>)>> {
    if !starts_within(upper, t.first_key@) {
        None
    } else {
        let s = match lower {
            KeyBoundView::Included(l) => at_or_after(table_stream(t), l),
            KeyBoundView::Excluded(l) => {
                let found = at_or_after(table_stream(t), l);
                if found.len() > 0 && found[0].0 == l {
                    found.drop_first()
                } else {
                    found
                }
            },
            KeyBoundView::Unbounded => table_stream(t),
        };
        if s.len() > 0 {
            Some(s)
        } else {
            None
        }
    }
}

/// What a scan takes from each of the tables that gives something, in order.
pub open spec fn range_picks(
    tables: Map<usize, Arc<SsTable>>,
    ids: Seq<usize>,
    lower: KeyBoundView,
    upper: KeyBoundView,
) -> Seq<Seq<(Seq<u8>, Seq<u8>)>>
    decreases ids.len(),
{
    if ids.len() == 0 {
        Seq::empty()
    } else {
        let before = range_picks(tables, ids.drop_last(), lower, upper);
        match range_pick(*tables[ids.last()], lower, upper) {
            Some(s) => before.push(s),
            None => before,
        }
    }
}

/// What a scan takes from a sorted table is sorted.
proof fn lemma_range_pick_sorted(t: SsTable, lower: KeyBoundView, upper: KeyBoundView)
    requires
        table_sorted(t),
    ensures
        range_pick(t, lower, upper) matches Some(s) ==> strictly_sorted(s),
{
    lemma_table_stream_sorted(t);
    match lower {
        KeyBoundView::Included(l) => {
            lemma_at_or_after_sorted(table_stream(t), l);
        },
        KeyBoundView::Excluded(l) => {
            lemma_at_or_after_sorted(table_stream(t), l);
        },
        KeyBoundView::Unbounded => {},
    }
}

/// What a scan takes from sorted tables is sorted, table by table.
proof fn lemma_range_picks_sorted(
    tables: Map<usize, Arc<SsTable>>,
    ids: Seq<usize>,
    lower: KeyBoundView,
    upper: KeyBoundView,
)
    requires
        tables_sorted(tables, ids),
    ensures
        all_strictly_sorted(range_picks(tables, ids, lower, upper)),
    decreases ids.len(),
{
    if ids.len() > 0 {
        let init = ids.drop_last();
        assert forall|i: int| 0 <= i < init.len() implies tables.contains_key(#[trigger] init[i]) && table_sorted(
            *tables[init[i]],
        ) by {
            assert(init[i] == ids[i]);
        }
        lemma_range_picks_sorted(tables, init, lower, upper);
        assert(tables.contains_key(ids[ids.len() - 1]));
        lemma_range_pick_sorted(table_with_id(tables, ids.last()), lower, upper);
    }
}

/// A scan over sorted tables yields each key once, in increasing order: what it takes from
/// each table is sorted, and merging sorted streams keeps them sorted.
pub proof fn lemma_range_scan_sorted(
    tables: Map<usize, Arc<SsTable>>,
    ids: Seq<usize>,
    lower: KeyBoundView,
    upper: KeyBoundView,
)
    requires
        tables_sorted(tables, ids),
    ensures
        strictly_sorted(merge(range_picks(tables, ids, lower, upper))),
{
    lemma_range_picks_sorted(tables, ids, lower, upper);
    lemma_merge_sorted(range_picks(tables, ids, lower, upper));
}

/// The key is not below a scan's lower bound.
pub open spec fn from_lower(lower: KeyBoundView, key: Seq<u8>) -> bool {
    match lower {
        KeyBoundView::Included(l) => key_le(l, key),
        KeyBoundView::Excluded(l) => key_lt(l, key),
        KeyBoundView::Unbounded => true,
    }
}

/// Skipping entries below `l` keeps what a stream holds for a key not below `l`.
proof fn lemma_at_or_after_value(s: Seq<(Seq<u8>, Seq<u8>)>, l: Seq<u8>, k: Seq<u8>)
    requires
        key_le(l, k),
    ensures
        value_of(at_or_after(s, l), k) == value_of(s, k),
    decreases s.len(),
{
    if s.len() > 0 && key_lt(s[0].0, l) {
        lemma_key_trichotomy(s[0].0, k);
        crate::key::lemma_key_lt_le(s[0].0, l, k);
        lemma_key_lt_irreflexive(k);
        lemma_at_or_after_value(s.drop_first(), l, k);
    }
}

/// Looking for `k` lands on an entry whose key is not below `k`, if on any.
proof fn lemma_at_or_after_head(s: Seq<(Seq<u8>, Seq<u8>)>, k: Seq<u8>)
    ensures
        at_or_after(s, k).len() > 0 ==> !key_lt(at_or_after(s, k)[0].0, k),
    decreases s.len(),
{
    if s.len() > 0 && key_lt(s[0].0, k) {
        lemma_at_or_after_head(s.drop_first(), k);
    }
}

/// What a sorted table holds for a key is what its entries hold for it.
proof fn lemma_table_hit_value(t: SsTable, k: Seq<u8>)
    requires
        table_sorted(t),
    ensures
        table_hit(t, k) == value_of(table_stream(t), k),
{
    lemma_table_stream_sorted(t);
    lemma_at_or_after_sorted(table_stream(t), k);
    crate::key::lemma_key_trichotomy(k, k);
    lemma_at_or_after_value(table_stream(t), k, k);
    let found = at_or_after(table_stream(t), k);
    lemma_at_or_after_head(table_stream(t), k);
    if found.len() > 0 && found[0].0 != k {
        lemma_key_trichotomy(found[0].0, k);
        lemma_value_of_below_head(found, k);
    }
}

/// What a scan takes from a sorted table holds, for a key within the bounds, what the table
/// holds for it.
proof fn lemma_range_pick_value(t: SsTable, lower: KeyBoundView, upper: KeyBoundView, k: Seq<u8>)
    requires
        table_sorted(t),
        from_lower(lower, k),
        within(upper, k),
    ensures
        match range_pick(t, lower, upper) {
            Some(s) => value_of(s, k) == table_hit(t, k),
            None => table_hit(t, k) is None,
        },
{
    lemma_table_hit_value(t, k);
    let st = table_stream(t);
    if !starts_within(upper, t.first_key@) {
        lemma_first_at_most_last(t);
        lemma_table_stream_sorted(t);
        match upper {
            KeyBoundView::Included(u) => {
                lemma_key_trichotomy(u, t.first_key@);
                crate::key::lemma_key_le_lt(k, u, t.first_key@);
            },
            KeyBoundView::Excluded(u) => {
                lemma_key_trichotomy(t.first_key@, u);
                lemma_key_lt_le(k, u, t.first_key@);
            },
            KeyBoundView::Unbounded => {},
        }
        lemma_value_of_below_head(st, k);
        assert(range_pick(t, lower, upper) is None);
    } else {
        match lower {
            KeyBoundView::Included(l) => {
                lemma_at_or_after_value(st, l, k);
                assert(value_of(at_or_after(st, l), k) == table_hit(t, k));
            },
            KeyBoundView::Excluded(l) => {
                crate::key::lemma_key_trichotomy(l, k);
                lemma_at_or_after_value(st, l, k);
                let found = at_or_after(st, l);
                if found.len() > 0 && found[0].0 == l {
                    lemma_key_lt_irreflexive(k);
                    assert(found[0].0 != k);
                    assert(value_of(found.drop_first(), k) == value_of(found, k));
                }
            },
            KeyBoundView::Unbounded => {
                assert(value_of(st, k) == table_hit(t, k));
            },
        }
    }
}

/// What a scan takes from sorted tables holds, for a key within the bounds, the value of the
/// first table holding the key.
proof fn lemma_range_picks_value(
    tables: Map<usize, Arc<SsTable>>,
    ids: Seq<usize>,
    lower: KeyBoundView,
    upper: KeyBoundView,
    k: Seq<u8>,
)
    requires
        tables_sorted(tables, ids),
        from_lower(lower, k),
        within(upper, k),
    ensures
        first_value(range_picks(tables, ids, lower, upper), k) == first_hit(tables, ids, k),
    decreases ids.len(),
{
    if ids.len() > 0 {
        let init = ids.drop_last();
        assert(tables_sorted(tables, init)) by {
            assert forall|i: int| 0 <= i < init.len() implies tables.contains_key(#[trigger] init[i]) && table_sorted(
                *tables[init[i]],
            ) by {
                assert(init[i] == ids[i]);
            }
        }
        lemma_range_picks_value(tables, init, lower, upper, k);
        assert(ids.last() == ids[ids.len() - 1]);
        let t = *tables[ids.last()];
        lemma_range_pick_value(t, lower, upper, k);
        let before = range_picks(tables, init, lower, upper);
        match range_pick(t, lower, upper) {
            Some(s) => {
                assert(before.push(s).drop_last() =~= before);
            },
            None => {},
        }
    }
}

/// A range scan over sorted memtable scans and sorted tables yields, for each key within its
/// bounds, the key's newest value unless that is a deletion: the value of the first memtable
/// scan holding the key, or, when none does, that of the first table a read looks at holding
/// it (L0 from the latest, then level after level). Keys come once each, in increasing order.
pub proof fn lemma_scan_yields_newest(
    mem: Seq<Seq<(Seq<u8>, Seq<u8>)>>,
    tables: Map<usize, Arc<SsTable>>,
    ids: Seq<usize>,
    lower: KeyBoundView,
    upper: KeyBoundView,
    key: Seq<u8>,
)
    requires
        all_strictly_sorted(mem),
        tables_sorted(tables, ids),
        from_lower(lower, key),
        within(upper, key),
    ensures
        value_of(skip_deleted(lsm_stream(scan_run(mem, tables, ids, lower, upper), upper)), key) == match first_value(
            mem,
            key,
        ) {
            Some(v) => live_value(Some(v)),
            None => read_from_tables(tables, ids, key),
        },
        strictly_sorted(scan_run(mem, tables, ids, lower, upper)),
{
    let a = merge(mem);
    let picks = range_picks(tables, ids, lower, upper);
    let b = merge(picks);
    lemma_merge_sorted(mem);
    lemma_range_scan_sorted(tables, ids, lower, upper);
    lemma_range_picks_sorted(tables, ids, lower, upper);
    lemma_two_merge_sorted_union(a, b);
    let run = scan_run(mem, tables, ids, lower, upper);
    lemma_scan_stream_value(run, upper, key);
    let pair = seq![a, b];
    assert(pair[0] == a && pair[1] == b);
    assert(all_strictly_sorted(pair));
    lemma_merge_value(pair, key);
    assert(pair.drop_last() =~= seq![a]);
    assert(pair.last() == b);
    assert(seq![a].drop_last() =~= Seq::<Seq<(Seq<u8>, Seq<u8>)>>::empty());
    assert(seq![a].last() == a);
    assert(first_value(Seq::<Seq<(Seq<u8>, Seq<u8>)>>::empty(), key) is None);
    assert(first_value(seq![a], key) == value_of(a, key));
    assert(first_value(pair, key) == match value_of(a, key) {
        Some(v) => Some(v),
        None => value_of(b, key),
    });
    lemma_merge_value(mem, key);
    lemma_merge_value(picks, key);
    lemma_range_picks_value(tables, ids, lower, upper, key);
}

impl LsmStorageState {
    /// A copy of the state.
    pub fn snapshot(&self) -> (s: Self)
        ensures
            s.memtable == self.memtable,
            s.imm_memtables@ == self.imm_memtables@,
            s.l0_sstables@ == self.l0_sstables@,
            s.levels_spec() == self.levels_spec(),
            s.levels@.len() == self.levels@.len(),
            s.sstables@ == self.sstables@,
    {
        LsmStorageState {
            memtable: self.memtable,
            imm_memtables: copy_ids(&self.imm_memtables),
            l0_sstables: copy_ids(&self.l0_sstables),
            levels: copy_levels(&self.levels),
            sstables: self.sstables.clone(),
        }
    }

    /// The order in which a read looks at the tables: L0 from the latest, then the levels.
    pub open spec fn read_order(&self) -> Seq<usize> {
        self.l0_sstables@ + level_ids(self.levels_spec())
    }

    /// The ids of the tables in the order a read looks at them.
    fn read_order_ids(&self) -> (ids: Vec<usize>)
        ensures
            ids@ == self.read_order(),
    {
        let mut ids = copy_ids(&self.l0_sstables);
        let mut li: usize = 0;
        while li < self.levels.len()
            invariant
                li <= self.levels@.len(),
                ids@ == self.l0_sstables@ + level_ids(self.levels_spec().take(li as int)),
            decreases self.levels@.len() - li,
        {
            proof {
                let lv = self.levels_spec();
                assert(lv.take(li + 1).drop_last() =~= lv.take(li as int));
                assert(lv.take(li + 1).last() == lv[li as int]);
                assert(lv[li as int] == (self.levels@[li as int].0, self.levels@[li as int].1@));
            }
            append_ids(&mut ids, &self.levels[li].1);
            li = li + 1;
            proof {
                let lv = self.levels_spec();
                assert(ids@ =~= self.l0_sstables@ + level_ids(lv.take(li as int)));
            }
        }
        proof {
            assert(self.levels_spec().take(li as int) =~= self.levels_spec());
        }
        ids
    }

    /// Reads `key`: `memtable_lookups` holds what the current memtable and then each immutable
    /// memtable, from the latest, hold for the key; the first that holds it decides, an empty
    /// value reading as a deletion; when none does, the tables are read.
    pub fn get(&self, key: &[u8], memtable_lookups: &Vec<Option<Vec<u8>>>) -> (r: Result<
        Option<bytes::Bytes>,
        IteratorError,
    >)
        requires
            tables_readable(self.sstables@, self.read_order()),
        ensures
            r is Ok,
            match first_memtable_hit(lookups_view(memtable_lookups@)) {
                Some(v) => match r {
                    Ok(Some(b)) => v.len() > 0 && bytes_contents(b) == v,
                    Ok(None) => v.len() == 0,
                    Err(_) => false,
                },
                None => tables_sorted(self.sstables@, self.read_order()) ==> match r {
                    Ok(Some(b)) => read_from_tables(self.sstables@, self.read_order(), key@) == Some(
                        bytes_contents(b),
                    ),
                    Ok(None) => read_from_tables(self.sstables@, self.read_order(), key@) is None,
                    Err(_) => false,
                },
            },
    {
        let ghost lv = lookups_view(memtable_lookups@);
        proof {
            assert(lv.skip(0) =~= lv);
        }
        let mut i: usize = 0;
        while i < memtable_lookups.len()
            invariant
                i <= memtable_lookups@.len(),
                lv == lookups_view(memtable_lookups@),
                first_memtable_hit(lv) == first_memtable_hit(lv.skip(i as int)),
            decreases memtable_lookups@.len() - i,
        {
            let ghost rest = lv.skip(i as int);
            proof {
                assert(rest[0] == lv[i as int]);
                assert(rest.drop_first() =~= lv.skip(i + 1));
            }
            match &memtable_lookups[i] {
                Some(value) => {
                    if value.len() == 0 {
                        return Ok(None);
                    }
                    return Ok(Some(bytes_from_vec(vstd::slice::slice_to_vec(value.as_slice()))));
                },
                None => {},
            }
            i = i + 1;
        }
        proof {
            assert(lv.skip(i as int).len() == 0);
        }
        self.get_from_tables(key)
    }

    /// The iterator a scan between the bounds merges: `mem_iters` scans the memtables (the
    /// current one, then the immutable ones from the latest) and is merged first; the tables
    /// that the bounds select are merged second; the two merges are merged, the memtables
    /// winning on equal keys.
    pub fn get_twomerged_iter<M: StorageIterator>(
        &self,
        mem_iters: Vec<Box<M>>,
        lower: &KeyBound,
        upper: &KeyBound,
    ) -> (r: Result<TwoMergeIterator<MergeIterator<M>, MergeIterator<SsTableIterator>>, IteratorError>)
        requires
            forall|i: int| 0 <= i < mem_iters@.len() ==> (#[trigger] mem_iters@[i]).wf(),
            tables_readable(self.sstables@, self.read_order()),
        ensures
            r is Ok,
            r matches Ok(it) ==> {
                &&& it.wf()
                &&& it.iter_a().iters() == mem_iters@
                &&& it.iter_a().stream() == merge(it.iter_a().streams())
                &&& tables_sorted(self.sstables@, self.read_order()) ==> it.iter_b().streams() == range_picks(
                    self.sstables@,
                    self.read_order(),
                    lower@,
                    upper@,
                ) && it.iter_b().stream() == merge(it.iter_b().streams())
            },
    {
        let merge_memtable_iter = MergeIterator::create(mem_iters);
        let merge_sstable_iter = match self.tables_for_range(lower, upper) {
            Ok(it) => it,
            Err(e) => {
                return Err(e);
            },
        };
        TwoMergeIterator::create(merge_memtable_iter, merge_sstable_iter)
    }

    /// Creates an iterator over the keys between the bounds: the merged memtable scans and
    /// tables, up to the upper bound, moved past the deletions in front, and fused. It can
    /// fail only when a memtable scan fails to move on.
    pub fn scan<M: StorageIterator>(&self, mem_iters: Vec<Box<M>>, lower: &KeyBound, upper: &KeyBound) -> (r: Result<
        FusedIterator<LsmIterator<TwoMergeIterator<MergeIterator<M>, MergeIterator<SsTableIterator>>>>,
        IteratorError,
    >)
        requires
            forall|i: int| 0 <= i < mem_iters@.len() ==> (#[trigger] mem_iters@[i]).wf(),
            tables_readable(self.sstables@, self.read_order()),
            tables_sorted(self.sstables@, self.read_order()),
        ensures
            (forall|i: int| 0 <= i < mem_iters@.len() ==> (#[trigger] mem_iters@[i]).infallible()) ==> r is Ok,
            r matches Ok(it) ==> it.wf() && it.stream() == skip_deleted(
                lsm_stream(
                    scan_run(iter_streams(mem_iters@), self.sstables@, self.read_order(), lower@, upper@),
                    upper@,
                ),
            ),
    {
        let ghost mem = iter_streams(mem_iters@);
        let new_iter = match self.get_twomerged_iter(mem_iters, lower, upper) {
            Ok(it) => it,
            Err(e) => {
                return Err(e);
            },
        };
        proof {
            assert(new_iter.iter_a().streams() =~= mem);
        }
        let end_bound = copy_bound(upper);
        scan_iterator(new_iter, end_bound)
    }

    /// Reads `key` from the tables: each table, L0 from the latest and then level after
    /// level, is searched for its first entry at or after `key`; the tables that stand on
    /// `key` itself are merged, the first of them wins, and an empty value reads as a
    /// deletion. On sorted tables this is the value of the first table that holds the key.
    pub fn get_from_tables(&self, key: &[u8]) -> (r: Result<Option<bytes::Bytes>, IteratorError>)
        requires
            tables_readable(self.sstables@, self.read_order()),
        ensures
            r is Ok,
            tables_sorted(self.sstables@, self.read_order()) ==> match r {
                Ok(Some(b)) => read_from_tables(self.sstables@, self.read_order(), key@) == Some(bytes_contents(b)),
                Ok(None) => read_from_tables(self.sstables@, self.read_order(), key@) is None,
                Err(_) => false,
            },
    {
        let ids = self.read_order_ids();
        let ghost order = ids@;
        let ghost m = self.sstables@;
        let ghost sorted = tables_sorted(m, order);
        let mut iters: Vec<Box<SsTableIterator>> = Vec::new();
        let mut i: usize = 0;
        while i < ids.len()
            invariant
                i <= order.len(),
                ids@ == order,
                m == self.sstables@,
                order == self.read_order(),
                sorted == tables_sorted(m, order),
                tables_readable(m, order),
                forall|k: int|
                    0 <= k < iters@.len() ==> (#[trigger] iters@[k]).wf() && iters@[k].stream().len() > 0
                        && iters@[k].stream()[0].0 == key@,
                sorted ==> (iters@.len() == 0 <==> first_hit(m, order.take(i as int), key@) is None),
                sorted && iters@.len() > 0 ==> first_hit(m, order.take(i as int), key@) == Some(
                    iters@[0].stream()[0].1,
                ),
            decreases order.len() - i,
        {
            proof {
                assert(m.contains_key(order[i as int]) && m[order[i as int]].wf());
                assert(order.take(i + 1).drop_last() =~= order.take(i as int));
                assert(order.take(i + 1).last() == order[i as int]);
            }
            let table = table_of(self, ids[i]).clone();
            let it = match SsTableIterator::create_and_seek_to_key(table, key) {
                Ok(it) => it,
                Err(e) => {
                    return Err(e);
                },
            };
            proof {
                if sorted {
                    assert(table_sorted(table_with_id(m, order[i as int])));
                }
            }
            if it.is_valid() && key_equal(it.key(), key) {
                let ghost before = iters@;
                iters.push(Box::new(it));
                proof {
                    assert forall|k: int| 0 <= k < iters@.len() implies (#[trigger] iters@[k]).wf()
                        && iters@[k].stream().len() > 0 && iters@[k].stream()[0].0 == key@ by {
                        if k < before.len() {
                            assert(iters@[k] == before[k]);
                        }
                    }
                }
            }
            i = i + 1;
        }
        proof {
            assert(order.take(i as int) =~= order);
        }
        let ghost kept = iters@;
        let merged = MergeIterator::create(iters);
        proof {
            if kept.len() > 0 {
                let ss = merged.streams();
                assert forall|k: int| 0 <= k < ss.len() implies (#[trigger] ss[k]).len() > 0 && ss[k][0].0 == key@ by {
                    assert(ss[k] == kept[k].stream());
                }
                lemma_merge_equal_heads(ss, key@);
                assert(ss[0] == kept[0].stream());
            } else {
                assert(merged.streams().len() == 0);
                assert(head_min(merged.streams(), 0) is None);
            }
        }
        if merged.is_valid() && key_equal(merged.key(), key) {
            let value = merged.value();
            if value.len() == 0 {
                return Ok(None);
            } else {
                return Ok(Some(bytes_from_vec(vstd::slice::slice_to_vec(value))));
            }
        }
        Ok(None)
    }

    /// Whether a table starting at `first` may hold keys within the upper bound.
    fn table_starts_within(upper: &KeyBound, first: &[u8]) -> (r: bool)
        ensures
            r == starts_within(upper@, first@),
    {
        match upper {
            KeyBound::Included(u) => !key_less(u.as_slice(), first),
            KeyBound::Excluded(u) => key_less(first, u.as_slice()),
            KeyBound::Unbounded => true,
        }
    }

    /// The iterator a scan takes from one table, if it takes one.
    fn range_iter(table: Arc<SsTable>, lower: &KeyBound, upper: &KeyBound) -> (r: Result<
        Option<SsTableIterator>,
        IteratorError,
    >)
        requires
            table.wf(),
        ensures
            r is Ok,
            r matches Ok(Some(it)) ==> it.wf(),
            table_sorted(*table) ==> match r {
                Ok(Some(it)) => range_pick(*table, lower@, upper@) == Some(it.stream()),
                Ok(None) => range_pick(*table, lower@, upper@) is None,
                Err(_) => false,
            },
    {
        let ghost t = shared_table(table);
        if !Self::table_starts_within(upper, table.first_key()) {
            return Ok(None);
        }
        match lower {
            KeyBound::Included(l) => {
                let it = match SsTableIterator::create_and_seek_to_key(table, l.as_slice()) {
                    Ok(it) => it,
                    Err(e) => {
                        return Err(e);
                    },
                };
                if it.is_valid() {
                    Ok(Some(it))
                } else {
                    Ok(None)
                }
            },
            KeyBound::Excluded(l) => {
                let mut it = match SsTableIterator::create_and_seek_to_key(table, l.as_slice()) {
                    Ok(it) => it,
                    Err(e) => {
                        return Err(e);
                    },
                };
                if it.is_valid() && key_equal(it.key(), l.as_slice()) {
                    match it.next() {
                        Ok(()) => {},
                        Err(e) => {
                            return Err(e);
                        },
                    }
                }
                if it.is_valid() {
                    Ok(Some(it))
                } else {
                    Ok(None)
                }
            },
            KeyBound::Unbounded => {
                let it = match SsTableIterator::create_and_seek_to_first(table) {
                    Ok(it) => it,
                    Err(e) => {
                        return Err(e);
                    },
                };
                if it.is_valid() {
                    Ok(Some(it))
                } else {
                    Ok(None)
                }
            },
        }
    }

    /// The tables a scan between the bounds reads, merged: each table, L0 from the latest and
    /// then level after level, that may hold keys within the bounds, positioned at the lower
    /// bound, and kept if it stands within it.
    pub fn tables_for_range(&self, lower: &KeyBound, upper: &KeyBound) -> (r: Result<
        MergeIterator<SsTableIterator>,
        IteratorError,
    >)
        requires
            tables_readable(self.sstables@, self.read_order()),
        ensures
            r is Ok,
            r matches Ok(it) ==> it.wf(),
            tables_sorted(self.sstables@, self.read_order()) ==> (r matches Ok(it) && it.streams() == range_picks(
                self.sstables@,
                self.read_order(),
                lower@,
                upper@,
            ) && it.stream() == merge(it.streams()) && strictly_sorted(it.stream())),
    {
        let ids = self.read_order_ids();
        let ghost order = ids@;
        let ghost m = self.sstables@;
        let ghost sorted = tables_sorted(m, order);
        let mut iters: Vec<Box<SsTableIterator>> = Vec::new();
        let mut i: usize = 0;
        while i < ids.len()
            invariant
                i <= order.len(),
                ids@ == order,
                m == self.sstables@,
                order == self.read_order(),
                sorted == tables_sorted(m, order),
                tables_readable(m, order),
                forall|k: int| 0 <= k < iters@.len() ==> (#[trigger] iters@[k]).wf(),
                sorted ==> iters@.map_values(|b: Box<SsTableIterator>| b.stream()) == range_picks(
                    m,
                    order.take(i as int),
                    lower@,
                    upper@,
                ),
            decreases order.len() - i,
        {
            proof {
                assert(m.contains_key(order[i as int]) && m[order[i as int]].wf());
                assert(order.take(i + 1).drop_last() =~= order.take(i as int));
                assert(order.take(i + 1).last() == order[i as int]);
                if sorted {
                    assert(table_sorted(table_with_id(m, order[i as int])));
                }
            }
            let table = table_of(self, ids[i]).clone();
            let picked = match Self::range_iter(table, lower, upper) {
                Ok(p) => p,
                Err(e) => {
                    return Err(e);
                },
            };
            match picked {
                Some(it) => {
                    let ghost before = iters@;
                    iters.push(Box::new(it));
                    proof {
                        assert forall|k: int| 0 <= k < iters@.len() implies (#[trigger] iters@[k]).wf() by {
                            if k < before.len() {
                                assert(iters@[k] == before[k]);
                            }
                        }
                        if sorted {
                            assert(iters@.map_values(|b: Box<SsTableIterator>| b.stream()) =~= before.map_values(
                                |b: Box<SsTableIterator>| b.stream(),
                            ).push(it.stream()));
                        }
                    }
                },
                None => {},
            }
            i = i + 1;
        }
        proof {
            assert(order.take(i as int) =~= order);
        }
        let ghost kept = iters@;
        let merged = MergeIterator::create(iters);
        proof {
            if sorted {
                assert(merged.streams() =~= kept.map_values(|b: Box<SsTableIterator>| b.stream()));
                lemma_range_scan_sorted(m, order, lower@, upper@);
            }
        }
        Ok(merged)
    }

    /// The state after freezing the current memtable: `new_memtable` becomes the current one
    /// and the old one the latest immutable memtable.
    pub fn force_freeze_memtable(&self, new_memtable: usize) -> (s: Self)
        ensures
            s.memtable == new_memtable,
            s.imm_memtables@ == seq![self.memtable] + self.imm_memtables@,
            s.l0_sstables@ == self.l0_sstables@,
            s.levels_spec() == self.levels_spec(),
            s.sstables@ == self.sstables@,
    {
        let mut imm_memtables: Vec<usize> = Vec::new();
        imm_memtables.push(self.memtable);
        append_ids(&mut imm_memtables, &self.imm_memtables);
        LsmStorageState {
            memtable: new_memtable,
            imm_memtables,
            l0_sstables: copy_ids(&self.l0_sstables),
            levels: copy_levels(&self.levels),
            sstables: self.sstables.clone(),
        }
    }

    /// The earliest immutable memtable, the next to be flushed, if there is one.
    pub fn next_imm_memtable(&self) -> (r: Option<usize>)
        ensures
            r == if self.imm_memtables@.len() == 0 {
                None::<usize>
            } else {
                Some(self.imm_memtables@.last())
            },
    {
        if self.imm_memtables.len() == 0 {
            None
        } else {
            Some(self.imm_memtables[self.imm_memtables.len() - 1])
        }
    }

    /// The state after flushing the earliest immutable memtable into `sst`: the memtable
    /// leaves the immutable ones and its id becomes the latest L0 table, mapped to `sst`.
    /// Without immutable memtables the state stays as it is.
    pub fn force_flush_next_imm_memtable(&self, sst: Arc<SsTable>) -> (s: Self)
        ensures
            s.memtable == self.memtable,
            s.levels_spec() == self.levels_spec(),
            self.imm_memtables@.len() == 0 ==> {
                &&& s.imm_memtables@ == self.imm_memtables@
                &&& s.l0_sstables@ == self.l0_sstables@
                &&& s.sstables@ == self.sstables@
            },
            self.imm_memtables@.len() > 0 ==> {
                let id = self.imm_memtables@.last();
                &&& s.imm_memtables@ == self.imm_memtables@.drop_last()
                &&& s.l0_sstables@ == seq![id] + self.l0_sstables@
                &&& s.sstables@ == self.sstables@.insert(id, sst)
            },
    {
        let mut s = self.snapshot();
        match s.imm_memtables.pop() {
            Some(id) => {
                let mut l0: Vec<usize> = Vec::new();
                l0.push(id);
                append_ids(&mut l0, &self.l0_sstables);
                s.l0_sstables = l0;
                s.sstables.insert(id, sst);
            },
            None => {},
        }
        s
    }

    /// A flush is due once the immutable memtables reach the limit.
    /// What a forced flush does: whether it freezes the memtable (when the memtable holds
    /// data) and whether it then flushes the earliest immutable memtable (when there is one
    /// after the freeze).
    pub fn force_flush_plan(&self, memtable_is_empty: bool) -> (r: (bool, bool))
        ensures
            r.0 == !memtable_is_empty,
            r.1 == (!memtable_is_empty || self.imm_memtables@.len() > 0),
    {
        let freeze = !memtable_is_empty;
        let flush = freeze || self.imm_memtables.len() > 0;
        (freeze, flush)
    }

    /// Whether the flush of an immutable memtable is due: their number has reached the limit.
    pub fn should_flush(&self, num_memtable_limit: usize) -> (r: bool)
        ensures
            r == (self.imm_memtables@.len() >= num_memtable_limit),
    {
        self.imm_memtables.len() >= num_memtable_limit
    }

    /// The task of a full compaction: all of L0 and all of L1.
    pub fn full_compaction_task(&self) -> (t: CompactionTask)
        requires
            self.levels@.len() > 0,
        ensures
            t matches CompactionTask::ForceFullCompaction { l0_sstables, l1_sstables } && l0_sstables@
                == self.l0_sstables@ && l1_sstables@ == self.levels@[0].1@,
    {
        CompactionTask::ForceFullCompaction {
            l0_sstables: copy_ids(&self.l0_sstables),
            l1_sstables: copy_ids(&self.levels[0].1),
        }
    }

    /// The tables a full compaction merges: those of the L0 ids the state knows, in order,
    /// and those of the L1 ids it knows, sorted by first key.
    pub fn full_compaction_inputs(&self, l0_ids: &Vec<usize>, l1_ids: &Vec<usize>) -> (r: (
        Vec<Arc<SsTable>>,
        Vec<Arc<SsTable>>,
    ))
        ensures
            r.0@ == tables_of(self.sstables@, known_ids(self.sstables@, l0_ids@)),
            r.1@ == tables_of(
                self.sstables@,
                sort_by_first(self.sstables@, known_ids(self.sstables@, l1_ids@)),
            ),
    {
        let l0_known = self.known(l0_ids);
        let l1_known = self.known(l1_ids);
        let l1_sorted = sort_ids_by_first_key(self, &l1_known);
        proof {
            lemma_sort_by_first_known(self.sstables@, l1_known@);
        }
        (self.tables_for(&l0_known), self.tables_for(&l1_sorted))
    }

    /// The ids that the state knows, in order.
    fn known(&self, ids: &Vec<usize>) -> (r: Vec<usize>)
        ensures
            r@ == known_ids(self.sstables@, ids@),
            all_known(self.sstables@, r@),
    {
        let mut r: Vec<usize> = Vec::new();
        let mut i: usize = 0;
        while i < ids.len()
            invariant
                i <= ids@.len(),
                r@ == known_ids(self.sstables@, ids@.take(i as int)),
                all_known(self.sstables@, r@),
            decreases ids@.len() - i,
        {
            proof {
                assert(ids@.take(i + 1).drop_last() =~= ids@.take(i as int));
            }
            if self.sstables.contains_key(&ids[i]) {
                r.push(ids[i]);
            }
            i = i + 1;
        }
        proof {
            assert(ids@.take(i as int) =~= ids@);
        }
        r
    }

    /// The tables of ids the state knows.
    fn tables_for(&self, ids: &Vec<usize>) -> (r: Vec<Arc<SsTable>>)
        requires
            all_known(self.sstables@, ids@),
        ensures
            r@ == tables_of(self.sstables@, ids@),
    {
        let mut r: Vec<Arc<SsTable>> = Vec::new();
        let mut i: usize = 0;
        while i < ids.len()
            invariant
                i <= ids@.len(),
                all_known(self.sstables@, ids@),
                r@ == tables_of(self.sstables@, ids@.take(i as int)),
            decreases ids@.len() - i,
        {
            r.push(table_of(self, ids[i]).clone());
            i = i + 1;
            proof {
                assert(r@ =~= tables_of(self.sstables@, ids@.take(i as int)));
            }
        }
        proof {
            assert(ids@.take(i as int) =~= ids@);
        }
        r
    }

    /// The state after a full compaction of `l0_ids` and `l1_ids` into `compacted`: L0 loses
    /// the compacted tables and keeps any others, L1 holds the compacted tables, the old ids leave the table map and the
    /// compacted tables enter it. Also gives the ids made obsolete, L0 first.
    pub fn apply_full_compaction(
        &self,
        l0_ids: &Vec<usize>,
        l1_ids: &Vec<usize>,
        compacted: &Vec<Arc<SsTable>>,
    ) -> (r: (Self, Vec<usize>))
        requires
            self.levels@.len() > 0,
        ensures
            r.0.memtable == self.memtable,
            r.0.imm_memtables@ == self.imm_memtables@,
            r.0.l0_sstables@ == remove_all(self.l0_sstables@, l0_ids@),
            r.0.levels_spec() == self.levels_spec().update(0, (self.levels@[0].0, ids_of(compacted@))),
            r.0.sstables@ == insert_tables(remove_keys(self.sstables@, l0_ids@ + l1_ids@), compacted@),
            r.1@ == l0_ids@ + l1_ids@,
    {
        let mut removed = copy_ids(l0_ids);
        append_ids(&mut removed, l1_ids);
        let mut new_l1: Vec<usize> = Vec::new();
        let mut i: usize = 0;
        while i < compacted.len()
            invariant
                i <= compacted@.len(),
                new_l1@ == ids_of(compacted@.take(i as int)),
            decreases compacted@.len() - i,
        {
            new_l1.push(compacted[i].sst_id());
            i = i + 1;
            proof {
                assert(new_l1@ =~= ids_of(compacted@.take(i as int)));
            }
        }
        proof {
            assert(compacted@.take(i as int) =~= compacted@);
        }
        let mut s = self.snapshot();
        s.l0_sstables = remove_ids(&self.l0_sstables, l0_ids);
        let level_id = s.levels[0].0;
        let ghost before = s.levels@;
        s.levels.set(0, (level_id, new_l1));
        proof {
            assert(levels_view(before)[0] == (before[0].0, before[0].1@));
            assert(self.levels_spec()[0] == (self.levels@[0].0, self.levels@[0].1@));
            assert forall|k: int| 0 <= k < before.len() && k != 0 implies #[trigger] s.levels_spec()[k]
                == self.levels_spec()[k] by {
                assert(levels_view(before)[k] == (before[k].0, before[k].1@));
            }
            assert(s.levels_spec() =~= self.levels_spec().update(0, (self.levels@[0].0, ids_of(compacted@))));
        }
        let ghost start = s.sstables@;
        let mut j: usize = 0;
        while j < removed.len()
            invariant
                j <= removed@.len(),
                s.sstables@ == remove_keys(start, removed@.take(j as int)),
                s.memtable == self.memtable,
                s.imm_memtables@ == self.imm_memtables@,
                s.l0_sstables@ == remove_all(self.l0_sstables@, l0_ids@),
                s.levels_spec() == self.levels_spec().update(0, (self.levels@[0].0, ids_of(compacted@))),
            decreases removed@.len() - j,
        {
            proof {
                assert(removed@.take(j + 1).drop_last() =~= removed@.take(j as int));
            }
            s.sstables.remove(&removed[j]);
            j = j + 1;
        }
        proof {
            assert(removed@.take(j as int) =~= removed@);
        }
        let ghost after_removal = s.sstables@;
        let mut k: usize = 0;
        while k < compacted.len()
            invariant
                k <= compacted@.len(),
                s.sstables@ == insert_tables(after_removal, compacted@.take(k as int)),
                s.memtable == self.memtable,
                s.imm_memtables@ == self.imm_memtables@,
                s.l0_sstables@ == remove_all(self.l0_sstables@, l0_ids@),
                s.levels_spec() == self.levels_spec().update(0, (self.levels@[0].0, ids_of(compacted@))),
            decreases compacted@.len() - k,
        {
            proof {
                assert(compacted@.take(k + 1).drop_last() =~= compacted@.take(k as int));
            }
            let t = compacted[k].clone();
            s.sstables.insert(t.sst_id(), t);
            k = k + 1;
        }
        proof {
            assert(compacted@.take(k as int) =~= compacted@);
        }
        (s, removed)
    }
}

/// Levels `1..=max_levels`, all empty.
fn empty_levels(max_levels: usize) -> (v: Vec<(usize, Vec<usize>)>)
    ensures
        levels_view(v@) == Seq::new(
            max_levels as nat,
            |i: int| ((i + 1) as usize, Seq::<usize>::empty()),
        ),
{
    let mut v: Vec<(usize, Vec<usize>)> = Vec::new();
    let mut level: usize = 0;
    while level < max_levels
        invariant
            level <= max_levels,
            v@.len() == level,
            forall|k: int| 0 <= k < level ==> (#[trigger] v@[k]).0 == k + 1 && v@[k].1@ == Seq::<usize>::empty(),
        decreases max_levels - level,
    {
        v.push((level + 1, Vec::new()));
        level = level + 1;
    }
    proof {
        assert(levels_view(v@) =~= Seq::new(
            max_levels as nat,
            |i: int| ((i + 1) as usize, Seq::<usize>::empty()),
        ));
    }
    v
}

/// A filter applied to the entries a compaction writes.
#[derive(Debug)]
pub enum CompactionFilter {
    /// Drops the keys with this prefix.
    Prefix(bytes::Bytes),
}

/// One write of a batch: a put of a key and a value, or a delete of a key.
pub enum WriteBatchRecord<T> {
    Put(T, T),
    Del(T),
}

/// The options of the storage engine.
#[derive(Clone, Copy, Debug)]
pub struct LsmStorageOptions {
    /// Block size in bytes
    pub block_size: usize,
    /// SST size in bytes, also the approximate memtable capacity limit
    pub target_sst_size: usize,
    /// Maximum number of memtables in memory, flush to L0 when exceeding this limit
    pub num_memtable_limit: usize,
    pub compaction_options: CompactionOptions,
    pub enable_wal: bool,
    pub serializable: bool,
}

impl LsmStorageOptions {
    pub fn default_for_week1_test() -> (o: Self)
        ensures
            o.block_size == 4096,
            o.target_sst_size == 2097152,
            o.compaction_options == CompactionOptions::NoCompaction,
            !o.enable_wal,
            o.num_memtable_limit == 50,
            !o.serializable,
    {
        assert((2usize << 20usize) == 2097152usize) by (bit_vector);
        Self {
            block_size: 4096,
            target_sst_size: 2 << 20,
            compaction_options: CompactionOptions::NoCompaction,
            enable_wal: false,
            num_memtable_limit: 50,
            serializable: false,
        }
    }

    pub fn default_for_week1_day6_test() -> (o: Self)
        ensures
            o.block_size == 4096,
            o.target_sst_size == 2097152,
            o.compaction_options == CompactionOptions::NoCompaction,
            !o.enable_wal,
            o.num_memtable_limit == 2,
            !o.serializable,
    {
        assert((2usize << 20usize) == 2097152usize) by (bit_vector);
        Self {
            block_size: 4096,
            target_sst_size: 2 << 20,
            compaction_options: CompactionOptions::NoCompaction,
            enable_wal: false,
            num_memtable_limit: 2,
            serializable: false,
        }
    }

    pub fn default_for_week2_test(compaction_options: CompactionOptions) -> (o: Self)
        ensures
            o.block_size == 4096,
            o.target_sst_size == 1048576,
            o.compaction_options == compaction_options,
            !o.enable_wal,
            o.num_memtable_limit == 2,
            !o.serializable,
    {
        assert((1usize << 20usize) == 1048576usize) by (bit_vector);
        Self {
            block_size: 4096,
            target_sst_size: 1 << 20,
            compaction_options,
            enable_wal: false,
            num_memtable_limit: 2,
            serializable: false,
        }
    }
}

} // verus!
