//! Leveled compaction with dynamic level sizes: each level has a target size derived from the
//! bottom level; L0 is merged into the first level with a target, and otherwise the level
//! that exceeds its target the most is merged, a few tables at a time, into the next one.
use std::collections::HashMap;
use std::sync::Arc;
use vstd::prelude::*;

use crate::compact::simple_leveled::{l0_after_compaction, levels_after_compaction, LevelTaskView};
use crate::compact::{append_ids, copy_ids, copy_levels, remove_all, remove_ids};
use crate::key::{
    key_le, key_less, key_lt, lemma_key_le_transitive, lemma_key_lt_transitive, lemma_key_trichotomy,
};
use crate::lsm_storage::{levels_view, LsmStorageState};
use crate::table::SsTable;

verus! {

broadcast use vstd::std_specs::hash::group_hash_axioms;

#[derive(Debug)]
pub struct LeveledCompactionTask {
    /// if upper_level is `None`, then it is L0 compaction
    pub upper_level: Option<usize>,
    pub upper_level_sst_ids: Vec<usize>,
    pub lower_level: usize,
    pub lower_level_sst_ids: Vec<usize>,
    pub is_lower_level_bottom_level: bool,
}

impl View for LeveledCompactionTask {
    type V = LevelTaskView;

    open spec fn view(&self) -> LevelTaskView {
        LevelTaskView {
            upper_level: self.upper_level,
            upper_level_sst_ids: self.upper_level_sst_ids@,
            lower_level: self.lower_level,
            lower_level_sst_ids: self.lower_level_sst_ids@,
            is_lower_level_bottom_level: self.is_lower_level_bottom_level,
        }
    }
}

#[derive(Clone, Copy, Debug)]
pub struct LeveledCompactionOptions {
    pub level_size_multiplier: usize,
    pub level0_file_num_compaction_trigger: usize,
    pub max_levels: usize,
    pub base_level_size_mb: usize,
}

/// One megabyte.
pub const MB: usize = 1048576;

/// The first key of table `id`.
pub open spec fn first_of(tables: Map<usize, Arc<SsTable>>, id: usize) -> Seq<u8> {
    tables[id].first_key@
}

/// The last key of table `id`.
pub open spec fn last_of(tables: Map<usize, Arc<SsTable>>, id: usize) -> Seq<u8> {
    tables[id].last_key@
}

/// The smallest first key among the tables.
pub open spec fn min_first(tables: Map<usize, Arc<SsTable>>, ids: Seq<usize>) -> Seq<u8>
    decreases ids.len(),
{
    if ids.len() <= 1 {
        first_of(tables, ids[0])
    } else {
        let m = min_first(tables, ids.drop_last());
        let f = first_of(tables, ids.last());
        if key_lt(f, m) {
            f
        } else {
            m
        }
    }
}

/// The largest last key among the tables.
pub open spec fn max_last(tables: Map<usize, Arc<SsTable>>, ids: Seq<usize>) -> Seq<u8>
    decreases ids.len(),
{
    if ids.len() <= 1 {
        last_of(tables, ids[0])
    } else {
        let m = max_last(tables, ids.drop_last());
        let l = last_of(tables, ids.last());
        if key_le(m, l) {
            l
        } else {
            m
        }
    }
}

/// Table `id` overlaps the key range `[lo, hi]`.
pub open spec fn overlaps(tables: Map<usize, Arc<SsTable>>, id: usize, lo: Seq<u8>, hi: Seq<u8>) -> bool {
    key_le(lo, last_of(tables, id)) && key_le(first_of(tables, id), hi)
}

/// The tables among `ids` that overlap `[lo, hi]`, in order.
pub open spec fn overlapping(tables: Map<usize, Arc<SsTable>>, ids: Seq<usize>, lo: Seq<u8>, hi: Seq<u8>) -> Seq<
    usize,
>
    decreases ids.len(),
{
    if ids.len() == 0 {
        Seq::empty()
    } else {
        let before = overlapping(tables, ids.drop_last(), lo, hi);
        if overlaps(tables, ids.last(), lo, hi) {
            before.push(ids.last())
        } else {
            before
        }
    }
}

/// The first key of the range the tables cover, computed as the scan does: an empty key
/// counts as "none yet".
pub open spec fn range_first(tables: Map<usize, Arc<SsTable>>, ids: Seq<usize>) -> Seq<u8>
    decreases ids.len(),
{
    if ids.len() == 0 {
        Seq::empty()
    } else {
        let r = range_first(tables, ids.drop_last());
        let f = first_of(tables, ids.last());
        if r.len() == 0 || key_le(f, r) {
            f
        } else {
            r
        }
    }
}

/// The last key of the range the tables cover, computed as the scan does.
pub open spec fn range_last(tables: Map<usize, Arc<SsTable>>, ids: Seq<usize>) -> Seq<u8>
    decreases ids.len(),
{
    if ids.len() == 0 {
        Seq::empty()
    } else {
        let r = range_last(tables, ids.drop_last());
        let l = last_of(tables, ids.last());
        if r.len() == 0 || key_le(r, l) {
            l
        } else {
            r
        }
    }
}

/// The tables of `lower` that overlap the range of `upper`, with the first and last key of the
/// range those cover; `None` when `upper` is empty.
pub open spec fn overlap_spec(tables: Map<usize, Arc<SsTable>>, upper: Seq<usize>, lower: Seq<usize>) -> Option<
    (Seq<usize>, Seq<u8>, Seq<u8>),
> {
    if upper.len() == 0 {
        None
    } else {
        let found = overlapping(tables, lower, min_first(tables, upper), max_last(tables, upper));
        Some((found, range_first(tables, found), range_last(tables, found)))
    }
}

/// Every table named by `ids` is in the map.
pub open spec fn all_known(tables: Map<usize, Arc<SsTable>>, ids: Seq<usize>) -> bool {
    forall|i: int| 0 <= i < ids.len() ==> tables.contains_key(#[trigger] ids[i])
}

/// The smallest first key is the first key of one of the tables and is at most every one of
/// them.
pub proof fn lemma_min_first(tables: Map<usize, Arc<SsTable>>, ids: Seq<usize>) -> (j: int)
    requires
        ids.len() > 0,
    ensures
        0 <= j < ids.len(),
        min_first(tables, ids) == first_of(tables, ids[j]),
        forall|i: int| 0 <= i < ids.len() ==> key_le(min_first(tables, ids), first_of(tables, #[trigger] ids[i])),
    decreases ids.len(),
{
    if ids.len() == 1 {
        0
    } else {
        let init = ids.drop_last();
        let j0 = lemma_min_first(tables, init);
        let m = min_first(tables, init);
        let f = first_of(tables, ids.last());
        lemma_key_trichotomy(f, m);
        assert forall|i: int| 0 <= i < ids.len() implies key_le(min_first(tables, ids), first_of(tables, #[trigger] ids[i])) by {
            if i < ids.len() - 1 {
                assert(ids[i] == init[i]);
                if key_lt(f, m) {
                    lemma_key_le_transitive(f, m, first_of(tables, ids[i]));
                }
            }
        }
        if key_lt(f, m) {
            ids.len() - 1
        } else {
            j0
        }
    }
}

/// The largest last key is the last key of one of the tables and is at least every one of
/// them.
pub proof fn lemma_max_last(tables: Map<usize, Arc<SsTable>>, ids: Seq<usize>) -> (j: int)
    requires
        ids.len() > 0,
    ensures
        0 <= j < ids.len(),
        max_last(tables, ids) == last_of(tables, ids[j]),
        forall|i: int| 0 <= i < ids.len() ==> key_le(last_of(tables, #[trigger] ids[i]), max_last(tables, ids)),
    decreases ids.len(),
{
    if ids.len() == 1 {
        0
    } else {
        let init = ids.drop_last();
        let j0 = lemma_max_last(tables, init);
        let m = max_last(tables, init);
        let l = last_of(tables, ids.last());
        lemma_key_trichotomy(m, l);
        assert forall|i: int| 0 <= i < ids.len() implies key_le(last_of(tables, #[trigger] ids[i]), max_last(tables, ids)) by {
            if i < ids.len() - 1 {
                assert(ids[i] == init[i]);
                if key_le(m, l) {
                    lemma_key_le_transitive(last_of(tables, ids[i]), m, l);
                }
            }
        }
        if key_le(m, l) {
            ids.len() - 1
        } else {
            j0
        }
    }
}

/// The tables `overlapping` keeps are exactly those of `ids` that overlap the range, and
/// there are no more of them than of `ids`.
pub proof fn lemma_overlapping(tables: Map<usize, Arc<SsTable>>, ids: Seq<usize>, lo: Seq<u8>, hi: Seq<u8>)
    ensures
        overlapping(tables, ids, lo, hi).len() <= ids.len(),
        forall|x: usize|
            #[trigger] overlapping(tables, ids, lo, hi).contains(x) <==> (ids.contains(x) && overlaps(
                tables,
                x,
                lo,
                hi,
            )),
    decreases ids.len(),
{
    if ids.len() > 0 {
        let init = ids.drop_last();
        lemma_overlapping(tables, init, lo, hi);
        let before = overlapping(tables, init, lo, hi);
        assert forall|x: usize| #[trigger] overlapping(tables, ids, lo, hi).contains(x) <==> (ids.contains(x)
            && overlaps(tables, x, lo, hi)) by {
            if ids.contains(x) && overlaps(tables, x, lo, hi) {
                let i = choose|i: int| 0 <= i < ids.len() && ids[i] == x;
                if i < ids.len() - 1 {
                    assert(init[i] == x);
                    assert(before.contains(x));
                    if overlaps(tables, ids.last(), lo, hi) {
                        let k = choose|k: int| 0 <= k < before.len() && before[k] == x;
                        assert(before.push(ids.last())[k] == x);
                    }
                } else {
                    assert(before.push(ids.last())[before.len() as int] == x);
                }
            }
            if overlapping(tables, ids, lo, hi).contains(x) {
                if overlaps(tables, ids.last(), lo, hi) && x == ids.last() {
                    assert(ids[ids.len() - 1] == x);
                } else {
                    let k = choose|k: int| 0 <= k < overlapping(tables, ids, lo, hi).len() && overlapping(tables, ids, lo, hi)[k] == x;
                    if overlaps(tables, ids.last(), lo, hi) {
                        if k == before.len() {
                            assert(ids[ids.len() - 1] == x);
                        } else {
                            assert(before[k] == x);
                        }
                    } else {
                        assert(before[k] == x);
                    }
                    assert(before.contains(x));
                    assert(init.contains(x));
                    let i = choose|i: int| 0 <= i < init.len() && init[i] == x;
                    assert(ids[i] == x);
                }
            }
        }
    }
}

/// Widening the range keeps at least as many tables.
pub proof fn lemma_overlapping_len_mono(
    tables: Map<usize, Arc<SsTable>>,
    ids: Seq<usize>,
    lo: Seq<u8>,
    hi: Seq<u8>,
    lo2: Seq<u8>,
    hi2: Seq<u8>,
)
    requires
        key_le(lo2, lo),
        key_le(hi, hi2),
    ensures
        overlapping(tables, ids, lo, hi).len() <= overlapping(tables, ids, lo2, hi2).len(),
    decreases ids.len(),
{
    if ids.len() > 0 {
        lemma_overlapping_len_mono(tables, ids.drop_last(), lo, hi, lo2, hi2);
        lemma_overlaps_widen(tables, ids.last(), lo, hi, lo2, hi2);
    }
}

/// A table that overlaps a range overlaps every wider range.
pub proof fn lemma_overlaps_widen(
    tables: Map<usize, Arc<SsTable>>,
    id: usize,
    lo: Seq<u8>,
    hi: Seq<u8>,
    lo2: Seq<u8>,
    hi2: Seq<u8>,
)
    requires
        key_le(lo2, lo),
        key_le(hi, hi2),
    ensures
        overlaps(tables, id, lo, hi) ==> overlaps(tables, id, lo2, hi2),
{
    if overlaps(tables, id, lo, hi) {
        lemma_key_le_transitive(lo2, lo, last_of(tables, id));
        lemma_key_le_transitive(first_of(tables, id), hi, hi2);
    }
}

/// Every table of `ids` has non-empty first and last keys.
pub open spec fn keys_nonempty(tables: Map<usize, Arc<SsTable>>, ids: Seq<usize>) -> bool {
    forall|i: int|
        0 <= i < ids.len() ==> first_of(tables, #[trigger] ids[i]).len() > 0 && last_of(tables, ids[i]).len() > 0
}

/// With non-empty keys, the scanned range is the smallest first key and largest last key.
pub proof fn lemma_range_is_hull(tables: Map<usize, Arc<SsTable>>, ids: Seq<usize>)
    requires
        ids.len() > 0,
        keys_nonempty(tables, ids),
    ensures
        range_first(tables, ids) == min_first(tables, ids),
        range_last(tables, ids) == max_last(tables, ids),
    decreases ids.len(),
{
    let init = ids.drop_last();
    assert(first_of(tables, ids[ids.len() - 1]).len() > 0);
    if ids.len() > 1 {
        assert forall|i: int| 0 <= i < init.len() implies first_of(tables, #[trigger] init[i]).len() > 0 && last_of(
            tables,
            init[i],
        ).len() > 0 by {
            assert(init[i] == ids[i]);
        }
        lemma_range_is_hull(tables, init);
        let m = min_first(tables, init);
        let f = first_of(tables, ids.last());
        let ml = max_last(tables, init);
        let l = last_of(tables, ids.last());
        lemma_key_trichotomy(f, m);
        lemma_key_trichotomy(ml, l);
        let j = lemma_min_first(tables, init);
        let k = lemma_max_last(tables, init);
        assert(first_of(tables, init[j]).len() > 0);
        assert(last_of(tables, init[k]).len() > 0);
        assert(range_first(tables, init).len() > 0);
        assert(range_last(tables, init).len() > 0);
        assert(range_first(tables, ids) == min_first(tables, ids));
        assert(range_last(tables, ids) == max_last(tables, ids));
    } else {
        assert(init.len() == 0);
        assert(range_first(tables, init) == Seq::<u8>::empty());
        assert(range_last(tables, init) == Seq::<u8>::empty());
    }
}

/// Growing a set of tables can only widen its hull.
pub proof fn lemma_hull_grows(tables: Map<usize, Arc<SsTable>>, small: Seq<usize>, big: Seq<usize>)
    requires
        small.len() > 0,
        forall|x: usize| small.contains(x) ==> #[trigger] big.contains(x),
    ensures
        big.len() > 0,
        key_le(min_first(tables, big), min_first(tables, small)),
        key_le(max_last(tables, small), max_last(tables, big)),
{
    let j = lemma_min_first(tables, small);
    let k = lemma_max_last(tables, small);
    assert(small.contains(small[j]));
    assert(small.contains(small[k]));
    assert(big.contains(small[j]));
    assert(big.contains(small[k]));
    let bj = choose|i: int| 0 <= i < big.len() && big[i] == small[j];
    let bk = choose|i: int| 0 <= i < big.len() && big[i] == small[k];
    lemma_min_first(tables, big);
    lemma_max_last(tables, big);
    assert(key_le(min_first(tables, big), first_of(tables, big[bj])));
    assert(key_le(last_of(tables, big[bk]), max_last(tables, big)));
}

/// The targets the scan from the bottom level up assigns, from index `i` down, with `cur` the
/// target for index `i`: above the base size each level gets `cur` and the next one
/// `cur / multiplier`; the first level at or below the base size gets `cur` and the scan stops
/// there.
pub open spec fn target_fill(o: LeveledCompactionOptions, t: Seq<usize>, i: int, cur: int, below: bool) -> Seq<usize>
    decreases i + 1,
{
    if i < 0 {
        t
    } else if cur <= o.base_level_size_mb * MB {
        if !below {
            target_fill(o, t.update(i, cur as usize), i - 1, cur, true)
        } else {
            t
        }
    } else {
        target_fill(o, t.update(i, cur as usize), i - 1, cur / (o.level_size_multiplier as int), below)
    }
}

/// The target size of each level (index 0 is L1), given the size of the bottom level: the
/// bottom level gets at least the base size.
pub open spec fn target_sizes(o: LeveledCompactionOptions, bottom: int) -> Seq<usize> {
    let base = o.base_level_size_mb * MB;
    let start = if bottom >= base { bottom } else { base };
    target_fill(o, Seq::new(o.max_levels as nat, |i: int| 0usize), o.max_levels - 1, start, false)
}

/// The bytes of a level: the file sizes of its tables.
pub open spec fn level_bytes(tables: Map<usize, Arc<SsTable>>, ids: Seq<usize>) -> int
    decreases ids.len(),
{
    if ids.len() == 0 {
        0
    } else {
        level_bytes(tables, ids.drop_last()) + (tables[ids.last()].file_size as usize) as int
    }
}

/// The bytes of each level.
pub open spec fn sizes_of_levels(tables: Map<usize, Arc<SsTable>>, levels: Seq<(usize, Seq<usize>)>) -> Seq<int> {
    Seq::new(levels.len(), |i: int| level_bytes(tables, levels[i].1))
}

/// The first level index from `from` on with a positive target, or the last index.
pub open spec fn first_positive(t: Seq<usize>, from: int) -> int
    decreases t.len() - from,
{
    if from < 0 || from >= t.len() {
        t.len() - 1
    } else if t[from] > 0 {
        from
    } else {
        first_positive(t, from + 1)
    }
}

/// Level `i` has a target and exceeds it.
pub open spec fn over_target(sizes: Seq<int>, targets: Seq<usize>, i: int) -> bool {
    targets[i] > 0 && sizes[i] > targets[i]
}

/// Among the first `n` levels, the one exceeding its target by the largest ratio of size to
/// target; on equal ratios, the later one.
pub open spec fn most_over_target(sizes: Seq<int>, targets: Seq<usize>, n: int) -> Option<int>
    decreases n,
{
    if n <= 0 {
        None
    } else {
        let best = most_over_target(sizes, targets, n - 1);
        if over_target(sizes, targets, n - 1) {
            match best {
                None => Some(n - 1),
                Some(j) => if sizes[n - 1] * targets[j] >= sizes[j] * targets[n - 1] {
                    Some(n - 1)
                } else {
                    Some(j)
                },
            }
        } else {
            best
        }
    }
}

/// The level `most_over_target` picks is over its target.
pub proof fn lemma_most_over_target(sizes: Seq<int>, targets: Seq<usize>, n: int)
    ensures
        most_over_target(sizes, targets, n) matches Some(b) ==> 0 <= b < n && over_target(sizes, targets, b),
    decreases n,
{
    if n > 0 {
        lemma_most_over_target(sizes, targets, n - 1);
    }
}

/// Comparing ratios of sizes to positive targets is transitive.
proof fn lemma_ratio_le_trans(sa: int, ta: int, sb: int, tb: int, sc: int, tc: int)
    requires
        ta > 0,
        tb > 0,
        tc > 0,
        sa * tb <= sb * ta,
        sb * tc <= sc * tb,
    ensures
        sa * tc <= sc * ta,
{
    assert(sa * tb * tc <= sb * ta * tc) by (nonlinear_arith)
        requires
            sa * tb <= sb * ta,
            tc > 0,
    ;
    assert(sb * tc * ta <= sc * tb * ta) by (nonlinear_arith)
        requires
            sb * tc <= sc * tb,
            ta > 0,
    ;
    assert(sa * tc * tb <= sc * ta * tb) by (nonlinear_arith)
        requires
            sa * tb * tc <= sb * ta * tc,
            sb * tc * ta <= sc * tb * ta,
    ;
    assert(sa * tc <= sc * ta) by (nonlinear_arith)
        requires
            sa * tc * tb <= sc * ta * tb,
            tb > 0,
    ;
}

/// The level `most_over_target` picks among the first `n` has a ratio of size to target at
/// least that of every level over its target.
proof fn lemma_most_over_target_largest(sizes: Seq<int>, targets: Seq<usize>, n: int)
    requires
        n <= sizes.len(),
        n <= targets.len(),
    ensures
        most_over_target(sizes, targets, n) matches Some(b) ==> forall|j: int|
            0 <= j < n && targets[j] > 0 && sizes[j] > targets[j] ==> #[trigger] (sizes[j] * targets[b]) <= sizes[b]
                * targets[j],
        most_over_target(sizes, targets, n) is None ==> forall|j: int|
            0 <= j < n ==> !#[trigger] over_target(sizes, targets, j),
    decreases n,
{
    if n > 0 {
        lemma_most_over_target_largest(sizes, targets, n - 1);
        lemma_most_over_target(sizes, targets, n - 1);
        let best = most_over_target(sizes, targets, n - 1);
        if over_target(sizes, targets, n - 1) {
            match best {
                None => {
                    assert forall|j: int| 0 <= j < n && targets[j] > 0 && sizes[j] > targets[j] implies #[trigger] (
                    sizes[j] * targets[n - 1]) <= sizes[n - 1] * targets[j] by {
                        if j < n - 1 {
                            assert(!over_target(sizes, targets, j));
                        }
                    }
                },
                Some(j0) => {
                    if sizes[n - 1] * targets[j0] >= sizes[j0] * targets[n - 1] {
                        assert forall|j: int| 0 <= j < n && targets[j] > 0 && sizes[j] > targets[j] implies #[trigger] (
                        sizes[j] * targets[n - 1]) <= sizes[n - 1] * targets[j] by {
                            if j < n - 1 {
                                assert(sizes[j] * targets[j0] <= sizes[j0] * targets[j]);
                                lemma_ratio_le_trans(
                                    sizes[j],
                                    targets[j] as int,
                                    sizes[j0],
                                    targets[j0] as int,
                                    sizes[n - 1],
                                    targets[n - 1] as int,
                                );
                            }
                        }
                    } else {
                        assert forall|j: int| 0 <= j < n && targets[j] > 0 && sizes[j] > targets[j] implies #[trigger] (
                        sizes[j] * targets[j0]) <= sizes[j0] * targets[j] by {
                            if j == n - 1 {
                                assert(sizes[n - 1] * targets[j0] < sizes[j0] * targets[n - 1]);
                            }
                        }
                    }
                },
            }
        }
    }
}

/// When L0 is below its trigger, the level the leveled policy compacts is one over its
/// target size whose ratio of size to target is the largest among all levels over their
/// targets, and its tables go to the next level.
pub proof fn lemma_leveled_picks_most_over_target(
    o: LeveledCompactionOptions,
    tables: Map<usize, Arc<SsTable>>,
    l0: Seq<usize>,
    levels: Seq<(usize, Seq<usize>)>,
)
    requires
        l0.len() < o.level0_file_num_compaction_trigger,
        levels.len() == o.max_levels,
    ensures
        leveled_task(o, tables, l0, levels) matches Some(t) ==> ({
            let sizes = sizes_of_levels(tables, levels);
            let targets = target_sizes(o, sizes.last());
            &&& t.upper_level is Some
            &&& 1 <= t.upper_level->0 < levels.len()
            &&& t.lower_level == t.upper_level->0 + 1
            &&& ({
                let li = t.upper_level->0 - 1;
                &&& targets[li] > 0
                &&& sizes[li] > targets[li]
                &&& forall|j: int|
                    0 <= j < levels.len() && targets[j] > 0 && sizes[j] > targets[j] ==> #[trigger] (sizes[j]
                        * targets[li]) <= sizes[li] * targets[j]
            })
        }),
{
    let sizes = sizes_of_levels(tables, levels);
    let base = o.base_level_size_mb * MB;
    let start = if sizes.last() >= base { sizes.last() } else { base };
    lemma_target_fill(o, Seq::new(o.max_levels as nat, |i: int| 0usize), o.max_levels - 1, start, false);
    let targets = target_sizes(o, sizes.last());
    lemma_most_over_target(sizes, targets, levels.len() as int);
    lemma_most_over_target_largest(sizes, targets, levels.len() as int);
}

/// The smallest id.
pub open spec fn min_id(ids: Seq<usize>) -> usize
    decreases ids.len(),
{
    if ids.len() <= 1 {
        ids[0]
    } else {
        let m = min_id(ids.drop_last());
        if ids.last() < m {
            ids.last()
        } else {
            m
        }
    }
}

/// A step of choosing the tables of a level compaction: the upper tables chosen so far, the
/// lower tables they overlap, and whether the choice is settled.
pub struct ChoiceState {
    pub upper: Seq<usize>,
    pub lower: Seq<usize>,
    pub done: bool,
}

/// One step: find the tables of the lower level (index `li + 1`) that overlap the upper tables;
/// if there are none, stop; otherwise take every table of the upper level (index `li`) that
/// overlaps their range, and stop once that adds no table.
pub open spec fn choice_step(
    tables: Map<usize, Arc<SsTable>>,
    levels: Seq<(usize, Seq<usize>)>,
    li: int,
    st: ChoiceState,
) -> ChoiceState {
    if st.done {
        st
    } else {
        match overlap_spec(tables, st.upper, levels[li + 1].1) {
            None => ChoiceState { done: true, ..st },
            Some((found, rf, rl)) => if found.len() == 0 {
                ChoiceState { done: true, ..st }
            } else {
                let next = overlapping(tables, levels[li].1, rf, rl);
                if next.len() == st.upper.len() {
                    ChoiceState { upper: st.upper, lower: found, done: true }
                } else {
                    ChoiceState { upper: next, lower: found, done: false }
                }
            },
        }
    }
}

/// The choice after `k` steps from the single table `start`.
pub open spec fn choice_after(
    tables: Map<usize, Arc<SsTable>>,
    levels: Seq<(usize, Seq<usize>)>,
    li: int,
    start: Seq<usize>,
    k: nat,
) -> ChoiceState
    decreases k,
{
    if k == 0 {
        ChoiceState { upper: start, lower: Seq::empty(), done: false }
    } else {
        choice_step(tables, levels, li, choice_after(tables, levels, li, start, (k - 1) as nat))
    }
}

/// The settled choice.
pub open spec fn settled_choice(
    tables: Map<usize, Arc<SsTable>>,
    levels: Seq<(usize, Seq<usize>)>,
    li: int,
    start: Seq<usize>,
) -> ChoiceState {
    choice_after(tables, levels, li, start, choose|k: nat| choice_after(tables, levels, li, start, k).done)
}

/// The task the leveled policy generates for a state.
pub open spec fn leveled_task(
    o: LeveledCompactionOptions,
    tables: Map<usize, Arc<SsTable>>,
    l0: Seq<usize>,
    levels: Seq<(usize, Seq<usize>)>,
) -> Option<LevelTaskView> {
    let sizes = sizes_of_levels(tables, levels);
    let targets = target_sizes(o, sizes.last());
    if l0.len() >= o.level0_file_num_compaction_trigger {
        let f = first_positive(targets, 0);
        let lower = match overlap_spec(tables, l0, levels[f].1) {
            Some((found, _, _)) => found,
            None => Seq::empty(),
        };
        Some(
            LevelTaskView {
                upper_level: None,
                upper_level_sst_ids: l0,
                lower_level: (f + 1) as usize,
                lower_level_sst_ids: lower,
                is_lower_level_bottom_level: f + 1 == o.max_levels,
            },
        )
    } else {
        match most_over_target(sizes, targets, levels.len() as int) {
            None => None,
            Some(li) => {
                let c = settled_choice(tables, levels, li, seq![min_id(levels[li].1)]);
                if li + 2 <= o.max_levels {
                    Some(
                        LevelTaskView {
                            upper_level: Some((li + 1) as usize),
                            upper_level_sst_ids: c.upper,
                            lower_level: (li + 2) as usize,
                            lower_level_sst_ids: c.lower,
                            is_lower_level_bottom_level: li + 2 == o.max_levels,
                        },
                    )
                } else {
                    None
                }
            },
        }
    }
}

/// Once settled, the choice stays as it is.
pub proof fn lemma_choice_settled(
    tables: Map<usize, Arc<SsTable>>,
    levels: Seq<(usize, Seq<usize>)>,
    li: int,
    start: Seq<usize>,
    a: nat,
    b: nat,
)
    requires
        a <= b,
        choice_after(tables, levels, li, start, a).done,
    ensures
        choice_after(tables, levels, li, start, b) == choice_after(tables, levels, li, start, a),
    decreases b - a,
{
    if a < b {
        lemma_choice_settled(tables, levels, li, start, a, (b - 1) as nat);
    }
}

/// The settled choice is the one reached at any step where the choice is settled.
pub proof fn lemma_settled_choice(
    tables: Map<usize, Arc<SsTable>>,
    levels: Seq<(usize, Seq<usize>)>,
    li: int,
    start: Seq<usize>,
    k: nat,
)
    requires
        choice_after(tables, levels, li, start, k).done,
    ensures
        settled_choice(tables, levels, li, start) == choice_after(tables, levels, li, start, k),
{
    let c = choose|j: nat| choice_after(tables, levels, li, start, j).done;
    if c <= k {
        lemma_choice_settled(tables, levels, li, start, c, k);
    } else {
        lemma_choice_settled(tables, levels, li, start, k, c);
    }
}

/// Every table named by `sub` is named by `sup`.
pub open spec fn ids_within(sub: Seq<usize>, sup: Seq<usize>) -> bool {
    forall|x: usize| sub.contains(x) ==> #[trigger] sup.contains(x)
}

/// The ids of `sub` are among those of `sup`, so they are known and have non-empty keys when
/// those of `sup` do.
proof fn lemma_within_known(tables: Map<usize, Arc<SsTable>>, sub: Seq<usize>, sup: Seq<usize>)
    requires
        ids_within(sub, sup),
        all_known(tables, sup),
        keys_nonempty(tables, sup),
    ensures
        all_known(tables, sub),
        keys_nonempty(tables, sub),
{
    assert forall|i: int| 0 <= i < sub.len() implies tables.contains_key(#[trigger] sub[i]) && first_of(tables, sub[i]).len()
        > 0 && last_of(tables, sub[i]).len() > 0 by {
        assert(sub.contains(sub[i]));
        assert(sup.contains(sub[i]));
        let j = choose|j: int| 0 <= j < sup.len() && sup[j] == sub[i];
        assert(tables.contains_key(sup[j]));
        assert(first_of(tables, sup[j]).len() > 0);
    }
}

/// The first step from a single table of the upper level: if the lower level has tables
/// overlapping it, their range still covers that table.
proof fn lemma_choice_first_step(
    tables: Map<usize, Arc<SsTable>>,
    upper_level: Seq<usize>,
    lower_level: Seq<usize>,
    oldest: usize,
)
    requires
        upper_level.contains(oldest),
        all_known(tables, lower_level),
        keys_nonempty(tables, lower_level),
        overlap_spec(tables, seq![oldest], lower_level) matches Some((found, _, _)) && found.len() > 0,
    ensures
        ({
            let (found, rf, rl) = overlap_spec(tables, seq![oldest], lower_level).unwrap();
            let next = overlapping(tables, upper_level, rf, rl);
            &&& next.contains(oldest)
            &&& next.len() >= 1
            &&& ids_within(seq![oldest], next)
        }),
{
    let up = seq![oldest];
    let (found, rf, rl) = overlap_spec(tables, up, lower_level).unwrap();
    let lo = min_first(tables, up);
    let hi = max_last(tables, up);
    assert(lo == first_of(tables, oldest));
    assert(hi == last_of(tables, oldest));
    lemma_overlapping(tables, lower_level, lo, hi);
    assert(found.contains(found[0]));
    let f0 = found[0];
    assert(overlaps(tables, f0, lo, hi));
    lemma_within_known(tables, found, lower_level);
    lemma_range_is_hull(tables, found);
    lemma_min_first(tables, found);
    lemma_max_last(tables, found);
    assert(key_le(rf, first_of(tables, found[0])));
    assert(key_le(last_of(tables, found[0]), rl));
    lemma_key_le_transitive(rf, first_of(tables, f0), last_of(tables, oldest));
    lemma_key_le_transitive(first_of(tables, oldest), last_of(tables, f0), rl);
    let next = overlapping(tables, upper_level, rf, rl);
    lemma_overlapping(tables, upper_level, rf, rl);
    assert(next.contains(oldest));
    assert(ids_within(up, next)) by {
        assert forall|x: usize| up.contains(x) implies #[trigger] next.contains(x) by {
            assert(up[0] == oldest);
        }
    }
}

/// A later step: when the upper tables grew from `prev` to the tables of the upper level that
/// overlap the range found for `prev`, the range found for them only widens, so the next
/// choice keeps every table chosen so far.
proof fn lemma_choice_grows(
    tables: Map<usize, Arc<SsTable>>,
    upper_level: Seq<usize>,
    lower_level: Seq<usize>,
    prev: Seq<usize>,
    upper: Seq<usize>,
)
    requires
        prev.len() > 0,
        ids_within(prev, upper),
        all_known(tables, lower_level),
        keys_nonempty(tables, lower_level),
        overlap_spec(tables, prev, lower_level) matches Some((found, _, _)) && found.len() > 0,
        upper == overlapping(
            tables,
            upper_level,
            overlap_spec(tables, prev, lower_level).unwrap().1,
            overlap_spec(tables, prev, lower_level).unwrap().2,
        ),
    ensures
        ({
            let (found, rf, rl) = overlap_spec(tables, upper, lower_level).unwrap();
            let next = overlapping(tables, upper_level, rf, rl);
            &&& found.len() > 0
            &&& ids_within(upper, next)
            &&& upper.len() <= next.len()
        }),
{
    let (found_p, rf_p, rl_p) = overlap_spec(tables, prev, lower_level).unwrap();
    lemma_hull_grows(tables, prev, upper);
    let lo_p = min_first(tables, prev);
    let hi_p = max_last(tables, prev);
    let lo_u = min_first(tables, upper);
    let hi_u = max_last(tables, upper);
    let (found_u, rf_u, rl_u) = overlap_spec(tables, upper, lower_level).unwrap();
    lemma_overlapping(tables, lower_level, lo_p, hi_p);
    lemma_overlapping(tables, lower_level, lo_u, hi_u);
    assert(ids_within(found_p, found_u)) by {
        assert forall|x: usize| found_p.contains(x) implies #[trigger] found_u.contains(x) by {
            lemma_overlaps_widen(tables, x, lo_p, hi_p, lo_u, hi_u);
        }
    }
    assert(found_p.contains(found_p[0]));
    assert(found_u.contains(found_p[0]));
    lemma_within_known(tables, found_p, lower_level);
    lemma_within_known(tables, found_u, lower_level);
    lemma_range_is_hull(tables, found_p);
    lemma_range_is_hull(tables, found_u);
    lemma_hull_grows(tables, found_p, found_u);
    let next = overlapping(tables, upper_level, rf_u, rl_u);
    lemma_overlapping(tables, upper_level, rf_p, rl_p);
    lemma_overlapping(tables, upper_level, rf_u, rl_u);
    assert(ids_within(upper, next)) by {
        assert forall|x: usize| upper.contains(x) implies #[trigger] next.contains(x) by {
            lemma_overlaps_widen(tables, x, rf_p, rl_p, rf_u, rl_u);
        }
    }
    lemma_overlapping_len_mono(tables, upper_level, rf_p, rl_p, rf_u, rl_u);
}

/// The scan from index `i` down only writes indices up to `i`, and writes `cur` at `i` when it
/// starts above the base size or has not yet met it.
proof fn lemma_target_fill(o: LeveledCompactionOptions, t: Seq<usize>, i: int, cur: int, below: bool)
    requires
        -1 <= i < t.len(),
    ensures
        target_fill(o, t, i, cur, below).len() == t.len(),
        forall|j: int| i < j < t.len() ==> #[trigger] target_fill(o, t, i, cur, below)[j] == t[j],
        0 <= i && (!below || cur > o.base_level_size_mb * MB) ==> target_fill(o, t, i, cur, below)[i] == cur as usize,
    decreases i + 1,
{
    if i >= 0 {
        if cur <= o.base_level_size_mb * MB {
            if !below {
                lemma_target_fill(o, t.update(i, cur as usize), i - 1, cur, true);
            }
        } else {
            lemma_target_fill(o, t.update(i, cur as usize), i - 1, cur / (o.level_size_multiplier as int), below);
        }
    }
}

/// The bytes of the first `i` tables are no more than those of all of them, and no tables
/// have no bytes.
proof fn lemma_level_bytes_prefix(tables: Map<usize, Arc<SsTable>>, ids: Seq<usize>, i: int)
    requires
        0 <= i <= ids.len(),
    ensures
        0 <= level_bytes(tables, ids.take(i)) <= level_bytes(tables, ids),
        ids.len() == 0 ==> level_bytes(tables, ids) == 0,
    decreases ids.len(),
{
    if ids.len() > 0 {
        if i == ids.len() {
            assert(ids.take(i) =~= ids);
            lemma_level_bytes_prefix(tables, ids.drop_last(), 0);
        } else {
            assert(ids.drop_last().take(i) =~= ids.take(i));
            lemma_level_bytes_prefix(tables, ids.drop_last(), i);
        }
    } else {
        assert(ids.take(i) =~= ids);
    }
}

/// The tables of a level that overlap a key range, and the range they span.
struct OverlappingReturn {
    lower_sst_ids: Vec<usize>,
    first_key: Vec<u8>,
    last_key: Vec<u8>,
}

/// Table `id` of the state.
pub(crate) fn table_of(snapshot: &LsmStorageState, id: usize) -> (t: &Arc<SsTable>)
    requires
        snapshot.sstables@.contains_key(id),
    ensures
        *t == snapshot.sstables@[id],
{
    snapshot.sstables.get(&id).unwrap()
}

/// The smallest first key among the tables.
fn min_first_key(snapshot: &LsmStorageState, ids: &Vec<usize>) -> (k: Vec<u8>)
    requires
        ids@.len() > 0,
        all_known(snapshot.sstables@, ids@),
    ensures
        k@ == min_first(snapshot.sstables@, ids@),
{
    let ghost tables = snapshot.sstables@;
    let mut m = vstd::slice::slice_to_vec(table_of(snapshot, ids[0]).first_key());
    let mut i: usize = 1;
    proof {
        assert(ids@.take(1).drop_last().len() == 0);
    }
    while i < ids.len()
        invariant
            1 <= i <= ids@.len(),
            tables == snapshot.sstables@,
            all_known(tables, ids@),
            m@ == min_first(tables, ids@.take(i as int)),
        decreases ids@.len() - i,
    {
        let f = table_of(snapshot, ids[i]).first_key();
        proof {
            assert(ids@.take(i + 1).drop_last() =~= ids@.take(i as int));
        }
        if key_less(f, m.as_slice()) {
            m = vstd::slice::slice_to_vec(f);
        }
        i = i + 1;
    }
    proof {
        assert(ids@.take(i as int) =~= ids@);
    }
    m
}

/// The largest last key among the tables.
fn max_last_key(snapshot: &LsmStorageState, ids: &Vec<usize>) -> (k: Vec<u8>)
    requires
        ids@.len() > 0,
        all_known(snapshot.sstables@, ids@),
    ensures
        k@ == max_last(snapshot.sstables@, ids@),
{
    let ghost tables = snapshot.sstables@;
    let mut m = vstd::slice::slice_to_vec(table_of(snapshot, ids[0]).last_key());
    let mut i: usize = 1;
    while i < ids.len()
        invariant
            1 <= i <= ids@.len(),
            tables == snapshot.sstables@,
            all_known(tables, ids@),
            m@ == max_last(tables, ids@.take(i as int)),
        decreases ids@.len() - i,
    {
        let l = table_of(snapshot, ids[i]).last_key();
        proof {
            assert(ids@.take(i + 1).drop_last() =~= ids@.take(i as int));
        }
        proof {
            lemma_key_trichotomy(l@, m@);
        }
        if !key_less(l, m.as_slice()) {
            m = vstd::slice::slice_to_vec(l);
        }
        i = i + 1;
    }
    proof {
        assert(ids@.take(i as int) =~= ids@);
    }
    m
}

/// The tables among `ids` that overlap `[lo, hi]`, with the range they cover.
fn select_overlapping(snapshot: &LsmStorageState, ids: &Vec<usize>, lo: &[u8], hi: &[u8]) -> (r: (
    Vec<usize>,
    Vec<u8>,
    Vec<u8>,
))
    requires
        all_known(snapshot.sstables@, ids@),
    ensures
        r.0@ == overlapping(snapshot.sstables@, ids@, lo@, hi@),
        r.1@ == range_first(snapshot.sstables@, r.0@),
        r.2@ == range_last(snapshot.sstables@, r.0@),
{
    let ghost tables = snapshot.sstables@;
    let mut found: Vec<usize> = Vec::new();
    let mut range_first_key: Vec<u8> = Vec::new();
    let mut range_last_key: Vec<u8> = Vec::new();
    let mut i: usize = 0;
    while i < ids.len()
        invariant
            i <= ids@.len(),
            tables == snapshot.sstables@,
            all_known(tables, ids@),
            found@ == overlapping(tables, ids@.take(i as int), lo@, hi@),
            range_first_key@ == range_first(tables, found@),
            range_last_key@ == range_last(tables, found@),
        decreases ids@.len() - i,
    {
        let id = ids[i];
        let sst = table_of(snapshot, id);
        let sst_first_key = sst.first_key();
        let sst_last_key = sst.last_key();
        proof {
            assert(ids@.take(i + 1).drop_last() =~= ids@.take(i as int));
        }
        if !key_less(sst_last_key, lo) && !key_less(hi, sst_first_key) {
            proof {
                lemma_key_trichotomy(lo@, sst_last_key@);
                lemma_key_trichotomy(sst_first_key@, hi@);
            }
            let ghost before = found@;
            if range_first_key.len() == 0 || !key_less(range_first_key.as_slice(), sst_first_key) {
                proof {
                    lemma_key_trichotomy(sst_first_key@, range_first_key@);
                }
                range_first_key = vstd::slice::slice_to_vec(sst_first_key);
            } else {
                proof {
                    lemma_key_trichotomy(sst_first_key@, range_first_key@);
                }
            }
            if range_last_key.len() == 0 || !key_less(sst_last_key, range_last_key.as_slice()) {
                proof {
                    lemma_key_trichotomy(range_last_key@, sst_last_key@);
                }
                range_last_key = vstd::slice::slice_to_vec(sst_last_key);
            } else {
                proof {
                    lemma_key_trichotomy(range_last_key@, sst_last_key@);
                }
            }
            found.push(id);
            proof {
                assert(found@.drop_last() =~= before);
            }
        } else {
            proof {
                lemma_key_trichotomy(lo@, sst_last_key@);
                lemma_key_trichotomy(sst_first_key@, hi@);
            }
        }
        i = i + 1;
    }
    proof {
        assert(ids@.take(i as int) =~= ids@);
    }
    (found, range_first_key, range_last_key)
}

/// The bytes of a level.
fn level_size(snapshot: &LsmStorageState, ids: &Vec<usize>) -> (n: usize)
    requires
        all_known(snapshot.sstables@, ids@),
        level_bytes(snapshot.sstables@, ids@) <= usize::MAX,
    ensures
        n == level_bytes(snapshot.sstables@, ids@),
{
    let ghost tables = snapshot.sstables@;
    let mut sum: usize = 0;
    let mut i: usize = 0;
    while i < ids.len()
        invariant
            i <= ids@.len(),
            tables == snapshot.sstables@,
            all_known(tables, ids@),
            level_bytes(tables, ids@) <= usize::MAX,
            sum == level_bytes(tables, ids@.take(i as int)),
        decreases ids@.len() - i,
    {
        proof {
            assert(ids@.take(i + 1).drop_last() =~= ids@.take(i as int));
            lemma_level_bytes_prefix(tables, ids@, i + 1);
        }
        let size = table_of(snapshot, ids[i]).table_size() as usize;
        sum = sum + size;
        i = i + 1;
    }
    proof {
        assert(ids@.take(i as int) =~= ids@);
    }
    sum
}

/// The smallest id.
fn min_id_of(ids: &Vec<usize>) -> (m: usize)
    requires
        ids@.len() > 0,
    ensures
        m == min_id(ids@),
        ids@.contains(m),
{
    let mut m = ids[0];
    let mut i: usize = 1;
    proof {
        assert(ids@.take(1)[0] == ids@[0]);
    }
    while i < ids.len()
        invariant
            1 <= i <= ids@.len(),
            m == min_id(ids@.take(i as int)),
            ids@.contains(m),
        decreases ids@.len() - i,
    {
        proof {
            assert(ids@.take(i + 1).drop_last() =~= ids@.take(i as int));
        }
        if ids[i] < m {
            m = ids[i];
        }
        i = i + 1;
    }
    proof {
        assert(ids@.take(i as int) =~= ids@);
    }
    m
}

/// The key-order insertion of `x` into `sorted`: after every table whose first key is at most
/// the first key of `x`, counted from the end.
pub open spec fn insert_by_first(tables: Map<usize, Arc<SsTable>>, sorted: Seq<usize>, x: usize) -> Seq<usize>
    decreases sorted.len(),
{
    if sorted.len() == 0 {
        seq![x]
    } else if key_le(first_of(tables, sorted.last()), first_of(tables, x)) {
        sorted.push(x)
    } else {
        insert_by_first(tables, sorted.drop_last(), x).push(sorted.last())
    }
}

/// The ids stably sorted by the first keys of their tables.
pub open spec fn sort_by_first(tables: Map<usize, Arc<SsTable>>, ids: Seq<usize>) -> Seq<usize>
    decreases ids.len(),
{
    if ids.len() == 0 {
        Seq::empty()
    } else {
        insert_by_first(tables, sort_by_first(tables, ids.drop_last()), ids.last())
    }
}

/// Inserting after the last table whose first key is not above that of `x` places `x` at `j`.
proof fn lemma_insert_by_first(tables: Map<usize, Arc<SsTable>>, sorted: Seq<usize>, x: usize, j: int)
    requires
        0 <= j <= sorted.len(),
        j == 0 || key_le(first_of(tables, sorted[j - 1]), first_of(tables, x)),
        forall|k: int| j <= k < sorted.len() ==> key_lt(first_of(tables, x), first_of(tables, #[trigger] sorted[k])),
    ensures
        insert_by_first(tables, sorted, x) == sorted.take(j).push(x) + sorted.skip(j),
    decreases sorted.len(),
{
    if sorted.len() == 0 {
        assert(sorted.take(j).push(x) + sorted.skip(j) =~= seq![x]);
    } else if j == sorted.len() {
        assert(sorted.take(j).push(x) + sorted.skip(j) =~= sorted.push(x));
    } else {
        let last = sorted.last();
        assert(key_lt(first_of(tables, x), first_of(tables, last)));
        lemma_key_trichotomy(first_of(tables, last), first_of(tables, x));
        let init = sorted.drop_last();
        assert forall|k: int| j <= k < init.len() implies key_lt(first_of(tables, x), first_of(tables, #[trigger] init[k])) by {
            assert(init[k] == sorted[k]);
        }
        if j > 0 {
            assert(init[j - 1] == sorted[j - 1]);
        }
        lemma_insert_by_first(tables, init, x, j);
        assert(init.take(j).push(x) + init.skip(j) + seq![last] =~= sorted.take(j).push(x) + sorted.skip(j));
    }
}

/// Inserting keeps the ids there were and adds `x`.
proof fn lemma_insert_by_first_members(tables: Map<usize, Arc<SsTable>>, sorted: Seq<usize>, x: usize)
    ensures
        insert_by_first(tables, sorted, x).len() == sorted.len() + 1,
        forall|k: int|
            0 <= k < sorted.len() + 1 ==> {
                let y = #[trigger] insert_by_first(tables, sorted, x)[k];
                y == x || sorted.contains(y)
            },
    decreases sorted.len(),
{
    if sorted.len() > 0 && !key_le(first_of(tables, sorted.last()), first_of(tables, x)) {
        let init = sorted.drop_last();
        lemma_insert_by_first_members(tables, init, x);
        assert forall|k: int| 0 <= k < sorted.len() + 1 implies {
            let y = #[trigger] insert_by_first(tables, sorted, x)[k];
            y == x || sorted.contains(y)
        } by {
            if k < sorted.len() {
                let y = insert_by_first(tables, init, x)[k];
                if y != x {
                    let w = choose|w: int| 0 <= w < init.len() && init[w] == y;
                    assert(sorted[w] == y);
                }
            } else {
                assert(sorted[sorted.len() - 1] == sorted.last());
            }
        }
    } else if sorted.len() > 0 {
        assert forall|k: int| 0 <= k < sorted.len() + 1 implies {
            let y = #[trigger] insert_by_first(tables, sorted, x)[k];
            y == x || sorted.contains(y)
        } by {
            if k < sorted.len() {
                assert(sorted[k] == insert_by_first(tables, sorted, x)[k]);
            }
        }
    }
}

/// Sorting keeps the ids known to the map.
pub proof fn lemma_sort_by_first_known(tables: Map<usize, Arc<SsTable>>, ids: Seq<usize>)
    requires
        all_known(tables, ids),
    ensures
        sort_by_first(tables, ids).len() == ids.len(),
        all_known(tables, sort_by_first(tables, ids)),
    decreases ids.len(),
{
    if ids.len() > 0 {
        let init = ids.drop_last();
        assert forall|i: int| 0 <= i < init.len() implies tables.contains_key(#[trigger] init[i]) by {
            assert(init[i] == ids[i]);
        }
        lemma_sort_by_first_known(tables, init);
        let sorted = sort_by_first(tables, init);
        lemma_insert_by_first_members(tables, sorted, ids.last());
        assert(tables.contains_key(ids[ids.len() - 1]));
        assert forall|i: int| 0 <= i < ids.len() implies tables.contains_key(
            #[trigger] sort_by_first(tables, ids)[i],
        ) by {
            let y = insert_by_first(tables, sorted, ids.last())[i];
            if y != ids.last() {
                let w = choose|w: int| 0 <= w < sorted.len() && sorted[w] == y;
                assert(tables.contains_key(sorted[w]));
            }
        }
    }
}

/// Sorts the ids stably by the first keys of their tables.
pub(crate) fn sort_ids_by_first_key(snapshot: &LsmStorageState, ids: &Vec<usize>) -> (r: Vec<usize>)
    requires
        all_known(snapshot.sstables@, ids@),
    ensures
        r@ == sort_by_first(snapshot.sstables@, ids@),
{
    let ghost tables = snapshot.sstables@;
    let mut sorted: Vec<usize> = Vec::new();
    let mut i: usize = 0;
    while i < ids.len()
        invariant
            i <= ids@.len(),
            tables == snapshot.sstables@,
            all_known(tables, ids@),
            sorted@ == sort_by_first(tables, ids@.take(i as int)),
            forall|k: int| 0 <= k < sorted@.len() ==> tables.contains_key(#[trigger] sorted@[k]),
        decreases ids@.len() - i,
    {
        let x = ids[i];
        let x_key = table_of(snapshot, x).first_key();
        let mut j: usize = sorted.len();
        while j > 0 && key_less(x_key, table_of(snapshot, sorted[j - 1]).first_key())
            invariant
                j <= sorted@.len(),
                tables == snapshot.sstables@,
                x_key@ == first_of(tables, x),
                forall|k: int| 0 <= k < sorted@.len() ==> tables.contains_key(#[trigger] sorted@[k]),
                forall|k: int| j <= k < sorted@.len() ==> key_lt(first_of(tables, x), first_of(tables, #[trigger] sorted@[k])),
            decreases j,
        {
            j = j - 1;
        }
        proof {
            if j > 0 {
                lemma_key_trichotomy(first_of(tables, x), first_of(tables, sorted@[j - 1]));
            }
            lemma_insert_by_first(tables, sorted@, x, j as int);
            assert(ids@.take(i + 1).drop_last() =~= ids@.take(i as int));
        }
        let ghost before = sorted@;
        sorted.insert(j, x);
        proof {
            assert(sorted@ =~= before.take(j as int).push(x) + before.skip(j as int));
            assert forall|k: int| 0 <= k < sorted@.len() implies tables.contains_key(#[trigger] sorted@[k]) by {
                if k < j {
                    assert(sorted@[k] == before[k]);
                } else if k > j {
                    assert(sorted@[k] == before[k - 1]);
                }
            }
        }
        i = i + 1;
    }
    proof {
        assert(ids@.take(i as int) =~= ids@);
    }
    sorted
}

pub struct LeveledCompactionController {
    options: LeveledCompactionOptions,
}

impl LeveledCompactionController {
    pub closed spec fn options(&self) -> LeveledCompactionOptions {
        self.options
    }

    /// The state has one level per level number, knows every table it names, the tables of
    /// the levels have non-empty keys, the byte counts fit, the base size fits, and the
    /// multiplier is positive when the bottom level is above the base size.
    pub open spec fn can_generate(&self, snapshot: &LsmStorageState) -> bool {
        &&& self.options().max_levels > 0
        &&& snapshot.levels@.len() == self.options().max_levels
        &&& self.options().base_level_size_mb * MB <= usize::MAX
        &&& sizes_of_levels(snapshot.sstables@, snapshot.levels_spec()).last() > self.options().base_level_size_mb * MB
            ==> self.options().level_size_multiplier > 0
        &&& all_known(snapshot.sstables@, snapshot.l0_sstables@)
        &&& forall|j: int|
            0 <= j < snapshot.levels@.len() ==> all_known(snapshot.sstables@, (#[trigger] snapshot.levels@[j]).1@)
                && keys_nonempty(snapshot.sstables@, snapshot.levels@[j].1@)
                && level_bytes(snapshot.sstables@, snapshot.levels@[j].1@) <= usize::MAX
    }

    /// The levels the task names exist, and outside recovery every table that ends up in the
    /// lower level is known.
    pub open spec fn can_apply(
        &self,
        snapshot: &LsmStorageState,
        task: &LeveledCompactionTask,
        output: Seq<usize>,
        in_recovery: bool,
    ) -> bool {
        &&& task.upper_level matches Some(u) ==> 1 <= u <= snapshot.levels@.len()
        &&& 1 <= task.lower_level <= snapshot.levels@.len()
        &&& !in_recovery ==> all_known(
            snapshot.sstables@,
            levels_after_compaction(
                snapshot.levels_spec(),
                task.upper_level,
                task.upper_level_sst_ids@,
                task.lower_level,
                task.lower_level_sst_ids@,
                output,
            )[task.lower_level - 1].1,
        )
    }

    pub fn new(options: LeveledCompactionOptions) -> (c: Self)
        ensures
            c.options() == options,
    {
        Self { options }
    }

    /// The tables of level `in_level` that overlap the key range of the tables `sst_ids`.
    fn find_overlapping_ssts(&self, snapshot: &LsmStorageState, sst_ids: &Vec<usize>, in_level: usize) -> (r: Option<
        OverlappingReturn,
    >)
        requires
            1 <= in_level <= snapshot.levels@.len(),
            all_known(snapshot.sstables@, sst_ids@),
            all_known(snapshot.sstables@, snapshot.levels@[in_level - 1].1@),
        ensures
            match r {
                Some(o) => overlap_spec(snapshot.sstables@, sst_ids@, snapshot.levels@[in_level - 1].1@) == Some(
                    (o.lower_sst_ids@, o.first_key@, o.last_key@),
                ),
                None => overlap_spec(snapshot.sstables@, sst_ids@, snapshot.levels@[in_level - 1].1@) is None,
            },
    {
        if sst_ids.len() == 0 {
            return None;
        }
        let upper_first = min_first_key(snapshot, sst_ids);
        let upper_last = max_last_key(snapshot, sst_ids);
        let (lower_sst_ids, first_key, last_key) = select_overlapping(
            snapshot,
            &snapshot.levels[in_level - 1].1,
            upper_first.as_slice(),
            upper_last.as_slice(),
        );
        Some(OverlappingReturn { lower_sst_ids, first_key, last_key })
    }

    /// The target size of each level, index 0 being L1.
    fn target_sizes_vec(&self, bottom_level_size_mb: usize) -> (t: Vec<usize>)
        requires
            self.options().base_level_size_mb * MB <= usize::MAX,
            self.options().max_levels > 0 && bottom_level_size_mb > self.options().base_level_size_mb * MB
                ==> self.options().level_size_multiplier > 0,
        ensures
            t@ == target_sizes(self.options(), bottom_level_size_mb as int),
    {
        let ghost o = self.options();
        let max_levels = self.options.max_levels;
        let base = self.options.base_level_size_mb * MB;
        let mut target: Vec<usize> = vec![0usize; max_levels];
        proof {
            assert(target@ =~= Seq::new(o.max_levels as nat, |i: int| 0usize));
        }
        let mut cur = if bottom_level_size_mb >= base { bottom_level_size_mb } else { base };
        let mut below_base_size = false;
        let mut i: usize = max_levels;
        let mut stopped = false;
        let ghost result = target_sizes(o, bottom_level_size_mb as int);
        while i > 0 && !stopped
            invariant
                i <= max_levels,
                o == self.options(),
                max_levels == o.max_levels,
                base == o.base_level_size_mb * MB,
                target@.len() == max_levels,
                cur <= usize::MAX,
                cur > base && i < max_levels ==> o.level_size_multiplier > 0,
                o.max_levels > 0 && bottom_level_size_mb > base ==> o.level_size_multiplier > 0,
                i == max_levels ==> (cur > base ==> bottom_level_size_mb > base) && !below_base_size,
                stopped ==> target@ == result,
                !stopped ==> target_fill(o, target@, i - 1, cur as int, below_base_size) == result,
            decreases i,
        {
            i = i - 1;
            if cur <= base {
                if !below_base_size {
                    below_base_size = true;
                    target[i] = cur;
                } else {
                    stopped = true;
                }
            } else {
                target[i] = cur;
                cur = cur / self.options.level_size_multiplier;
            }
        }
        target
    }

    /// Generates a compaction task: L0 into the first level with a target once L0 holds
    /// enough tables; otherwise the level most over its target into the next one, starting
    /// from its oldest table and taking in the tables of both levels that overlap, until that
    /// adds no table of the upper level.
    pub fn generate_compaction_task(&self, snapshot: &LsmStorageState) -> (r: Option<LeveledCompactionTask>)
        requires
            self.can_generate(snapshot),
        ensures
            match r {
                Some(t) => leveled_task(self.options(), snapshot.sstables@, snapshot.l0_sstables@, snapshot.levels_spec())
                    == Some(t@),
                None => leveled_task(self.options(), snapshot.sstables@, snapshot.l0_sstables@, snapshot.levels_spec())
                    is None,
            },
    {
        let ghost o = self.options();
        let ghost tables = snapshot.sstables@;
        let ghost levels = snapshot.levels_spec();
        let n = snapshot.levels.len();
        let mut level_sizes: Vec<usize> = Vec::new();
        let mut j: usize = 0;
        while j < n
            invariant
                j <= n,
                n == snapshot.levels@.len(),
                tables == snapshot.sstables@,
                levels == snapshot.levels_spec(),
                forall|k: int|
                    0 <= k < snapshot.levels@.len() ==> all_known(tables, (#[trigger] snapshot.levels@[k]).1@)
                        && level_bytes(tables, snapshot.levels@[k].1@) <= usize::MAX,
                level_sizes@.len() == j,
                forall|k: int| 0 <= k < j ==> #[trigger] level_sizes@[k] == sizes_of_levels(tables, levels)[k],
            decreases n - j,
        {
            proof {
                assert(levels[j as int].1 == snapshot.levels@[j as int].1@);
            }
            level_sizes.push(level_size(snapshot, &snapshot.levels[j].1));
            j = j + 1;
        }
        let ghost sizes = sizes_of_levels(tables, levels);
        proof {
            assert(level_sizes@.map_values(|x: usize| x as int) =~= sizes);
        }
        let bottom_level_size_byte = level_sizes[n - 1];
        let target_sizes = self.target_sizes_vec(bottom_level_size_byte);
        let ghost targets = target_sizes@;
        proof {
            assert(sizes.last() == bottom_level_size_byte);
            let base = o.base_level_size_mb * MB;
            let start = if bottom_level_size_byte >= base { bottom_level_size_byte as int } else { base };
            lemma_target_fill(o, Seq::new(o.max_levels as nat, |i: int| 0usize), o.max_levels - 1, start, false);
            assert(targets[n - 1] >= sizes[n - 1]);
        }
        if snapshot.l0_sstables.len() >= self.options.level0_file_num_compaction_trigger {
            let mut f: usize = 0;
            while f < target_sizes.len() && target_sizes[f] == 0
                invariant
                    f <= target_sizes@.len(),
                    target_sizes@.len() == n,
                    first_positive(targets, 0) == first_positive(targets, f as int),
                    targets == target_sizes@,
                decreases target_sizes@.len() - f,
            {
                f = f + 1;
            }
            let first_level_not_zero = if f < target_sizes.len() { f } else { target_sizes.len() - 1 };
            proof {
                assert(first_positive(targets, f as int) == first_level_not_zero);
                assert(levels[first_level_not_zero as int].1 == snapshot.levels@[first_level_not_zero as int].1@);
            }
            let lower_level_sst_ids = match self.find_overlapping_ssts(
                snapshot,
                &snapshot.l0_sstables,
                first_level_not_zero + 1,
            ) {
                Some(o) => o.lower_sst_ids,
                None => Vec::new(),
            };
            return Some(
                LeveledCompactionTask {
                    upper_level: None,
                    upper_level_sst_ids: copy_ids(&snapshot.l0_sstables),
                    lower_level: first_level_not_zero + 1,
                    lower_level_sst_ids,
                    is_lower_level_bottom_level: first_level_not_zero + 1 == self.options.max_levels,
                },
            );
        }
        let mut priority: Option<usize> = None;
        let mut i: usize = 0;
        while i < n
            invariant
                i <= n,
                n == snapshot.levels@.len(),
                level_sizes@.len() == n,
                target_sizes@.len() == n,
                targets == target_sizes@,
                forall|k: int| 0 <= k < n ==> #[trigger] level_sizes@[k] == sizes[k],
                sizes.len() == n,
                most_over_target(sizes, targets, i as int) == match priority {
                    Some(b) => Some(b as int),
                    None => None::<int>,
                },
                priority matches Some(b) ==> b < i,
            decreases n - i,
        {
            let size = level_sizes[i];
            let target = target_sizes[i];
            if target > 0 && size > target {
                match priority {
                    None => {
                        priority = Some(i);
                    },
                    Some(b) => {
                        proof {
                            let a1 = size as u128;
                            let a2 = target_sizes@[b as int] as u128;
                            let a3 = level_sizes@[b as int] as u128;
                            let a4 = target as u128;
                            assert(a1 * a2 <= u64::MAX as u128 * u64::MAX as u128) by (nonlinear_arith)
                                requires
                                    a1 <= u64::MAX,
                                    a2 <= u64::MAX,
                            ;
                            assert(a3 * a4 <= u64::MAX as u128 * u64::MAX as u128) by (nonlinear_arith)
                                requires
                                    a3 <= u64::MAX,
                                    a4 <= u64::MAX,
                            ;
                        }
                        if (size as u128) * (target_sizes[b] as u128) >= (level_sizes[b] as u128) * (target as u128) {
                            priority = Some(i);
                        }
                    },
                }
            }
            i = i + 1;
        }
        let level_index = match priority {
            None => {
                return None;
            },
            Some(b) => b,
        };
        proof {
            assert(over_target(sizes, targets, level_index as int)) by {
                lemma_most_over_target(sizes, targets, n as int);
            }
            assert(level_index + 1 < n);
            assert(levels[level_index as int].1 == snapshot.levels@[level_index as int].1@);
            assert(levels[level_index + 1].1 == snapshot.levels@[level_index + 1].1@);
            lemma_level_bytes_prefix(tables, levels[level_index as int].1, 0);
        }
        let upper_level_num = level_index + 1;
        let lower_level_num = upper_level_num + 1;
        let upper_level = &snapshot.levels[level_index].1;
        let oldest = min_id_of(upper_level);
        let mut upper_sst_ids: Vec<usize> = Vec::new();
        upper_sst_ids.push(oldest);
        let mut lower_level_sst_ids: Vec<usize> = Vec::new();
        let ghost start = seq![oldest];
        let ghost mut k: nat = 0;
        let ghost mut prev: Seq<usize> = Seq::empty();
        let ghost lower_level = levels[level_index + 1].1;
        proof {
            assert(upper_sst_ids@ =~= start);
        }
        let mut settled = false;
        while !settled
            invariant
                tables == snapshot.sstables@,
                levels == snapshot.levels_spec(),
                lower_level_num == level_index + 2,
                lower_level_num <= snapshot.levels@.len(),
                *upper_level == snapshot.levels@[level_index as int].1,
                levels[level_index as int].1 == upper_level@,
                lower_level == levels[level_index + 1].1,
                lower_level == snapshot.levels@[level_index + 1].1@,
                all_known(tables, upper_level@),
                keys_nonempty(tables, upper_level@),
                all_known(tables, lower_level),
                keys_nonempty(tables, lower_level),
                upper_level@.contains(oldest),
                start == seq![oldest],
                upper_sst_ids@.len() >= 1,
                upper_sst_ids@.len() <= upper_level@.len(),
                ids_within(upper_sst_ids@, upper_level@),
                settled ==> choice_after(tables, levels, level_index as int, start, k).done,
                choice_after(tables, levels, level_index as int, start, k).upper == upper_sst_ids@,
                choice_after(tables, levels, level_index as int, start, k).lower == lower_level_sst_ids@,
                !settled ==> !choice_after(tables, levels, level_index as int, start, k).done,
                !settled ==> (k == 0 && upper_sst_ids@ == start) || (k > 0 && prev.len() > 0 && ids_within(
                    prev,
                    upper_sst_ids@,
                ) && (overlap_spec(tables, prev, lower_level) matches Some((found, _, _)) && found.len() > 0)
                    && upper_sst_ids@ == overlapping(
                    tables,
                    upper_level@,
                    overlap_spec(tables, prev, lower_level).unwrap().1,
                    overlap_spec(tables, prev, lower_level).unwrap().2,
                )),
            decreases upper_level@.len() - upper_sst_ids@.len() + if settled { 0int } else { 1int },
        {
            proof {
                lemma_within_known(tables, upper_sst_ids@, upper_level@);
            }
            let overlapping_return = self.find_overlapping_ssts(snapshot, &upper_sst_ids, lower_level_num);
            let ghost st = choice_after(tables, levels, level_index as int, start, k);
            match overlapping_return {
                Some(ov) => {
                    if ov.lower_sst_ids.len() == 0 {
                        settled = true;
                        proof {
                            k = k + 1;
                        }
                    } else {
                        proof {
                            if k == 0 {
                                lemma_choice_first_step(tables, upper_level@, lower_level, oldest);
                            } else {
                                lemma_choice_grows(tables, upper_level@, lower_level, prev, upper_sst_ids@);
                            }
                            lemma_overlapping(
                                tables,
                                upper_level@,
                                ov.first_key@,
                                ov.last_key@,
                            );
                        }
                        let (new_upper_ids, _, _) = select_overlapping(
                            snapshot,
                            upper_level,
                            ov.first_key.as_slice(),
                            ov.last_key.as_slice(),
                        );
                        lower_level_sst_ids = ov.lower_sst_ids;
                        if new_upper_ids.len() == upper_sst_ids.len() {
                            settled = true;
                        } else {
                            proof {
                                prev = upper_sst_ids@;
                            }
                            upper_sst_ids = new_upper_ids;
                            proof {
                                assert(ids_within(upper_sst_ids@, upper_level@)) by {
                                    assert forall|x: usize| upper_sst_ids@.contains(x) implies #[trigger] upper_level@.contains(x) by {
                                    }
                                }
                            }
                        }
                        proof {
                            k = k + 1;
                        }
                    }
                },
                None => {
                    settled = true;
                    proof {
                        k = k + 1;
                    }
                },
            }
        }
        proof {
            lemma_settled_choice(tables, levels, level_index as int, start, k);
        }
        if lower_level_num <= self.options.max_levels {
            return Some(
                LeveledCompactionTask {
                    upper_level: Some(upper_level_num),
                    upper_level_sst_ids: upper_sst_ids,
                    lower_level: lower_level_num,
                    lower_level_sst_ids,
                    is_lower_level_bottom_level: lower_level_num == self.options.max_levels,
                },
            );
        }
        None
    }

    /// Applies a finished compaction: the task's tables leave the upper level (or L0) and the
    /// lower level, the output joins the lower level, which is then sorted by first key unless
    /// the state is being recovered. Returns the new state and the task's tables, upper first.
    pub fn apply_compaction_result(
        &self,
        snapshot: &LsmStorageState,
        task: &LeveledCompactionTask,
        output: &[usize],
        in_recovery: bool,
    ) -> (r: (LsmStorageState, Vec<usize>))
        requires
            self.can_apply(snapshot, task, output@, in_recovery),
        ensures
            r.0.memtable == snapshot.memtable,
            r.0.imm_memtables@ == snapshot.imm_memtables@,
            r.0.sstables@ == snapshot.sstables@,
            r.0.l0_sstables@ == l0_after_compaction(snapshot.l0_sstables@, task.upper_level, task.upper_level_sst_ids@),
            ({
                let merged = levels_after_compaction(
                    snapshot.levels_spec(),
                    task.upper_level,
                    task.upper_level_sst_ids@,
                    task.lower_level,
                    task.lower_level_sst_ids@,
                    output@,
                );
                let lower = merged[task.lower_level - 1];
                r.0.levels_spec() == if in_recovery {
                    merged
                } else {
                    merged.update(task.lower_level - 1, (lower.0, sort_by_first(snapshot.sstables@, lower.1)))
                }
            }),
            r.1@ == task.upper_level_sst_ids@ + task.lower_level_sst_ids@,
    {
        let ghost levels = snapshot.levels_spec();
        let mut levels_new = copy_levels(&snapshot.levels);
        let mut l0 = copy_ids(&snapshot.l0_sstables);
        match task.upper_level {
            Some(upper_level) => {
                let kept = remove_ids(&levels_new[upper_level - 1].1, &task.upper_level_sst_ids);
                levels_new[upper_level - 1].1 = kept;
            },
            None => {
                l0 = remove_ids(&snapshot.l0_sstables, &task.upper_level_sst_ids);
            },
        }
        let ghost after_upper = levels_view(levels_new@);
        let mut lower = remove_ids(&levels_new[task.lower_level - 1].1, &task.lower_level_sst_ids);
        let mut k: usize = 0;
        while k < output.len()
            invariant
                k <= output@.len(),
                lower@ == remove_all(after_upper[task.lower_level - 1].1, task.lower_level_sst_ids@) + output@.take(
                    k as int,
                ),
            decreases output@.len() - k,
        {
            lower.push(output[k]);
            k = k + 1;
            proof {
                assert(lower@ =~= remove_all(after_upper[task.lower_level - 1].1, task.lower_level_sst_ids@)
                    + output@.take(k as int));
            }
        }
        proof {
            assert(output@.take(output@.len() as int) =~= output@);
        }
        let ghost merged = levels_after_compaction(
            levels,
            task.upper_level,
            task.upper_level_sst_ids@,
            task.lower_level,
            task.lower_level_sst_ids@,
            output@,
        );
        if !in_recovery {
            lower = sort_ids_by_first_key(snapshot, &lower);
        }
        levels_new[task.lower_level - 1].1 = lower;
        let mut sst_ids_to_remove = copy_ids(&task.upper_level_sst_ids);
        append_ids(&mut sst_ids_to_remove, &task.lower_level_sst_ids);
        let new_state = LsmStorageState {
            memtable: snapshot.memtable,
            imm_memtables: copy_ids(&snapshot.imm_memtables),
            l0_sstables: l0,
            levels: levels_new,
            sstables: snapshot.sstables.clone(),
        };
        proof {
            let lw = merged[task.lower_level - 1];
            if in_recovery {
                assert(new_state.levels_spec() =~= merged);
            } else {
                assert(new_state.levels_spec() =~= merged.update(
                    task.lower_level - 1,
                    (lw.0, sort_by_first(snapshot.sstables@, lw.1)),
                ));
            }
        }
        (new_state, sst_ids_to_remove)
    }
}

} // verus!
