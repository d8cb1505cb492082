//! Tiered (universal) compaction: each flush makes a new tier; tiers are merged when space
//! amplification, the size ratio between tiers, or the number of tiers grows too large.
use vstd::prelude::*;

use crate::compact::{append_ids, copy_ids, copy_levels};
use crate::lsm_storage::{levels_view, LsmStorageState};

verus! {

#[derive(Clone, Copy, Debug)]
pub struct TieredCompactionOptions {
    /// compaction starts once there are at least this many tiers
    pub num_tiers: usize,
    pub max_size_amplification_percent: usize,
    pub size_ratio: usize,
    pub min_merge_width: usize,
    pub max_merge_width: Option<usize>,
}

#[derive(Debug)]
pub struct TieredCompactionTask {
    pub tiers: Vec<(usize, Vec<usize>)>,
    pub bottom_tier_included: bool,
}

/// A tiered compaction task with its table ids as sequences.
pub struct TieredTaskView {
    pub tiers: Seq<(usize, Seq<usize>)>,
    pub bottom_tier_included: bool,
}

impl View for TieredCompactionTask {
    type V = TieredTaskView;

    open spec fn view(&self) -> TieredTaskView {
        TieredTaskView { tiers: levels_view(self.tiers@), bottom_tier_included: self.bottom_tier_included }
    }
}

/// The number of tables in the first `k` tiers.
pub open spec fn tables_in_first(tiers: Seq<(usize, Seq<usize>)>, k: int) -> int
    decreases k,
{
    if k <= 0 {
        0
    } else {
        tables_in_first(tiers, k - 1) + tiers[k - 1].1.len()
    }
}

/// Space amplification is too high: the tables above the last tier make at least
/// `percent` percent of the last tier (with an empty last tier, as soon as there are any).
pub open spec fn amplification_too_high(above: int, last: int, percent: int) -> bool {
    if last == 0 {
        above > 0
    } else {
        above * 100 >= percent * last
    }
}

/// Tier `id + 1` outweighs the tiers before it by more than the size ratio.
pub open spec fn ratio_exceeded(previous: int, next: int, size_ratio: int) -> bool {
    next * 100 > (100 + size_ratio) * previous
}

/// The first `id` in `from..n-1` where tier `id + 1` outweighs the tiers up to `id` and at
/// least `min_merge_width` tiers would be merged.
pub open spec fn first_ratio_trigger(
    options: TieredCompactionOptions,
    tiers: Seq<(usize, Seq<usize>)>,
    from: int,
) -> Option<int>
    decreases tiers.len() - from,
{
    if from < 0 || from >= tiers.len() - 1 {
        None
    } else if ratio_exceeded(tables_in_first(tiers, from + 1), tiers[from + 1].1.len() as int, options.size_ratio as int)
        && from + 1 >= options.min_merge_width {
        Some(from)
    } else {
        first_ratio_trigger(options, tiers, from + 1)
    }
}

/// The task the tiered policy generates for a state.
pub open spec fn tiered_task(options: TieredCompactionOptions, tiers: Seq<(usize, Seq<usize>)>) -> Option<
    TieredTaskView,
> {
    let n = tiers.len() as int;
    if n < options.num_tiers {
        None
    } else if amplification_too_high(
        tables_in_first(tiers, n - 1),
        tiers[n - 1].1.len() as int,
        options.max_size_amplification_percent as int,
    ) {
        Some(TieredTaskView { tiers, bottom_tier_included: true })
    } else {
        match first_ratio_trigger(options, tiers, 0) {
            Some(id) => Some(TieredTaskView { tiers: tiers.take(id + 1), bottom_tier_included: false }),
            None => {
                let max_tiers = match options.max_merge_width {
                    Some(w) => w as int,
                    None => usize::MAX as int,
                };
                let take_count = if max_tiers < n { max_tiers } else { n };
                Some(TieredTaskView { tiers: tiers.take(take_count), bottom_tier_included: take_count >= n })
            },
        }
    }
}

/// Tier `id + 1` holds more than `size_ratio` percent more tables than all tiers up to `id`
/// together, and merging those tiers merges at least `min_merge_width` of them.
pub open spec fn size_ratio_fires(options: TieredCompactionOptions, tiers: Seq<(usize, Seq<usize>)>, id: int) -> bool {
    &&& 0 <= id < tiers.len() - 1
    &&& id + 1 >= options.min_merge_width
    &&& tiers[id + 1].1.len() * 100 > (100 + options.size_ratio) * tables_in_first(tiers, id + 1)
}

/// The size-ratio search from `from` finds the first index from there on where the size
/// ratio fires, if any.
proof fn lemma_first_ratio_trigger(options: TieredCompactionOptions, tiers: Seq<(usize, Seq<usize>)>, from: int)
    requires
        0 <= from,
    ensures
        match first_ratio_trigger(options, tiers, from) {
            Some(id) => from <= id && size_ratio_fires(options, tiers, id) && forall|j: int|
                from <= j < id ==> !#[trigger] size_ratio_fires(options, tiers, j),
            None => forall|j: int| from <= j ==> !#[trigger] size_ratio_fires(options, tiers, j),
        },
    decreases tiers.len() - from,
{
    if from < tiers.len() - 1 {
        lemma_first_ratio_trigger(options, tiers, from + 1);
    }
}

/// What the tiered policy decides, given at least `num_tiers` tiers (fewer give no task):
/// when the tables above the last tier make at least `max_size_amplification_percent`
/// percent of it, all tiers are merged, the bottom one included; otherwise, when the size
/// ratio fires, the tiers up to the first index where it fires are merged (so at least
/// `min_merge_width` of them, and the tier after them outweighs them by more than
/// `size_ratio` percent); otherwise the first `max_merge_width` tiers (all of them without a
/// width) are merged.
pub proof fn lemma_tiered_task_choice(options: TieredCompactionOptions, tiers: Seq<(usize, Seq<usize>)>)
    requires
        tiers.len() <= usize::MAX,
    ensures
        tiers.len() < options.num_tiers ==> tiered_task(options, tiers) is None,
        tiers.len() >= options.num_tiers && tiers.len() > 0 ==> ({
            let n = tiers.len() as int;
            let above = tables_in_first(tiers, n - 1);
            let last = tiers[n - 1].1.len() as int;
            let amplified = if last == 0 {
                above > 0
            } else {
                above * 100 >= options.max_size_amplification_percent * last
            };
            match tiered_task(options, tiers) {
                Some(t) => if amplified {
                    t.tiers == tiers && t.bottom_tier_included
                } else if exists|id: int| #[trigger] size_ratio_fires(options, tiers, id) {
                    exists|id: int|
                        {
                            &&& #[trigger] size_ratio_fires(options, tiers, id)
                            &&& forall|j: int| 0 <= j < id ==> !#[trigger] size_ratio_fires(options, tiers, j)
                            &&& t.tiers == tiers.take(id + 1)
                            &&& t.tiers.len() >= options.min_merge_width
                            &&& !t.bottom_tier_included
                        }
                } else {
                    let width = match options.max_merge_width {
                        Some(w) => if w < n {
                            w as int
                        } else {
                            n
                        },
                        None => n,
                    };
                    t.tiers == tiers.take(width) && t.bottom_tier_included == (width >= n)
                },
                None => false,
            }
        }),
{
    lemma_first_ratio_trigger(options, tiers, 0);
    if tiers.len() >= options.num_tiers && tiers.len() > 0 {
        match first_ratio_trigger(options, tiers, 0) {
            Some(id) => {
                assert(size_ratio_fires(options, tiers, id));
                assert(tiers.take(id + 1).len() == id + 1);
                assert({
                    &&& size_ratio_fires(options, tiers, id)
                    &&& forall|j: int| 0 <= j < id ==> !#[trigger] size_ratio_fires(options, tiers, j)
                    &&& tiers.take(id + 1) == tiers.take(id + 1)
                    &&& tiers.take(id + 1).len() >= options.min_merge_width
                });
            },
            None => {
                assert(!exists|id: int| #[trigger] size_ratio_fires(options, tiers, id)) by {
                    assert forall|id: int| !#[trigger] size_ratio_fires(options, tiers, id) by {
                        if id >= 0 {
                        }
                    }
                }
            },
        }
    }
}

/// The tables of the last task tier with the given id, if any.
pub open spec fn task_tier(tiers: Seq<(usize, Seq<usize>)>, id: usize) -> Option<Seq<usize>>
    decreases tiers.len(),
{
    if tiers.len() == 0 {
        None
    } else if tiers.last().0 == id {
        Some(tiers.last().1)
    } else {
        task_tier(tiers.drop_last(), id)
    }
}

/// Whether the task names one of the tiers.
pub open spec fn names_a_tier(levels: Seq<(usize, Seq<usize>)>, task: Seq<(usize, Seq<usize>)>) -> bool
    decreases levels.len(),
{
    if levels.len() == 0 {
        false
    } else {
        names_a_tier(levels.drop_last(), task) || task_tier(task, levels.last().0) is Some
    }
}

/// The tiers with those the task names replaced by `merged`, which stands where the first of
/// them stood; the other tiers keep their order.
pub open spec fn tiers_replaced(
    levels: Seq<(usize, Seq<usize>)>,
    task: Seq<(usize, Seq<usize>)>,
    merged: (usize, Seq<usize>),
) -> Seq<(usize, Seq<usize>)>
    decreases levels.len(),
{
    if levels.len() == 0 {
        Seq::empty()
    } else {
        let before = tiers_replaced(levels.drop_last(), task, merged);
        if task_tier(task, levels.last().0) is Some {
            if names_a_tier(levels.drop_last(), task) {
                before
            } else {
                before.push(merged)
            }
        } else {
            before.push(levels.last())
        }
    }
}

/// When the task names none of the tiers, replacing them changes nothing.
proof fn lemma_tiers_replaced_none(
    levels: Seq<(usize, Seq<usize>)>,
    task: Seq<(usize, Seq<usize>)>,
    merged: (usize, Seq<usize>),
)
    requires
        !names_a_tier(levels, task),
    ensures
        tiers_replaced(levels, task, merged) == levels,
    decreases levels.len(),
{
    if levels.len() > 0 {
        lemma_tiers_replaced_none(levels.drop_last(), task, merged);
        assert(levels.drop_last().push(levels.last()) =~= levels);
    }
}

/// The tiers after a tiered compaction: the merged tier takes the place of the tiers it
/// replaces, newer tiers staying in front of it; if the task names none of them, it goes in
/// front.
pub open spec fn tiered_levels_after(
    levels: Seq<(usize, Seq<usize>)>,
    task: Seq<(usize, Seq<usize>)>,
    merged: (usize, Seq<usize>),
) -> Seq<(usize, Seq<usize>)> {
    if names_a_tier(levels, task) {
        tiers_replaced(levels, task, merged)
    } else {
        seq![merged] + levels
    }
}

/// The tables of the tiers that the task names, in the order of the state.
pub open spec fn tables_removed(levels: Seq<(usize, Seq<usize>)>, task: Seq<(usize, Seq<usize>)>) -> Seq<usize>
    decreases levels.len(),
{
    if levels.len() == 0 {
        Seq::empty()
    } else {
        let before = tables_removed(levels.drop_last(), task);
        if task_tier(task, levels.last().0) is Some {
            before + levels.last().1
        } else {
            before
        }
    }
}

/// Every tier of the state that the task names holds the tables the task names for it.
pub open spec fn task_matches_state(levels: Seq<(usize, Seq<usize>)>, task: Seq<(usize, Seq<usize>)>) -> bool {
    forall|j: int|
        0 <= j < levels.len() ==> match task_tier(task, (#[trigger] levels[j]).0) {
            Some(ids) => ids == levels[j].1,
            None => true,
        }
}

pub struct TieredCompactionController {
    options: TieredCompactionOptions,
}

impl TieredCompactionController {
    pub closed spec fn options(&self) -> TieredCompactionOptions {
        self.options
    }

    /// There is a tier once `num_tiers` is reached, and the number of tables fits.
    pub open spec fn can_generate(&self, snapshot: &LsmStorageState) -> bool {
        &&& snapshot.levels@.len() >= self.options().num_tiers ==> snapshot.levels@.len() > 0
        &&& tables_in_first(snapshot.levels_spec(), snapshot.levels@.len() as int) <= usize::MAX
    }

    /// There is output, and every tier of the state that the task names holds the tables the
    /// task names for it.
    pub open spec fn can_apply(snapshot: &LsmStorageState, task: &TieredCompactionTask, output: Seq<usize>) -> bool {
        &&& output.len() > 0
        &&& task_matches_state(snapshot.levels_spec(), task@.tiers)
    }

    pub fn new(options: TieredCompactionOptions) -> (c: Self)
        ensures
            c.options() == options,
    {
        Self { options }
    }

    /// Generates a compaction task, or `None` while there are fewer tiers than `num_tiers`.
    pub fn generate_compaction_task(&self, snapshot: &LsmStorageState) -> (r: Option<TieredCompactionTask>)
        requires
            self.can_generate(snapshot),
        ensures
            match r {
                Some(t) => tiered_task(self.options(), snapshot.levels_spec()) == Some(t@),
                None => tiered_task(self.options(), snapshot.levels_spec()) is None,
            },
    {
        let ghost tiers = snapshot.levels_spec();
        let level_len = snapshot.levels.len();
        if level_len < self.options.num_tiers {
            return None;
        }
        proof {
            lemma_tables_in_first_monotone(tiers, (level_len - 1) as int, level_len as int);
        }
        let mut except_last_size: usize = 0;
        let mut i: usize = 0;
        while i < level_len - 1
            invariant
                i <= level_len - 1,
                level_len == snapshot.levels@.len(),
                level_len > 0,
                tiers == snapshot.levels_spec(),
                except_last_size == tables_in_first(tiers, i as int),
                tables_in_first(tiers, level_len - 1) <= usize::MAX,
            decreases level_len - 1 - i,
        {
            proof {
                lemma_tables_in_first_monotone(tiers, i + 1, (level_len - 1) as int);
                assert(tiers[i as int].1.len() == snapshot.levels@[i as int].1@.len());
            }
            except_last_size = except_last_size + snapshot.levels[i].1.len();
            i = i + 1;
        }
        let last_level_size = snapshot.levels[level_len - 1].1.len();
        proof {
            assert(tiers[level_len - 1].1.len() == last_level_size);
            let p = self.options().max_size_amplification_percent as u128;
            let l = last_level_size as u128;
            assert(p * l <= u64::MAX as u128 * u64::MAX as u128) by (nonlinear_arith)
                requires
                    p <= u64::MAX,
                    l <= u64::MAX,
            ;
        }
        let amplified = if last_level_size == 0 {
            except_last_size > 0
        } else {
            (except_last_size as u128) * 100 >= (self.options.max_size_amplification_percent as u128)
                * (last_level_size as u128)
        };
        if amplified {
            let t = TieredCompactionTask { tiers: copy_levels(&snapshot.levels), bottom_tier_included: true };
            return Some(t);
        }
        let mut previous_sum: usize = 0;
        let mut id: usize = 0;
        while id < level_len - 1
            invariant
                id <= level_len - 1,
                level_len == snapshot.levels@.len(),
                level_len > 0,
                tiers == snapshot.levels_spec(),
                previous_sum == tables_in_first(tiers, id as int),
                tables_in_first(tiers, level_len as int) <= usize::MAX,
                first_ratio_trigger(self.options(), tiers, 0) == first_ratio_trigger(self.options(), tiers, id as int),
                !amplification_too_high(
                    tables_in_first(tiers, level_len - 1),
                    tiers[level_len - 1].1.len() as int,
                    self.options().max_size_amplification_percent as int,
                ),
                level_len >= self.options().num_tiers,
            decreases level_len - 1 - id,
        {
            proof {
                lemma_tables_in_first_monotone(tiers, id + 1, level_len as int);
                assert(tiers[id as int].1.len() == snapshot.levels@[id as int].1@.len());
                assert(tiers[id + 1].1.len() == snapshot.levels@[id + 1].1@.len());
            }
            previous_sum = previous_sum + snapshot.levels[id].1.len();
            let next_level_size = snapshot.levels[id + 1].1.len();
            proof {
                let sr = self.options().size_ratio as u128;
                let q = previous_sum as u128;
                assert(sr * q <= u64::MAX as u128 * u64::MAX as u128) by (nonlinear_arith)
                    requires
                        sr <= u64::MAX,
                        q <= u64::MAX,
                ;
            }
            let exceeded = if next_level_size > previous_sum {
                ((next_level_size - previous_sum) as u128) * 100 > (self.options.size_ratio as u128) * (
                previous_sum as u128)
            } else {
                false
            };
            proof {
                let sr = self.options().size_ratio as int;
                let q = previous_sum as int;
                let nx = next_level_size as int;
                assert((100 + sr) * q == 100 * q + sr * q) by (nonlinear_arith);
                assert(0 <= sr * q) by (nonlinear_arith)
                    requires
                        0 <= sr,
                        0 <= q,
                ;
                assert(exceeded == ratio_exceeded(q, nx, sr));
            }
            if exceeded
                && id + 1 >= self.options.min_merge_width {
                let t = TieredCompactionTask { tiers: take_levels(&snapshot.levels, id + 1), bottom_tier_included: false };
                proof {
                    assert(first_ratio_trigger(self.options(), tiers, id as int) == Some(id as int));
                }
                return Some(t);
            }
            id = id + 1;
        }
        let max_tiers = match self.options.max_merge_width {
            Some(w) => w,
            None => usize::MAX,
        };
        let take_count = if max_tiers < level_len { max_tiers } else { level_len };
        let t = TieredCompactionTask {
            tiers: take_levels(&snapshot.levels, take_count),
            bottom_tier_included: take_count >= level_len,
        };
        Some(t)
    }

    /// Applies a finished tiered compaction: the tiers the task names leave the state, a new tier
    /// numbered by the first output table and holding the output takes the place of the first
    /// of them (or goes in front when the state holds none of them), and the tables of the
    /// removed tiers are returned, in the order of the state.
    pub fn apply_compaction_result(
        &self,
        snapshot: &LsmStorageState,
        task: &TieredCompactionTask,
        output: &[usize],
    ) -> (r: (LsmStorageState, Vec<usize>))
        requires
            Self::can_apply(snapshot, task, output@),
        ensures
            r.0.memtable == snapshot.memtable,
            r.0.imm_memtables@ == snapshot.imm_memtables@,
            r.0.l0_sstables@ == snapshot.l0_sstables@,
            r.0.sstables@ == snapshot.sstables@,
            r.0.levels_spec() == tiered_levels_after(snapshot.levels_spec(), task@.tiers, (output@[0], output@)),
            r.1@ == tables_removed(snapshot.levels_spec(), task@.tiers),
    {
        let ghost levels = snapshot.levels_spec();
        let ghost task_tiers = task@.tiers;
        let ghost merged = (output@[0], output@);
        let mut new_levels: Vec<(usize, Vec<usize>)> = Vec::new();
        let mut removed: Vec<usize> = Vec::new();
        let mut placed = false;
        let mut j: usize = 0;
        while j < snapshot.levels.len()
            invariant
                j <= snapshot.levels@.len(),
                levels == snapshot.levels_spec(),
                task_tiers == task@.tiers,
                output@.len() > 0,
                merged == (output@[0], output@),
                placed == names_a_tier(levels.take(j as int), task_tiers),
                levels_view(new_levels@) == tiers_replaced(levels.take(j as int), task_tiers, merged),
                removed@ == tables_removed(levels.take(j as int), task_tiers),
            decreases snapshot.levels@.len() - j,
        {
            let tier_id = snapshot.levels[j].0;
            let found = find_task_tier(&task.tiers, tier_id);
            proof {
                assert(levels.take(j + 1).drop_last() =~= levels.take(j as int));
                assert(levels.take(j + 1).last() == levels[j as int]);
                assert(levels[j as int] == (snapshot.levels@[j as int].0, snapshot.levels@[j as int].1@));
            }
            let ghost before = new_levels@;
            if found {
                append_ids(&mut removed, &snapshot.levels[j].1);
                if !placed {
                    new_levels.push((output[0], vstd::slice::slice_to_vec(output)));
                    proof {
                        assert(levels_view(new_levels@) =~= levels_view(before).push(merged));
                    }
                    placed = true;
                }
            } else {
                new_levels.push((tier_id, copy_ids(&snapshot.levels[j].1)));
                proof {
                    assert(levels_view(new_levels@) =~= levels_view(before).push(levels[j as int]));
                }
            }
            j = j + 1;
        }
        proof {
            assert(levels.take(j as int) =~= levels);
        }
        if !placed {
            let ghost before = new_levels@;
            new_levels.insert(0, (output[0], vstd::slice::slice_to_vec(output)));
            proof {
                assert(levels_view(new_levels@) =~= seq![merged] + levels_view(before));
            }
        }
        let ghost final_levels = new_levels@;
        let new_state = LsmStorageState {
            memtable: snapshot.memtable,
            imm_memtables: copy_ids(&snapshot.imm_memtables),
            l0_sstables: copy_ids(&snapshot.l0_sstables),
            levels: new_levels,
            sstables: snapshot.sstables.clone(),
        };
        proof {
            assert(new_state.levels_spec() == levels_view(final_levels));
            if !names_a_tier(levels, task_tiers) {
                lemma_tiers_replaced_none(levels, task_tiers, merged);
            }
        }
        (new_state, removed)
    }
}

/// Tells whether the task names a tier with this id.
fn find_task_tier(tiers: &Vec<(usize, Vec<usize>)>, id: usize) -> (found: bool)
    ensures
        found == (task_tier(levels_view(tiers@), id) is Some),
{
    let ghost t = levels_view(tiers@);
    let mut i: usize = tiers.len();
    proof {
        assert(t.take(i as int) =~= t);
    }
    while i > 0
        invariant
            i <= tiers@.len(),
            t == levels_view(tiers@),
            task_tier(t, id) == task_tier(t.take(i as int), id),
        decreases i,
    {
        proof {
            assert(t.take(i as int).drop_last() =~= t.take(i - 1));
            assert(t.take(i as int).last() == t[i - 1]);
        }
        if tiers[i - 1].0 == id {
            return true;
        }
        i = i - 1;
    }
    proof {
        assert(t.take(0) =~= Seq::<(usize, Seq<usize>)>::empty());
    }
    false
}

/// The first `count` levels.
fn take_levels(levels: &Vec<(usize, Vec<usize>)>, count: usize) -> (r: Vec<(usize, Vec<usize>)>)
    requires
        count <= levels@.len(),
    ensures
        levels_view(r@) == levels_view(levels@).take(count as int),
{
    let mut r: Vec<(usize, Vec<usize>)> = Vec::new();
    let mut i: usize = 0;
    while i < count
        invariant
            i <= count <= levels@.len(),
            r@.len() == i,
            forall|k: int| 0 <= k < i ==> (#[trigger] r@[k]).0 == levels@[k].0 && r@[k].1@ == levels@[k].1@,
        decreases count - i,
    {
        r.push((levels[i].0, copy_ids(&levels[i].1)));
        i = i + 1;
    }
    proof {
        assert(levels_view(r@) =~= levels_view(levels@).take(count as int));
    }
    r
}

/// Counting the tables of more tiers never gives fewer.
pub proof fn lemma_tables_in_first_monotone(tiers: Seq<(usize, Seq<usize>)>, a: int, b: int)
    requires
        0 <= a <= b <= tiers.len(),
    ensures
        tables_in_first(tiers, a) <= tables_in_first(tiers, b),
    decreases b - a,
{
    if a < b {
        lemma_tables_in_first_monotone(tiers, a, b - 1);
    }
}

} // verus!
