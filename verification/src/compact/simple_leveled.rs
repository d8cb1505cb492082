//! Simple leveled compaction: L0 into L1 once L0 holds enough tables, and level `i` into level
//! `i + 1` once the lower level is too small relative to the upper one.
use vstd::prelude::*;

use crate::compact::{append_ids, copy_ids, copy_levels, dedup, dedup_ids, remove_all, remove_ids};
use crate::lsm_storage::{levels_view, LsmStorageState};

verus! {

#[derive(Clone, Copy, Debug)]
pub struct SimpleLeveledCompactionOptions {
    /// lower level number of files / upper level number of files.
    /// if the ratio is too low, trigger a compaction.
    pub size_ratio_percent: usize,
    /// if l0 sstables number >=this ,trigger a compaction of l0 and l1.
    pub level0_file_num_compaction_trigger: usize,
    /// the number of levels (excluding L0) in the LSM tree.
    pub max_levels: usize,
}

#[derive(Debug)]
pub struct SimpleLeveledCompactionTask {
    /// if upper_level is `None`, then it is L0 compaction
    pub upper_level: Option<usize>,
    pub upper_level_sst_ids: Vec<usize>,
    pub lower_level: usize,
    pub lower_level_sst_ids: Vec<usize>,
    pub is_lower_level_bottom_level: bool,
}

/// A compaction task between two levels, with its table ids as sequences.
pub struct LevelTaskView {
    pub upper_level: Option<usize>,
    pub upper_level_sst_ids: Seq<usize>,
    pub lower_level: usize,
    pub lower_level_sst_ids: Seq<usize>,
    pub is_lower_level_bottom_level: bool,
}

impl View for SimpleLeveledCompactionTask {
    type V = LevelTaskView;

    open spec fn view(&self) -> LevelTaskView {
        LevelTaskView {
            upper_level: self.upper_level,
            upper_level_sst_ids: self.upper_level_sst_ids@,
            lower_level: self.lower_level,
            lower_level_sst_ids: self.lower_level_sst_ids@,
            is_lower_level_bottom_level: self.is_lower_level_bottom_level,
        }
    }
}

/// The number of tables of the last level numbered `id`, or 0 if no level has that number.
pub open spec fn size_of_level_id(levels: Seq<(usize, Seq<usize>)>, id: int) -> int
    decreases levels.len(),
{
    if levels.len() == 0 {
        0
    } else if levels.last().0 == id {
        levels.last().1.len() as int
    } else {
        size_of_level_id(levels.drop_last(), id)
    }
}

/// The lower level is too small: fewer than `percent` percent as many tables as the upper
/// one, which is not empty.
pub open spec fn lower_too_small(upper: int, lower: int, percent: int) -> bool {
    upper != 0 && lower * 100 < percent * upper
}

/// The first level `i` in `from..max_levels` whose next level is too small.
pub open spec fn first_small_ratio(
    options: SimpleLeveledCompactionOptions,
    levels: Seq<(usize, Seq<usize>)>,
    from: int,
) -> Option<int>
    decreases options.max_levels - from,
{
    if from < 1 || from >= options.max_levels {
        None
    } else if lower_too_small(
        size_of_level_id(levels, from),
        size_of_level_id(levels, from + 1),
        options.size_ratio_percent as int,
    ) {
        Some(from)
    } else {
        first_small_ratio(options, levels, from + 1)
    }
}

/// Level `i` holds tables and the next level holds fewer than `percent` percent as many.
pub open spec fn next_level_small(levels: Seq<(usize, Seq<usize>)>, i: int, percent: int) -> bool {
    let upper = size_of_level_id(levels, i);
    let lower = size_of_level_id(levels, i + 1);
    upper > 0 && lower * 100 < percent * upper
}

/// A level holds no fewer than zero tables.
proof fn lemma_size_of_level_id_nonneg(levels: Seq<(usize, Seq<usize>)>, id: int)
    ensures
        size_of_level_id(levels, id) >= 0,
    decreases levels.len(),
{
    if levels.len() > 0 {
        lemma_size_of_level_id_nonneg(levels.drop_last(), id);
    }
}

/// The search from level `from` finds the first level from there on whose next level is too
/// small, if any.
proof fn lemma_first_small_ratio(options: SimpleLeveledCompactionOptions, levels: Seq<(usize, Seq<usize>)>, from: int)
    requires
        1 <= from,
    ensures
        match first_small_ratio(options, levels, from) {
            Some(i) => from <= i < options.max_levels && next_level_small(
                levels,
                i,
                options.size_ratio_percent as int,
            ) && forall|j: int|
                from <= j < i ==> !#[trigger] next_level_small(levels, j, options.size_ratio_percent as int),
            None => forall|j: int|
                from <= j < options.max_levels ==> !#[trigger] next_level_small(
                    levels,
                    j,
                    options.size_ratio_percent as int,
                ),
        },
    decreases options.max_levels - from,
{
    lemma_size_of_level_id_nonneg(levels, from);
    if from < options.max_levels {
        lemma_first_small_ratio(options, levels, from + 1);
    }
}

/// When L0 is below its trigger, the simple leveled policy compacts level `i` into level
/// `i + 1` for the first `i` in `1..max_levels` such that level `i` holds tables and level
/// `i + 1` holds fewer than `size_ratio_percent` percent as many; when there is no such
/// level it compacts nothing.
pub proof fn lemma_simple_task_ratio(
    options: SimpleLeveledCompactionOptions,
    l0: Seq<usize>,
    levels: Seq<(usize, Seq<usize>)>,
)
    requires
        options.max_levels > 0,
        l0.len() < options.level0_file_num_compaction_trigger,
    ensures
        match simple_task(options, l0, levels) {
            Some(t) => {
                &&& t.upper_level is Some
                &&& 1 <= t.upper_level->0 < options.max_levels
                &&& t.lower_level == t.upper_level->0 + 1
                &&& ({
                    let i = t.upper_level->0 as int;
                    let upper = size_of_level_id(levels, i);
                    let lower = size_of_level_id(levels, i + 1);
                    &&& upper > 0
                    &&& lower * 100 < options.size_ratio_percent * upper
                    &&& forall|j: int|
                        1 <= j < i ==> !(size_of_level_id(levels, j) > 0 && #[trigger] size_of_level_id(levels, j + 1)
                            * 100 < options.size_ratio_percent * size_of_level_id(levels, j))
                })
            },
            None => forall|j: int|
                1 <= j < options.max_levels ==> !(size_of_level_id(levels, j) > 0 && #[trigger] size_of_level_id(
                    levels,
                    j + 1,
                ) * 100 < options.size_ratio_percent * size_of_level_id(levels, j)),
        },
{
    lemma_first_small_ratio(options, levels, 1);
    match first_small_ratio(options, levels, 1) {
        Some(i) => {
            assert forall|j: int|
                1 <= j < i implies !(size_of_level_id(levels, j) > 0 && #[trigger] size_of_level_id(levels, j + 1) * 100
                < options.size_ratio_percent * size_of_level_id(levels, j)) by {
                assert(!next_level_small(levels, j, options.size_ratio_percent as int));
            }
        },
        None => {
            assert forall|j: int|
                1 <= j < options.max_levels implies !(size_of_level_id(levels, j) > 0 && #[trigger] size_of_level_id(
                levels,
                j + 1,
            ) * 100 < options.size_ratio_percent * size_of_level_id(levels, j)) by {
                assert(!next_level_small(levels, j, options.size_ratio_percent as int));
            }
        },
    }
}

/// The task the simple leveled policy generates for a state.
pub open spec fn simple_task(
    options: SimpleLeveledCompactionOptions,
    l0: Seq<usize>,
    levels: Seq<(usize, Seq<usize>)>,
) -> Option<LevelTaskView> {
    if options.max_levels == 0 {
        None
    } else if l0.len() >= options.level0_file_num_compaction_trigger {
        Some(
            LevelTaskView {
                upper_level: None,
                upper_level_sst_ids: l0,
                lower_level: 1,
                lower_level_sst_ids: levels[0].1,
                is_lower_level_bottom_level: false,
            },
        )
    } else {
        match first_small_ratio(options, levels, 1) {
            Some(i) => Some(
                LevelTaskView {
                    upper_level: Some(i as usize),
                    upper_level_sst_ids: levels[i - 1].1,
                    lower_level: (i + 1) as usize,
                    lower_level_sst_ids: levels[i].1,
                    is_lower_level_bottom_level: i + 1 == options.max_levels,
                },
            ),
            None => None,
        }
    }
}

/// The levels after removing `upper_ids` from the upper level and `lower_ids` from the lower
/// one, then appending `output` to the lower one.
pub open spec fn levels_after_compaction(
    levels: Seq<(usize, Seq<usize>)>,
    upper_level: Option<usize>,
    upper_ids: Seq<usize>,
    lower_level: usize,
    lower_ids: Seq<usize>,
    output: Seq<usize>,
) -> Seq<(usize, Seq<usize>)> {
    let after_upper = match upper_level {
        Some(u) => levels.update(
            u - 1,
            (levels[u - 1].0, remove_all(levels[u - 1].1, upper_ids)),
        ),
        None => levels,
    };
    let lower = after_upper[lower_level - 1];
    after_upper.update(lower_level - 1, (lower.0, remove_all(lower.1, lower_ids) + output))
}

/// L0 after a compaction: tables of the task removed when L0 was the upper level.
pub open spec fn l0_after_compaction(l0: Seq<usize>, upper_level: Option<usize>, upper_ids: Seq<usize>) -> Seq<
    usize,
> {
    match upper_level {
        Some(_) => l0,
        None => remove_all(l0, upper_ids),
    }
}

pub struct SimpleLeveledCompactionController {
    options: SimpleLeveledCompactionOptions,
}

impl SimpleLeveledCompactionController {
    pub closed spec fn options(&self) -> SimpleLeveledCompactionOptions {
        self.options
    }

    /// The level count fits, and the state has a level for every level number, numbered no
    /// higher than the level count.
    pub open spec fn can_generate(&self, snapshot: &LsmStorageState) -> bool {
        &&& self.options().max_levels < usize::MAX
        &&& self.options().max_levels > 0 ==> snapshot.levels@.len() >= self.options().max_levels
        &&& self.options().max_levels > 0 ==> forall|j: int|
            0 <= j < snapshot.levels@.len() ==> (#[trigger] snapshot.levels@[j]).0 <= self.options().max_levels
    }

    /// The levels the task names exist.
    pub open spec fn can_apply(snapshot: &LsmStorageState, task: &SimpleLeveledCompactionTask) -> bool {
        &&& task.upper_level matches Some(u) ==> 1 <= u <= snapshot.levels@.len()
        &&& 1 <= task.lower_level <= snapshot.levels@.len()
    }

    pub fn new(options: SimpleLeveledCompactionOptions) -> (c: Self)
        ensures
            c.options() == options,
    {
        Self { options }
    }

    /// Generates a compaction task.
    ///
    /// Returns `None` if no compaction needs to be scheduled. The order of SSTs in the compaction task id vector matters.
    pub fn generate_compaction_task(&self, snapshot: &LsmStorageState) -> (r: Option<SimpleLeveledCompactionTask>)
        requires
            self.can_generate(snapshot),
        ensures
            match r {
                Some(t) => simple_task(self.options(), snapshot.l0_sstables@, snapshot.levels_spec()) == Some(t@),
                None => simple_task(self.options(), snapshot.l0_sstables@, snapshot.levels_spec()) is None,
            },
    {
        let ghost levels = snapshot.levels_spec();
        let max_levels = self.options.max_levels;
        if max_levels == 0 {
            return None;
        }
        let mut level_sizes: Vec<usize> = vec![0usize; max_levels + 1];
        level_sizes[0] = snapshot.l0_sstables.len();
        let mut j: usize = 0;
        while j < snapshot.levels.len()
            invariant
                j <= snapshot.levels@.len(),
                levels == snapshot.levels_spec(),
                level_sizes@.len() == max_levels + 1,
                max_levels == self.options().max_levels,
                forall|k: int|
                    0 <= k < snapshot.levels@.len() ==> (#[trigger] snapshot.levels@[k]).0 <= max_levels,
                forall|i: int|
                    1 <= i <= max_levels ==> #[trigger] level_sizes@[i] == size_of_level_id(levels.take(j as int), i),
            decreases snapshot.levels@.len() - j,
        {
            let level_id = snapshot.levels[j].0;
            level_sizes[level_id] = snapshot.levels[j].1.len();
            j = j + 1;
            proof {
                assert(levels.take(j as int).drop_last() =~= levels.take(j - 1));
                assert(levels.take(j as int).last() == levels[j - 1]);
            }
        }
        proof {
            assert(levels.take(j as int) =~= levels);
        }
        if snapshot.l0_sstables.len() >= self.options.level0_file_num_compaction_trigger {
            return Some(
                SimpleLeveledCompactionTask {
                    upper_level: None,
                    upper_level_sst_ids: copy_ids(&snapshot.l0_sstables),
                    lower_level: 1,
                    lower_level_sst_ids: copy_ids(&snapshot.levels[0].1),
                    is_lower_level_bottom_level: false,
                },
            );
        }
        let mut i: usize = 1;
        while i < max_levels
            invariant
                1 <= i <= max_levels,
                levels == snapshot.levels_spec(),
                level_sizes@.len() == max_levels + 1,
                max_levels == self.options().max_levels,
                snapshot.levels@.len() >= max_levels,
                snapshot.l0_sstables@.len() < self.options().level0_file_num_compaction_trigger,
                forall|k: int| 1 <= k <= max_levels ==> #[trigger] level_sizes@[k] == size_of_level_id(levels, k),
                first_small_ratio(self.options(), levels, 1) == first_small_ratio(self.options(), levels, i as int),
            decreases max_levels - i,
        {
            let upper = level_sizes[i];
            let lower = level_sizes[i + 1];
            proof {
                let p = self.options().size_ratio_percent as u128;
                let u = upper as u128;
                assert(p * u <= u64::MAX as u128 * u64::MAX as u128) by (nonlinear_arith)
                    requires p <= u64::MAX, u <= u64::MAX;
            }
            if upper != 0 && (lower as u128) * 100 < (self.options.size_ratio_percent as u128) * (upper as u128) {
                proof {
                    assert(levels[i - 1] == (snapshot.levels@[i - 1].0, snapshot.levels@[i - 1].1@));
                    assert(levels[i as int] == (snapshot.levels@[i as int].0, snapshot.levels@[i as int].1@));
                    assert(first_small_ratio(self.options(), levels, i as int) == Some(i as int));
                }
                let t = SimpleLeveledCompactionTask {
                    upper_level: Some(i),
                    upper_level_sst_ids: copy_ids(&snapshot.levels[i - 1].1),
                    lower_level: i + 1,
                    lower_level_sst_ids: copy_ids(&snapshot.levels[i].1),
                    is_lower_level_bottom_level: i + 1 == max_levels,
                };
                proof {
                    assert(t@.upper_level_sst_ids == levels[i - 1].1);
                    assert(t@.lower_level_sst_ids == levels[i as int].1);
                }
                return Some(t);
            }
            i = i + 1;
        }
        None
    }

    /// Apply the compaction result.
    ///
    /// The compactor will call this function with the compaction task and the list of SST ids generated. This function applies the
    /// result and generates a new LSM state. The functions should only change `l0_sstables` and `levels` without changing memtables
    /// and `sstables` hash map.
    ///
    /// Returns the new state and the ids of the tables that the compaction made obsolete: those
    /// of the upper level, then those of the lower level, each without repeats.
    pub fn apply_compaction_result(
        &self,
        snapshot: &LsmStorageState,
        task: &SimpleLeveledCompactionTask,
        output: &[usize],
    ) -> (r: (LsmStorageState, Vec<usize>))
        requires
            Self::can_apply(snapshot, task),
        ensures
            r.0.memtable == snapshot.memtable,
            r.0.imm_memtables@ == snapshot.imm_memtables@,
            r.0.sstables@ == snapshot.sstables@,
            r.0.l0_sstables@ == l0_after_compaction(snapshot.l0_sstables@, task.upper_level, task.upper_level_sst_ids@),
            r.0.levels_spec() == levels_after_compaction(
                snapshot.levels_spec(),
                task.upper_level,
                task.upper_level_sst_ids@,
                task.lower_level,
                task.lower_level_sst_ids@,
                output@,
            ),
            r.1@ == dedup(task.upper_level_sst_ids@) + dedup(task.lower_level_sst_ids@),
    {
        let ghost levels = snapshot.levels_spec();
        let mut levels_new = copy_levels(&snapshot.levels);
        let mut l0 = copy_ids(&snapshot.l0_sstables);
        match task.upper_level {
            Some(upper_level) => {
                let kept = remove_ids(&levels_new[upper_level - 1].1, &task.upper_level_sst_ids);
                levels_new[upper_level - 1].1 = kept;
            },
            None => {
                l0 = remove_ids(&snapshot.l0_sstables, &task.upper_level_sst_ids);
            },
        }
        let ghost after_upper = levels_view(levels_new@);
        let mut lower = remove_ids(&levels_new[task.lower_level - 1].1, &task.lower_level_sst_ids);
        let mut k: usize = 0;
        while k < output.len()
            invariant
                k <= output@.len(),
                lower@ == remove_all(after_upper[task.lower_level - 1].1, task.lower_level_sst_ids@) + output@.take(
                    k as int,
                ),
            decreases output@.len() - k,
        {
            lower.push(output[k]);
            k = k + 1;
            proof {
                assert(lower@ =~= remove_all(after_upper[task.lower_level - 1].1, task.lower_level_sst_ids@)
                    + output@.take(k as int));
            }
        }
        levels_new[task.lower_level - 1].1 = lower;
        let mut obsolete = dedup_ids(&task.upper_level_sst_ids);
        let lower_obsolete = dedup_ids(&task.lower_level_sst_ids);
        append_ids(&mut obsolete, &lower_obsolete);
        let new_state = LsmStorageState {
            memtable: snapshot.memtable,
            imm_memtables: copy_ids(&snapshot.imm_memtables),
            l0_sstables: l0,
            levels: levels_new,
            sstables: snapshot.sstables.clone(),
        };
        proof {
            assert(output@.take(output@.len() as int) =~= output@);
            assert(new_state.levels_spec() =~= levels_after_compaction(
                levels,
                task.upper_level,
                task.upper_level_sst_ids@,
                task.lower_level,
                task.lower_level_sst_ids@,
                output@,
            ));
        }
        (new_state, obsolete)
    }
}

} // verus!
