use std::collections::HashMap;
use std::sync::Arc;

use mini_lsm::compact::leveled::{LeveledCompactionController, LeveledCompactionOptions, LeveledCompactionTask};
use mini_lsm::compact::simple_leveled::{
    SimpleLeveledCompactionController, SimpleLeveledCompactionOptions, SimpleLeveledCompactionTask,
};
use mini_lsm::compact::tiered::{TieredCompactionController, TieredCompactionOptions, TieredCompactionTask};
use mini_lsm::compact::{CompactionController, CompactionOptions, CompactionTask};
use mini_lsm::lsm_storage::{LsmStorageOptions, LsmStorageState};
use mini_lsm::table::SsTable;

fn state(l0: Vec<usize>, levels: Vec<(usize, Vec<usize>)>) -> LsmStorageState {
    LsmStorageState { memtable: 4, imm_memtables: vec![3], l0_sstables: l0, levels, sstables: HashMap::new() }
}

fn simple_options(ratio: usize) -> SimpleLeveledCompactionOptions {
    SimpleLeveledCompactionOptions {
        size_ratio_percent: ratio,
        level0_file_num_compaction_trigger: 2,
        max_levels: 3,
    }
}

fn tiered_options(max_merge_width: Option<usize>) -> TieredCompactionOptions {
    TieredCompactionOptions {
        num_tiers: 3,
        max_size_amplification_percent: 200,
        size_ratio: 1,
        min_merge_width: 2,
        max_merge_width,
    }
}

fn leveled_options() -> LeveledCompactionOptions {
    LeveledCompactionOptions {
        level_size_multiplier: 2,
        level0_file_num_compaction_trigger: 2,
        max_levels: 3,
        base_level_size_mb: 1,
    }
}

/// A table known only by its key range and size.
fn table(id: usize, first: &str, last: &str, size: u64) -> Arc<SsTable> {
    Arc::new(SsTable {
        id,
        blocks: Vec::new(),
        block_meta: Vec::new(),
        block_meta_offset: 0,
        first_key: first.as_bytes().to_vec(),
        last_key: last.as_bytes().to_vec(),
        file_size: size,
        file: Vec::new(),
        bloom: None,
    })
}

/// L1 holds tables 2 (a..c), 3 (j..k), 4 (g..i) of 300000 bytes each, over the 786432 bytes
/// of its target; L2 holds 7 (b..h) and 8 (x..z), L3 holds 9 of 3 MB.
fn leveled_state(l0: Vec<usize>) -> LsmStorageState {
    let mut s = state(l0, vec![(1, vec![2, 3, 4]), (2, vec![7, 8]), (3, vec![9])]);
    for t in [
        table(2, "a", "c", 300000),
        table(3, "j", "k", 300000),
        table(4, "g", "i", 300000),
        table(7, "b", "h", 1000000),
        table(8, "x", "z", 100000),
        table(9, "a", "z", 3145728),
        table(10, "c", "e", 1000),
        table(11, "a", "b", 1000),
        table(20, "e", "f", 1000),
        table(21, "a", "d", 1000),
    ] {
        s.sstables.insert(t.id, t);
    }
    s
}

#[test]
fn simple_compacts_l0_once_it_reaches_the_trigger() {
    let ctrl = SimpleLeveledCompactionController::new(simple_options(200));
    let s = state(vec![5, 6], vec![(1, vec![1]), (2, vec![]), (3, vec![])]);
    let task = ctrl.generate_compaction_task(&s).unwrap();
    assert_eq!(task.upper_level, None);
    assert_eq!(task.upper_level_sst_ids, vec![5, 6]);
    assert_eq!(task.lower_level, 1);
    assert_eq!(task.lower_level_sst_ids, vec![1]);
    assert!(!task.is_lower_level_bottom_level);

    let (after, removed) = ctrl.apply_compaction_result(&s, &task, &[9]);
    assert_eq!(after.l0_sstables, Vec::<usize>::new());
    assert_eq!(after.levels, vec![(1, vec![9]), (2, vec![]), (3, vec![])]);
    assert_eq!(removed, vec![5, 6, 1]);
    assert_eq!(after.memtable, 4);
    assert_eq!(after.imm_memtables, vec![3]);
}

#[test]
fn simple_compacts_a_level_whose_lower_level_is_too_small() {
    let ctrl = SimpleLeveledCompactionController::new(simple_options(200));
    let s = state(vec![5], vec![(1, vec![1, 2]), (2, vec![3]), (3, vec![])]);
    let task = ctrl.generate_compaction_task(&s).unwrap();
    assert_eq!(task.upper_level, Some(1));
    assert_eq!(task.upper_level_sst_ids, vec![1, 2]);
    assert_eq!(task.lower_level, 2);
    assert_eq!(task.lower_level_sst_ids, vec![3]);
    assert!(!task.is_lower_level_bottom_level);

    let (after, removed) = ctrl.apply_compaction_result(&s, &task, &[7, 8]);
    assert_eq!(after.l0_sstables, vec![5]);
    assert_eq!(after.levels, vec![(1, vec![]), (2, vec![7, 8]), (3, vec![])]);
    assert_eq!(removed, vec![1, 2, 3]);
}

#[test]
fn simple_skips_empty_levels_and_marks_the_bottom_level() {
    let ctrl = SimpleLeveledCompactionController::new(simple_options(200));
    let s = state(vec![], vec![(1, vec![]), (2, vec![1, 2]), (3, vec![3])]);
    let task = ctrl.generate_compaction_task(&s).unwrap();
    assert_eq!(task.upper_level, Some(2));
    assert_eq!(task.lower_level, 3);
    assert!(task.is_lower_level_bottom_level);
}

#[test]
fn simple_leaves_balanced_levels_alone() {
    let ctrl = SimpleLeveledCompactionController::new(simple_options(100));
    let s = state(vec![5], vec![(1, vec![1]), (2, vec![2]), (3, vec![3])]);
    assert!(ctrl.generate_compaction_task(&s).is_none());
    let none = SimpleLeveledCompactionController::new(SimpleLeveledCompactionOptions {
        size_ratio_percent: 200,
        level0_file_num_compaction_trigger: 1,
        max_levels: 0,
    });
    assert!(none.generate_compaction_task(&state(vec![1], vec![])).is_none());
}

#[test]
fn simple_apply_removes_each_id_once() {
    let ctrl = SimpleLeveledCompactionController::new(simple_options(200));
    let s = state(vec![], vec![(1, vec![1, 2]), (2, vec![3]), (3, vec![])]);
    let task = SimpleLeveledCompactionTask {
        upper_level: Some(1),
        upper_level_sst_ids: vec![1, 2, 1],
        lower_level: 2,
        lower_level_sst_ids: vec![3, 3],
        is_lower_level_bottom_level: false,
    };
    let (after, removed) = ctrl.apply_compaction_result(&s, &task, &[]);
    assert_eq!(after.levels, vec![(1, vec![]), (2, vec![]), (3, vec![])]);
    assert_eq!(removed, vec![1, 2, 3]);
}

#[test]
fn tiered_waits_for_enough_tiers() {
    let ctrl = TieredCompactionController::new(tiered_options(None));
    let s = state(vec![], vec![(2, vec![2]), (1, vec![1])]);
    assert!(ctrl.generate_compaction_task(&s).is_none());
}

#[test]
fn tiered_compacts_everything_on_space_amplification() {
    let ctrl = TieredCompactionController::new(tiered_options(None));
    let s = state(vec![], vec![(3, vec![3]), (2, vec![2]), (1, vec![1])]);
    let task = ctrl.generate_compaction_task(&s).unwrap();
    assert_eq!(task.tiers, vec![(3, vec![3]), (2, vec![2]), (1, vec![1])]);
    assert!(task.bottom_tier_included);
}

#[test]
fn tiered_compacts_the_tiers_above_a_size_ratio_jump() {
    let ctrl = TieredCompactionController::new(tiered_options(None));
    let s = state(vec![], vec![(5, vec![5]), (4, vec![4]), (3, vec![3, 30, 31])]);
    let task = ctrl.generate_compaction_task(&s).unwrap();
    assert_eq!(task.tiers, vec![(5, vec![5]), (4, vec![4])]);
    assert!(!task.bottom_tier_included);
}

#[test]
fn tiered_reduces_sorted_runs_otherwise() {
    let s = state(vec![], vec![(3, vec![3, 30]), (2, vec![2, 20]), (1, vec![1, 10, 11, 12])]);
    let ctrl = TieredCompactionController::new(tiered_options(None));
    let task = ctrl.generate_compaction_task(&s).unwrap();
    assert_eq!(task.tiers.len(), 3);
    assert!(task.bottom_tier_included);
    let ctrl = TieredCompactionController::new(tiered_options(Some(2)));
    let task = ctrl.generate_compaction_task(&s).unwrap();
    assert_eq!(task.tiers, vec![(3, vec![3, 30]), (2, vec![2, 20])]);
    assert!(!task.bottom_tier_included);
}

#[test]
fn tiered_apply_keeps_a_newer_tier_in_front_of_the_output() {
    // tier 9 was flushed after the task was made: it stays first
    let ctrl = TieredCompactionController::new(tiered_options(None));
    let s = state(vec![], vec![(9, vec![9]), (3, vec![3]), (2, vec![2]), (1, vec![1])]);
    let task = TieredCompactionTask { tiers: vec![(3, vec![3]), (2, vec![2])], bottom_tier_included: false };
    let (after, removed) = ctrl.apply_compaction_result(&s, &task, &[10, 11]);
    assert_eq!(after.levels, vec![(9, vec![9]), (10, vec![10, 11]), (1, vec![1])]);
    assert_eq!(removed, vec![3, 2]);
}

#[test]
fn tiered_apply_puts_the_output_tier_first() {
    let ctrl = TieredCompactionController::new(tiered_options(None));
    let s = state(vec![], vec![(3, vec![3]), (2, vec![2]), (1, vec![1])]);
    let task = TieredCompactionTask { tiers: vec![(3, vec![3]), (2, vec![2])], bottom_tier_included: false };
    let (after, removed) = ctrl.apply_compaction_result(&s, &task, &[20, 21]);
    assert_eq!(after.levels, vec![(20, vec![20, 21]), (1, vec![1])]);
    assert_eq!(removed, vec![3, 2]);
}

#[test]
fn leveled_compacts_l0_into_the_first_level_with_a_target() {
    let ctrl = LeveledCompactionController::new(leveled_options());
    let s = leveled_state(vec![10, 11]);
    let task = ctrl.generate_compaction_task(&s).unwrap();
    assert_eq!(task.upper_level, None);
    assert_eq!(task.upper_level_sst_ids, vec![10, 11]);
    assert_eq!(task.lower_level, 1);
    assert_eq!(task.lower_level_sst_ids, vec![2]);
    assert!(!task.is_lower_level_bottom_level);
}

#[test]
fn leveled_compacts_the_level_most_over_its_target() {
    let ctrl = LeveledCompactionController::new(leveled_options());
    let s = leveled_state(vec![10]);
    let task = ctrl.generate_compaction_task(&s).unwrap();
    assert_eq!(task.upper_level, Some(1));
    // table 2 overlaps 7 (b..h), whose range brings in table 4 but not table 3
    assert_eq!(task.upper_level_sst_ids, vec![2, 4]);
    assert_eq!(task.lower_level, 2);
    assert_eq!(task.lower_level_sst_ids, vec![7]);
    assert!(!task.is_lower_level_bottom_level);
}

#[test]
fn leveled_apply_sorts_the_lower_level_by_first_key() {
    let ctrl = LeveledCompactionController::new(leveled_options());
    let s = leveled_state(vec![10]);
    let task = LeveledCompactionTask {
        upper_level: Some(1),
        upper_level_sst_ids: vec![2, 4],
        lower_level: 2,
        lower_level_sst_ids: vec![7],
        is_lower_level_bottom_level: false,
    };
    let (after, removed) = ctrl.apply_compaction_result(&s, &task, &[20, 21], false);
    assert_eq!(after.levels, vec![(1, vec![3]), (2, vec![21, 20, 8]), (3, vec![9])]);
    assert_eq!(after.l0_sstables, vec![10]);
    assert_eq!(removed, vec![2, 4, 7]);
    let (recovered, _) = ctrl.apply_compaction_result(&s, &task, &[20, 21], true);
    assert_eq!(recovered.levels, vec![(1, vec![3]), (2, vec![8, 20, 21]), (3, vec![9])]);
}

#[test]
fn leveled_apply_of_an_l0_task() {
    let ctrl = LeveledCompactionController::new(leveled_options());
    let s = leveled_state(vec![10, 11]);
    let task = LeveledCompactionTask {
        upper_level: None,
        upper_level_sst_ids: vec![10, 11],
        lower_level: 1,
        lower_level_sst_ids: vec![2],
        is_lower_level_bottom_level: false,
    };
    let (after, removed) = ctrl.apply_compaction_result(&s, &task, &[21], false);
    assert_eq!(after.l0_sstables, Vec::<usize>::new());
    assert_eq!(after.levels[0], (1, vec![21, 4, 3]));
    assert_eq!(removed, vec![10, 11, 2]);
}

#[test]
fn controller_dispatches_to_its_policy() {
    let ctrl = CompactionController::Simple(SimpleLeveledCompactionController::new(simple_options(200)));
    let s = state(vec![5, 6], vec![(1, vec![1]), (2, vec![]), (3, vec![])]);
    let task = ctrl.generate_compaction_task(&s).unwrap();
    assert!(matches!(task, CompactionTask::Simple(_)));
    assert!(!task.compact_to_bottom_level());
    let (after, removed) = ctrl.apply_compaction_result(&s, &task, &[9], false);
    assert_eq!(after.levels[0], (1, vec![9]));
    assert_eq!(removed, vec![5, 6, 1]);
    assert!(ctrl.flush_to_l0());
    assert!(CompactionController::NoCompaction.flush_to_l0());
    let tiered = CompactionController::Tiered(TieredCompactionController::new(tiered_options(None)));
    assert!(!tiered.flush_to_l0());
}

#[test]
fn full_compaction_goes_to_the_bottom_level() {
    let task = CompactionTask::ForceFullCompaction { l0_sstables: vec![1], l1_sstables: vec![2] };
    assert!(task.compact_to_bottom_level());
    let tiered = CompactionTask::Tiered(TieredCompactionTask { tiers: vec![], bottom_tier_included: true });
    assert!(tiered.compact_to_bottom_level());
}

#[test]
fn created_state_has_a_level_per_level_number() {
    let options = LsmStorageOptions::default_for_week2_test(CompactionOptions::Simple(simple_options(200)));
    let s = LsmStorageState::create(&options);
    assert_eq!(s.memtable, 0);
    assert!(s.imm_memtables.is_empty());
    assert!(s.l0_sstables.is_empty());
    assert_eq!(s.levels, vec![(1, vec![]), (2, vec![]), (3, vec![])]);
    assert!(s.sstables.is_empty());
    let tiered = LsmStorageOptions::default_for_week2_test(CompactionOptions::Tiered(tiered_options(None)));
    assert!(LsmStorageState::create(&tiered).levels.is_empty());
    let none = LsmStorageState::create(&LsmStorageOptions::default_for_week1_test());
    assert_eq!(none.levels, vec![(1, vec![])]);
}

#[test]
fn option_presets() {
    let week1 = LsmStorageOptions::default_for_week1_test();
    assert_eq!(week1.block_size, 4096);
    assert_eq!(week1.target_sst_size, 2 << 20);
    assert_eq!(week1.num_memtable_limit, 50);
    assert!(!week1.enable_wal);
    let day6 = LsmStorageOptions::default_for_week1_day6_test();
    assert_eq!(day6.num_memtable_limit, 2);
    assert_eq!(day6.target_sst_size, 2 << 20);
    let week2 = LsmStorageOptions::default_for_week2_test(CompactionOptions::NoCompaction);
    assert_eq!(week2.target_sst_size, 1 << 20);
    assert!(matches!(week2.compaction_options, CompactionOptions::NoCompaction));
}

#[test]
fn controller_for_the_chosen_options() {
    assert!(matches!(
        CompactionController::for_options(&CompactionOptions::Simple(simple_options(200))),
        CompactionController::Simple(_)
    ));
    assert!(matches!(
        CompactionController::for_options(&CompactionOptions::Leveled(leveled_options())),
        CompactionController::Leveled(_)
    ));
    let tiered = CompactionController::for_options(&CompactionOptions::Tiered(tiered_options(None)));
    assert!(!tiered.flush_to_l0());
    assert!(matches!(
        CompactionController::for_options(&CompactionOptions::NoCompaction),
        CompactionController::NoCompaction
    ));
    // the controller keeps the options it was made with
    let simple = CompactionController::for_options(&CompactionOptions::Simple(simple_options(200)));
    let s = state(vec![5, 6], vec![(1, vec![1]), (2, vec![]), (3, vec![])]);
    assert!(simple.generate_compaction_task(&s).is_some());
}
