//! Compaction tasks and the controller that dispatches to the chosen compaction policy.
use vstd::prelude::*;

pub mod leveled;
pub mod simple_leveled;
pub mod tiered;

use crate::compact::leveled::{
    leveled_task, sort_by_first, LeveledCompactionController, LeveledCompactionOptions, LeveledCompactionTask,
};
use crate::compact::simple_leveled::{
    l0_after_compaction, levels_after_compaction, simple_task, SimpleLeveledCompactionController,
    SimpleLeveledCompactionOptions, SimpleLeveledCompactionTask,
};
use crate::compact::tiered::{
    tables_removed, tiered_levels_after, tiered_task, TieredCompactionController, TieredCompactionOptions,
    TieredCompactionTask,
};
use crate::iterators::concat_iterator::{
    lemma_tables_from_sorted, tables_from, tables_in_order, tables_wf, SstConcatIterator,
};
use crate::iterators::merge_iterator::{all_strictly_sorted, lemma_merge_sorted, lemma_merge_value, merge, MergeIterator};
use crate::iterators::two_merge_iterator::{
    lemma_two_merge_sorted_union, two_merge_run, TwoMergeIterator,
};
use crate::iterators::{first_value, strictly_sorted, value_of, IteratorError, StorageIterator};
use crate::lsm_iterator::{lemma_live_push, lemma_live_value, live, live_value};
use crate::lsm_storage::{ids_of, insert_tables, known_ids, levels_view, remove_keys, tables_of, LsmStorageState};
use crate::table_iterator::{lemma_table_stream_sorted, table_sorted, table_stream, SsTableIterator};
use crate::table::SsTable;
use crate::bloom::BITS_PER_KEY;
use crate::table_builder::{
    all_entries, built_table, fingerprint_fits, lemma_view_after_adds_entries, lemma_add_sizes, view_after_add, view_after_adds, SsTableBuilder,
};
use std::sync::Arc;

verus! {

/// A compaction to run.
#[derive(Debug)]
pub enum CompactionTask {
    Leveled(LeveledCompactionTask),
    Tiered(TieredCompactionTask),
    Simple(SimpleLeveledCompactionTask),
    ForceFullCompaction { l0_sstables: Vec<usize>, l1_sstables: Vec<usize> },
}

impl CompactionTask {
    /// Whether the task writes into the bottom level, where deletions can be dropped.
    pub open spec fn to_bottom_level(&self) -> bool {
        match self {
            CompactionTask::ForceFullCompaction { .. } => true,
            CompactionTask::Leveled(task) => task.is_lower_level_bottom_level,
            CompactionTask::Simple(task) => task.is_lower_level_bottom_level,
            CompactionTask::Tiered(task) => task.bottom_tier_included,
        }
    }

    pub fn compact_to_bottom_level(&self) -> (r: bool)
        ensures
            r == self.to_bottom_level(),
    {
        match self {
            CompactionTask::ForceFullCompaction { .. } => true,
            CompactionTask::Leveled(task) => task.is_lower_level_bottom_level,
            CompactionTask::Simple(task) => task.is_lower_level_bottom_level,
            CompactionTask::Tiered(task) => task.bottom_tier_included,
        }
    }
}

/// The compaction policy in use, with its controller.
pub enum CompactionController {
    Leveled(LeveledCompactionController),
    Tiered(TieredCompactionController),
    Simple(SimpleLeveledCompactionController),
    NoCompaction,
}

impl CompactionController {
    /// The controller can generate a task for the state: there is a policy, and the state meets
    /// what that policy needs.
    pub open spec fn can_generate(&self, snapshot: &LsmStorageState) -> bool {
        match self {
            CompactionController::Leveled(c) => c.can_generate(snapshot),
            CompactionController::Simple(c) => c.can_generate(snapshot),
            CompactionController::Tiered(c) => c.can_generate(snapshot),
            CompactionController::NoCompaction => false,
        }
    }

    /// The task comes from the same policy as the controller, and the state meets what that
    /// policy needs to apply it.
    pub open spec fn can_apply(
        &self,
        snapshot: &LsmStorageState,
        task: &CompactionTask,
        output: Seq<usize>,
        in_recovery: bool,
    ) -> bool {
        match (self, task) {
            (CompactionController::Leveled(c), CompactionTask::Leveled(t)) => c.can_apply(
                snapshot,
                t,
                output,
                in_recovery,
            ),
            (CompactionController::Simple(_), CompactionTask::Simple(t)) => SimpleLeveledCompactionController::can_apply(
                snapshot,
                t,
            ),
            (CompactionController::Tiered(_), CompactionTask::Tiered(t)) => TieredCompactionController::can_apply(
                snapshot,
                t,
                output,
            ),
            _ => false,
        }
    }

    /// Generates a task with the controller's policy.
    pub fn generate_compaction_task(&self, snapshot: &LsmStorageState) -> (r: Option<CompactionTask>)
        requires
            self.can_generate(snapshot),
        ensures
            match self {
                CompactionController::Leveled(c) => match r {
                    Some(CompactionTask::Leveled(t)) => leveled_task(
                        c.options(),
                        snapshot.sstables@,
                        snapshot.l0_sstables@,
                        snapshot.levels_spec(),
                    ) == Some(t@),
                    None => leveled_task(
                        c.options(),
                        snapshot.sstables@,
                        snapshot.l0_sstables@,
                        snapshot.levels_spec(),
                    ) is None,
                    _ => false,
                },
                CompactionController::Simple(c) => match r {
                    Some(CompactionTask::Simple(t)) => simple_task(
                        c.options(),
                        snapshot.l0_sstables@,
                        snapshot.levels_spec(),
                    ) == Some(t@),
                    None => simple_task(c.options(), snapshot.l0_sstables@, snapshot.levels_spec()) is None,
                    _ => false,
                },
                CompactionController::Tiered(c) => match r {
                    Some(CompactionTask::Tiered(t)) => tiered_task(c.options(), snapshot.levels_spec()) == Some(t@),
                    None => tiered_task(c.options(), snapshot.levels_spec()) is None,
                    _ => false,
                },
                CompactionController::NoCompaction => false,
            },
    {
        match self {
            CompactionController::Leveled(ctrl) => match ctrl.generate_compaction_task(snapshot) {
                Some(t) => Some(CompactionTask::Leveled(t)),
                None => None,
            },
            CompactionController::Simple(ctrl) => match ctrl.generate_compaction_task(snapshot) {
                Some(t) => Some(CompactionTask::Simple(t)),
                None => None,
            },
            CompactionController::Tiered(ctrl) => match ctrl.generate_compaction_task(snapshot) {
                Some(t) => Some(CompactionTask::Tiered(t)),
                None => None,
            },
            CompactionController::NoCompaction => None,
        }
    }

    /// Applies a finished task with the controller's policy; gives the new state and the
    /// tables the compaction made obsolete, as that policy's `apply_compaction_result` does.
    pub fn apply_compaction_result(
        &self,
        snapshot: &LsmStorageState,
        task: &CompactionTask,
        output: &[usize],
        in_recovery: bool,
    ) -> (r: (LsmStorageState, Vec<usize>))
        requires
            self.can_apply(snapshot, task, output@, in_recovery),
        ensures
            r.0.memtable == snapshot.memtable,
            r.0.imm_memtables@ == snapshot.imm_memtables@,
            r.0.sstables@ == snapshot.sstables@,
            match task {
                CompactionTask::Leveled(t) => {
                    &&& r.0.l0_sstables@ == l0_after_compaction(
                        snapshot.l0_sstables@,
                        t.upper_level,
                        t.upper_level_sst_ids@,
                    )
                    &&& r.0.levels_spec() == leveled_levels_after(snapshot, t, output@, in_recovery)
                    &&& r.1@ == t.upper_level_sst_ids@ + t.lower_level_sst_ids@
                },
                CompactionTask::Simple(t) => {
                    &&& r.0.l0_sstables@ == l0_after_compaction(
                        snapshot.l0_sstables@,
                        t.upper_level,
                        t.upper_level_sst_ids@,
                    )
                    &&& r.0.levels_spec() == levels_after_compaction(
                        snapshot.levels_spec(),
                        t.upper_level,
                        t.upper_level_sst_ids@,
                        t.lower_level,
                        t.lower_level_sst_ids@,
                        output@,
                    )
                    &&& r.1@ == dedup(t.upper_level_sst_ids@) + dedup(t.lower_level_sst_ids@)
                },
                CompactionTask::Tiered(t) => {
                    &&& r.0.l0_sstables@ == snapshot.l0_sstables@
                    &&& r.0.levels_spec() == tiered_levels_after(snapshot.levels_spec(), t@.tiers, (output@[0], output@))
                    &&& r.1@ == tables_removed(snapshot.levels_spec(), t@.tiers)
                },
                CompactionTask::ForceFullCompaction { .. } => false,
            },
    {
        match (self, task) {
            (CompactionController::Leveled(ctrl), CompactionTask::Leveled(task)) => {
                ctrl.apply_compaction_result(snapshot, task, output, in_recovery)
            },
            (CompactionController::Simple(ctrl), CompactionTask::Simple(task)) => {
                ctrl.apply_compaction_result(snapshot, task, output)
            },
            (CompactionController::Tiered(ctrl), CompactionTask::Tiered(task)) => {
                ctrl.apply_compaction_result(snapshot, task, output)
            },
            _ => {
                proof {
                    assert(false);
                }
                (empty_state(), Vec::new())
            },
        }
    }

    /// The controller of the compaction policy the options choose.
    pub fn for_options(options: &CompactionOptions) -> (c: Self)
        ensures
            match *options {
                CompactionOptions::Leveled(o) => c matches CompactionController::Leveled(l) && l.options() == o,
                CompactionOptions::Tiered(o) => c matches CompactionController::Tiered(t) && t.options() == o,
                CompactionOptions::Simple(o) => c matches CompactionController::Simple(s) && s.options() == o,
                CompactionOptions::NoCompaction => c is NoCompaction,
            },
    {
        match options {
            CompactionOptions::Leveled(o) => CompactionController::Leveled(LeveledCompactionController::new(*o)),
            CompactionOptions::Tiered(o) => CompactionController::Tiered(TieredCompactionController::new(*o)),
            CompactionOptions::Simple(o) => CompactionController::Simple(SimpleLeveledCompactionController::new(*o)),
            CompactionOptions::NoCompaction => CompactionController::NoCompaction,
        }
    }

    /// Flushes go to L0 except under tiered compaction.
    pub fn flush_to_l0(&self) -> (r: bool)
        ensures
            r == !(self is Tiered),
    {
        match self {
            CompactionController::Leveled(_) | CompactionController::Simple(_) | CompactionController::NoCompaction => true,
            CompactionController::Tiered(_) => false,
        }
    }
}

/// A state with nothing in it; used on paths the contracts rule out.
fn empty_state() -> (s: LsmStorageState)
    ensures
        s.memtable == 0,
        s.imm_memtables@.len() == 0,
        s.l0_sstables@.len() == 0,
        s.levels@.len() == 0,
        s.sstables@ == Map::<usize, Arc<SsTable>>::empty(),
{
    LsmStorageState {
        memtable: 0,
        imm_memtables: Vec::new(),
        l0_sstables: Vec::new(),
        levels: Vec::new(),
        sstables: std::collections::HashMap::new(),
    }
}

/// The levels after a leveled compaction: as after any level compaction, with the lower level
/// sorted by first key unless the state is being recovered.
pub open spec fn leveled_levels_after(
    snapshot: &LsmStorageState,
    t: &LeveledCompactionTask,
    output: Seq<usize>,
    in_recovery: bool,
) -> Seq<(usize, Seq<usize>)> {
    let merged = levels_after_compaction(
        snapshot.levels_spec(),
        t.upper_level,
        t.upper_level_sst_ids@,
        t.lower_level,
        t.lower_level_sst_ids@,
        output,
    );
    let lower = merged[t.lower_level - 1];
    if in_recovery {
        merged
    } else {
        merged.update(t.lower_level - 1, (lower.0, sort_by_first(snapshot.sstables@, lower.1)))
    }
}

/// Generation drops an entry when it writes to the bottom level and the entry is a deletion
/// (an empty value).
pub open spec fn dropped(bottom: bool, e: (Seq<u8>, Seq<u8>)) -> bool {
    bottom && e.1.len() == 0
}

/// How generation cuts a stream of entries into tables: the entries of the finished tables,
/// those of the table being filled, and whether that table has taken an entry since the last
/// cut. Each entry that is not dropped is added to the table being filled, which is cut once
/// its finished blocks exceed the target size.
pub open spec fn sst_runs(s: Seq<(Seq<u8>, Seq<u8>)>, block_size: nat, target: int, bottom: bool) -> (
    Seq<Seq<(Seq<u8>, Seq<u8>)>>,
    Seq<(Seq<u8>, Seq<u8>)>,
    bool,
)
    decreases s.len(),
{
    if s.len() == 0 {
        (Seq::empty(), Seq::empty(), false)
    } else {
        let before = sst_runs(s.drop_last(), block_size, target, bottom);
        let e = s.last();
        if dropped(bottom, e) {
            before
        } else if view_after_adds(block_size, before.1.push(e)).data().len() > target {
            (before.0.push(before.1.push(e)), Seq::empty(), false)
        } else {
            (before.0, before.1.push(e), true)
        }
    }
}

/// The entries of each table generation writes: the cut ones, then the last one if it took
/// an entry.
pub open spec fn generated_runs(s: Seq<(Seq<u8>, Seq<u8>)>, block_size: nat, target: int, bottom: bool) -> Seq<
    Seq<(Seq<u8>, Seq<u8>)>,
> {
    let r = sst_runs(s, block_size, target, bottom);
    if r.2 {
        r.0.push(r.1)
    } else {
        r.0
    }
}

/// The entries that are not dropped, in order.
pub open spec fn kept_entries(s: Seq<(Seq<u8>, Seq<u8>)>, bottom: bool) -> Seq<(Seq<u8>, Seq<u8>)>
    decreases s.len(),
{
    if s.len() == 0 {
        Seq::empty()
    } else if dropped(bottom, s.last()) {
        kept_entries(s.drop_last(), bottom)
    } else {
        kept_entries(s.drop_last(), bottom).push(s.last())
    }
}

/// The cut tables and the one being filled hold the kept entries, no more cuts happen than
/// there are entries, the table being filled has taken an entry exactly when it holds one,
/// and every cut table holds an entry.
pub proof fn lemma_sst_runs(s: Seq<(Seq<u8>, Seq<u8>)>, block_size: nat, target: int, bottom: bool)
    ensures
        all_entries(sst_runs(s, block_size, target, bottom).0) + sst_runs(s, block_size, target, bottom).1
            == kept_entries(s, bottom),
        sst_runs(s, block_size, target, bottom).0.len() <= s.len(),
        sst_runs(s, block_size, target, bottom).2 == (sst_runs(s, block_size, target, bottom).1.len() > 0),
        forall|i: int|
            0 <= i < sst_runs(s, block_size, target, bottom).0.len() ==> (#[trigger] sst_runs(
                s,
                block_size,
                target,
                bottom,
            ).0[i]).len() > 0,
    decreases s.len(),
{
    if s.len() > 0 {
        lemma_sst_runs(s.drop_last(), block_size, target, bottom);
        let before = sst_runs(s.drop_last(), block_size, target, bottom);
        let e = s.last();
        if !dropped(bottom, e) {
            let run = before.1.push(e);
            assert(before.0.push(run).drop_last() =~= before.0);
            assert(all_entries(before.0) + run =~= (all_entries(before.0) + before.1).push(e));
            assert(all_entries(before.0.push(run)) + Seq::<(Seq<u8>, Seq<u8>)>::empty() =~= all_entries(
                before.0.push(run),
            ));
        }
    }
}

/// Generation neither loses nor reorders what it keeps: the tables it writes hold, in order,
/// exactly the entries of the stream that are not dropped, and none of them is empty.
pub proof fn lemma_generated_runs_keep_entries(
    s: Seq<(Seq<u8>, Seq<u8>)>,
    block_size: nat,
    target: int,
    bottom: bool,
)
    ensures
        all_entries(generated_runs(s, block_size, target, bottom)) == kept_entries(s, bottom),
        forall|i: int|
            0 <= i < generated_runs(s, block_size, target, bottom).len() ==> (#[trigger] generated_runs(
                s,
                block_size,
                target,
                bottom,
            )[i]).len() > 0,
{
    lemma_sst_runs(s, block_size, target, bottom);
    let r = sst_runs(s, block_size, target, bottom);
    if r.2 {
        assert(r.0.push(r.1).drop_last() =~= r.0);
    } else {
        assert(all_entries(r.0) + r.1 =~= all_entries(r.0));
    }
}

/// Writes the entries of the iterator into tables of about `target_sst_size` bytes: deletions
/// are dropped when compacting to the bottom level, a table is finished once its blocks
/// exceed the target size, and each table takes the next id from `next_sst_id`, which is
/// also moved on after each finished table. Fails only when the iterator fails.
pub fn generate_new_sst_from_iter<I: StorageIterator>(
    iter: I,
    compact_to_bottom_level: bool,
    block_size: usize,
    target_sst_size: usize,
    next_sst_id: &mut usize,
) -> (r: Result<Vec<Arc<SsTable>>, IteratorError>)
    requires
        iter.wf(),
        *old(next_sst_id) + iter.stream().len() + 1 <= usize::MAX,
        target_sst_size + 2 * block_size + 64 <= usize::MAX,
        forall|i: int|
            0 <= i < iter.stream().len() ==> 2 * ((#[trigger] iter.stream()[i]).0.len() + iter.stream()[i].1.len())
                + target_sst_size + 2 * block_size + 64 <= usize::MAX,
        forall|i: int| 0 <= i < iter.stream().len() ==> fingerprint_fits((#[trigger] iter.stream()[i]).0),
        iter.stream().len() * BITS_PER_KEY + 71 <= usize::MAX,
    ensures
        iter.infallible() ==> r is Ok,
        r matches Ok(tables) ==> {
            let runs = generated_runs(
                iter.stream(),
                block_size as nat,
                target_sst_size as int,
                compact_to_bottom_level,
            );
            &&& tables@.len() == runs.len()
            &&& forall|i: int|
                0 <= i < runs.len() ==> built_table(
                    *#[trigger] tables@[i],
                    (*old(next_sst_id) + i) as usize,
                    view_after_adds(block_size as nat, runs[i]),
                )
            &&& *final(next_sst_id) == *old(next_sst_id) + 1 + sst_runs(
                iter.stream(),
                block_size as nat,
                target_sst_size as int,
                compact_to_bottom_level,
            ).0.len()
        },
{
    let ghost s0 = iter.stream();
    let ghost bs = block_size as nat;
    let ghost target = target_sst_size as int;
    let ghost bottom = compact_to_bottom_level;
    let ghost first_id = *next_sst_id;
    let ghost cap: int = (usize::MAX - target_sst_size - 2 * block_size - 64) / 2;
    let ghost inf = iter.infallible();
    let mut it = iter;
    let mut builder = SsTableBuilder::new(block_size);
    let mut new_sstables: Vec<Arc<SsTable>> = Vec::new();
    let mut id = *next_sst_id;
    *next_sst_id = *next_sst_id + 1;
    let mut has_new_builder = false;
    let ghost mut consumed: int = 0;
    let ghost mut runs: Seq<Seq<(Seq<u8>, Seq<u8>)>> = Seq::empty();
    let ghost mut cur: Seq<(Seq<u8>, Seq<u8>)> = Seq::empty();
    proof {
        assert(s0.take(0) =~= Seq::<(Seq<u8>, Seq<u8>)>::empty());
        assert(s0.skip(0) =~= s0);
        assert(builder@ =~= view_after_adds(bs, cur));
    }
    while it.is_valid()
        invariant
            it.wf(),
            inf == iter.infallible(),
            inf ==> it.infallible(),
            0 <= consumed <= s0.len(),
            it.stream() == s0.skip(consumed),
            sst_runs(s0.take(consumed), bs, target, bottom) == (runs, cur, has_new_builder),
            runs.len() <= consumed,
            cur.len() <= consumed,
            s0.len() * BITS_PER_KEY + 71 <= usize::MAX,
            bs == block_size,
            target == target_sst_size,
            bottom == compact_to_bottom_level,
            first_id + s0.len() + 1 <= usize::MAX,
            cap == (usize::MAX - target_sst_size - 2 * block_size - 64) / 2,
            target_sst_size + 2 * block_size + 64 <= usize::MAX,
            forall|i: int| 0 <= i < s0.len() ==> (#[trigger] s0[i]).0.len() + s0[i].1.len() <= cap,
            forall|i: int| 0 <= i < s0.len() ==> fingerprint_fits((#[trigger] s0[i]).0),
            builder.wf(),
            builder@ == view_after_adds(bs, cur),
            builder@.block_size == block_size,
            builder@.data().len() <= target_sst_size,
            crate::block_builder::built_data(builder@.current).len() + 2 * builder@.current.len() + 2 <= block_size
                + cap + 10,
            id == first_id + runs.len(),
            *next_sst_id == id + 1,
            new_sstables@.len() == runs.len(),
            forall|i: int|
                0 <= i < runs.len() ==> built_table(
                    *#[trigger] new_sstables@[i],
                    (first_id + i) as usize,
                    view_after_adds(bs, runs[i]),
                ),
        decreases it.stream().len(),
    {
        let ghost e = it.stream()[0];
        proof {
            assert(s0.skip(consumed)[0] == s0[consumed]);
            assert(s0.take(consumed + 1).drop_last() =~= s0.take(consumed));
            assert(s0.take(consumed + 1).last() == e);
            assert(s0.skip(consumed).drop_first() =~= s0.skip(consumed + 1));
            lemma_sst_runs(s0.take(consumed), bs, target, bottom);
        }
        let key = it.key();
        let value = it.value();
        if compact_to_bottom_level && value.len() == 0 {
            proof {
                consumed = consumed + 1;
            }
            match it.next() {
                Ok(()) => {},
                Err(err) => {
                    return Err(err);
                },
            }
            continue;
        }
        has_new_builder = true;
        let ghost v0 = builder@;
        proof {
            lemma_add_sizes(v0, key@, value@);
            assert(key@.len() + value@.len() <= cap);
        }
        builder.add(key, value);
        proof {
            let prev = cur;
            cur = cur.push(e);
            assert(cur.drop_last() =~= prev);
            assert(builder@ =~= view_after_add(v0, key@, value@));
            assert(builder@ =~= view_after_adds(bs, cur));
        }
        if builder.estimated_size() > target_sst_size {
            let mut full = SsTableBuilder::new(block_size);
            std::mem::swap(&mut full, &mut builder);
            proof {
                lemma_view_after_adds_entries(bs, cur);
            }
            let sstable = full.build(id);
            let ghost before_push = new_sstables@;
            new_sstables.push(Arc::new(sstable));
            has_new_builder = false;
            id = *next_sst_id;
            *next_sst_id = *next_sst_id + 1;
            proof {
                runs = runs.push(cur);
                cur = Seq::empty();
                assert(builder@ =~= view_after_adds(bs, cur));
                assert(crate::block_builder::built_data(builder@.current).len() == 0);
                assert forall|i: int| 0 <= i < runs.len() implies built_table(
                    *#[trigger] new_sstables@[i],
                    (first_id + i) as usize,
                    view_after_adds(bs, runs[i]),
                ) by {
                    if i < runs.len() - 1 {
                        assert(new_sstables@[i] == before_push[i]);
                    }
                }
            }
        }
        proof {
            consumed = consumed + 1;
        }
        match it.next() {
            Ok(()) => {},
            Err(err) => {
                return Err(err);
            },
        }
    }
    proof {
        assert(s0.take(consumed) =~= s0);
    }
    if has_new_builder {
        proof {
            lemma_view_after_adds_entries(bs, cur);
        }
        let sstable = builder.build(id);
        new_sstables.push(Arc::new(sstable));
    }
    Ok(new_sstables)
}

/// What iterators over the whole tables yield, table by table.
pub open spec fn whole_streams(tables: Seq<Arc<SsTable>>) -> Seq<Seq<(Seq<u8>, Seq<u8>)>> {
    Seq::new(tables.len(), |i: int| table_stream(*tables[i]))
}

/// What a full compaction merges: the L0 tables merged (the newest winning on equal keys),
/// merged in turn with the L1 tables read one after another, L0 winning on equal keys.
pub open spec fn full_compaction_run(l0: Seq<Arc<SsTable>>, l1: Seq<Arc<SsTable>>) -> Seq<(Seq<u8>, Seq<u8>)> {
    two_merge_run(merge(whole_streams(l0)), tables_from(l1, 0))
}

/// A full compaction of sorted L0 tables and of L1 tables in key order reads every key once,
/// in increasing order, the entry of the newest L0 table winning over older ones and over L1:
/// the k-way merge of the merged L0 tables and the L1 tables.
pub proof fn lemma_full_compaction_sorted(l0: Seq<Arc<SsTable>>, l1: Seq<Arc<SsTable>>)
    requires
        forall|i: int| 0 <= i < l0.len() ==> table_sorted(*#[trigger] l0[i]),
        tables_in_order(l1),
    ensures
        full_compaction_run(l0, l1) == merge(seq![merge(whole_streams(l0)), tables_from(l1, 0)]),
        strictly_sorted(full_compaction_run(l0, l1)),
{
    let ws = whole_streams(l0);
    assert(all_strictly_sorted(ws)) by {
        assert forall|i: int| 0 <= i < ws.len() implies strictly_sorted(#[trigger] ws[i]) by {
            lemma_table_stream_sorted(*l0[i]);
        }
    }
    lemma_merge_sorted(ws);
    lemma_tables_from_sorted(l1, 0);
    lemma_two_merge_sorted_union(merge(ws), tables_from(l1, 0));
}

/// Dropping the deletions of a stream leaves its live entries.
proof fn lemma_kept_is_live(s: Seq<(Seq<u8>, Seq<u8>)>)
    ensures
        kept_entries(s, true) == live(s),
    decreases s.len(),
{
    if s.len() > 0 {
        lemma_kept_is_live(s.drop_last());
        lemma_live_push(s.drop_last(), s.last());
        assert(s.drop_last().push(s.last()) =~= s);
    }
}

/// A full compaction of sorted L0 tables and of L1 tables in key order keeps, for each key,
/// its newest value unless that is a deletion: the value of the newest L0 table holding the
/// key, or else the value in L1. With `lemma_generated_runs_keep_entries`, the tables it
/// writes hold exactly these entries.
pub proof fn lemma_full_compaction_keeps_newest(l0: Seq<Arc<SsTable>>, l1: Seq<Arc<SsTable>>, key: Seq<u8>)
    requires
        forall|i: int| 0 <= i < l0.len() ==> table_sorted(*#[trigger] l0[i]),
        tables_in_order(l1),
    ensures
        value_of(kept_entries(full_compaction_run(l0, l1), true), key) == live_value(
            match first_value(whole_streams(l0), key) {
                Some(v) => Some(v),
                None => value_of(tables_from(l1, 0), key),
            },
        ),
{
    lemma_full_compaction_sorted(l0, l1);
    let ws = whole_streams(l0);
    let a = merge(ws);
    let b = tables_from(l1, 0);
    let run = full_compaction_run(l0, l1);
    assert(all_strictly_sorted(ws)) by {
        assert forall|i: int| 0 <= i < ws.len() implies strictly_sorted(#[trigger] ws[i]) by {
            lemma_table_stream_sorted(*l0[i]);
        }
    }
    lemma_merge_sorted(ws);
    lemma_tables_from_sorted(l1, 0);
    let pair = seq![a, b];
    assert(pair[0] == a && pair[1] == b);
    assert(all_strictly_sorted(pair));
    lemma_merge_value(pair, key);
    assert(pair.drop_last() =~= seq![a]);
    assert(pair.last() == b);
    assert(seq![a].drop_last() =~= Seq::<Seq<(Seq<u8>, Seq<u8>)>>::empty());
    assert(seq![a].last() == a);
    assert(first_value(Seq::<Seq<(Seq<u8>, Seq<u8>)>>::empty(), key) is None);
    assert(first_value(seq![a], key) == value_of(a, key));
    lemma_merge_value(ws, key);
    lemma_kept_is_live(run);
    lemma_live_value(run, key);
}

/// The L0 tables a full compaction of `l0_ids` reads: those the map knows, in order.
pub open spec fn full_l0_tables(tables: Map<usize, Arc<SsTable>>, l0_ids: Seq<usize>) -> Seq<Arc<SsTable>> {
    tables_of(tables, known_ids(tables, l0_ids))
}

/// The L1 tables a full compaction of `l1_ids` reads: those the map knows, sorted by first key.
pub open spec fn full_l1_tables(tables: Map<usize, Arc<SsTable>>, l1_ids: Seq<usize>) -> Seq<Arc<SsTable>> {
    tables_of(tables, sort_by_first(tables, known_ids(tables, l1_ids)))
}

/// Writing the stream `s` into tables can go on without overflow.
pub open spec fn generation_fits(s: Seq<(Seq<u8>, Seq<u8>)>, block_size: usize, target_sst_size: usize, next_id: usize) -> bool {
    &&& next_id + s.len() + 1 <= usize::MAX
    &&& target_sst_size + 2 * block_size + 64 <= usize::MAX
    &&& forall|i: int|
        0 <= i < s.len() ==> 2 * ((#[trigger] s[i]).0.len() + s[i].1.len()) + target_sst_size + 2 * block_size + 64
            <= usize::MAX
    &&& forall|i: int| 0 <= i < s.len() ==> fingerprint_fits((#[trigger] s[i]).0)
    &&& s.len() * BITS_PER_KEY + 71 <= usize::MAX
}

/// How far generation moves the next table id: one id for the table it starts with, and one
/// more for each table it cuts.
pub open spec fn ids_taken(s: Seq<(Seq<u8>, Seq<u8>)>, block_size: usize, target_sst_size: usize, bottom: bool) -> int {
    1 + sst_runs(s, block_size as nat, target_sst_size as int, bottom).0.len() as int
}

/// `tables` are what generation writes from `s` with ids from `first_id` on.
pub open spec fn generated_tables(
    tables: Seq<Arc<SsTable>>,
    s: Seq<(Seq<u8>, Seq<u8>)>,
    block_size: usize,
    target_sst_size: usize,
    bottom: bool,
    first_id: usize,
) -> bool {
    let runs = generated_runs(s, block_size as nat, target_sst_size as int, bottom);
    &&& tables.len() == runs.len()
    &&& forall|i: int|
        0 <= i < runs.len() ==> built_table(
            *#[trigger] tables[i],
            (first_id + i) as usize,
            view_after_adds(block_size as nat, runs[i]),
        )
}

impl LsmStorageState {
    /// Runs a compaction task and gives the tables it writes. Only a full compaction can be
    /// run: its L0 tables are merged, merged with its L1 tables read in key order, and written
    /// into tables of about the target size with deletions dropped, the ids taken from
    /// `next_sst_id`; with no tables to read nothing is written. Reading tables never fails,
    /// so neither does this.
    pub fn compact(
        &self,
        task: &CompactionTask,
        block_size: usize,
        target_sst_size: usize,
        next_sst_id: &mut usize,
    ) -> (r: Result<Vec<Arc<SsTable>>, IteratorError>)
        requires
            task is ForceFullCompaction,
            ({
                let l0 = full_l0_tables(self.sstables@, task->l0_sstables@);
                let l1 = full_l1_tables(self.sstables@, task->l1_sstables@);
                &&& forall|i: int| 0 <= i < l0.len() ==> (#[trigger] l0[i]).wf()
                &&& tables_wf(l1)
                &&& generation_fits(full_compaction_run(l0, l1), block_size, target_sst_size, *old(next_sst_id))
            }),
        ensures
            r is Ok,
            ({
                let l0 = full_l0_tables(self.sstables@, task->l0_sstables@);
                let l1 = full_l1_tables(self.sstables@, task->l1_sstables@);
                &&& l0.len() == 0 && l1.len() == 0 ==> (r matches Ok(t) && t@.len() == 0 && *final(next_sst_id)
                    == *old(next_sst_id))
                &&& (l0.len() > 0 || l1.len() > 0) ==> (r matches Ok(t) ==> generated_tables(
                    t@,
                    full_compaction_run(l0, l1),
                    block_size,
                    target_sst_size,
                    true,
                    *old(next_sst_id),
                ))
                &&& (l0.len() > 0 || l1.len() > 0) ==> *final(next_sst_id) == *old(next_sst_id) + ids_taken(
                    full_compaction_run(l0, l1),
                    block_size,
                    target_sst_size,
                    true,
                )
            }),
    {
        match task {
            CompactionTask::ForceFullCompaction { l0_sstables, l1_sstables } => {
                let (l0_ssts, l1_ssts) = self.full_compaction_inputs(l0_sstables, l1_sstables);
                if l0_ssts.len() == 0 && l1_ssts.len() == 0 {
                    return Ok(Vec::new());
                }
                let ghost l0 = l0_ssts@;
                let mut l0_iters: Vec<Box<SsTableIterator>> = Vec::new();
                let mut i: usize = 0;
                while i < l0_ssts.len()
                    invariant
                        i <= l0.len(),
                        l0_ssts@ == l0,
                        forall|k: int| 0 <= k < l0.len() ==> (#[trigger] l0[k]).wf(),
                        l0_iters@.len() == i,
                        forall|k: int|
                            0 <= k < i ==> (#[trigger] l0_iters@[k]).wf() && l0_iters@[k].stream() == table_stream(
                                *l0[k],
                            ),
                    decreases l0.len() - i,
                {
                    let it = match SsTableIterator::create_and_seek_to_first(l0_ssts[i].clone()) {
                        Ok(it) => it,
                        Err(e) => {
                            return Err(e);
                        },
                    };
                    l0_iters.push(Box::new(it));
                    i = i + 1;
                }
                let ghost kept = l0_iters@;
                let l0_merged_iter = MergeIterator::create(l0_iters);
                proof {
                    assert(l0_merged_iter.streams() =~= whole_streams(l0));
                }
                let l1_concat_iter = match SstConcatIterator::create_and_seek_to_first(l1_ssts) {
                    Ok(it) => it,
                    Err(e) => {
                        return Err(e);
                    },
                };
                let merged_iter = match TwoMergeIterator::create(l0_merged_iter, l1_concat_iter) {
                    Ok(it) => it,
                    Err(e) => {
                        return Err(e);
                    },
                };
                generate_new_sst_from_iter(merged_iter, task.compact_to_bottom_level(), block_size, target_sst_size, next_sst_id)
            },
            _ => {
                proof {
                    assert(false);
                }
                Ok(Vec::new())
            },
        }
    }

    /// Compacts all of L0 and L1 into new L1 tables: runs the full compaction task of the
    /// state, then gives the state with L0 emptied, L1 made of the written tables, the old
    /// tables out of the table map and the new ones in, and the ids of the old tables, L0
    /// first.
    pub fn force_full_compaction(
        &self,
        block_size: usize,
        target_sst_size: usize,
        next_sst_id: &mut usize,
    ) -> (r: Result<(LsmStorageState, Vec<usize>), IteratorError>)
        requires
            self.levels@.len() > 0,
            ({
                let l0 = full_l0_tables(self.sstables@, self.l0_sstables@);
                let l1 = full_l1_tables(self.sstables@, self.levels@[0].1@);
                &&& forall|i: int| 0 <= i < l0.len() ==> (#[trigger] l0[i]).wf()
                &&& tables_wf(l1)
                &&& generation_fits(full_compaction_run(l0, l1), block_size, target_sst_size, *old(next_sst_id))
            }),
        ensures
            r is Ok,
            r matches Ok((s, removed)) ==> {
                let l0 = full_l0_tables(self.sstables@, self.l0_sstables@);
                let l1 = full_l1_tables(self.sstables@, self.levels@[0].1@);
                &&& removed@ == self.l0_sstables@ + self.levels@[0].1@
                &&& s.memtable == self.memtable
                &&& s.imm_memtables@ == self.imm_memtables@
                &&& s.l0_sstables@.len() == 0
                &&& (l0.len() == 0 && l1.len() == 0 ==> *final(next_sst_id) == *old(next_sst_id))
                &&& (l0.len() > 0 || l1.len() > 0 ==> *final(next_sst_id) == *old(next_sst_id) + ids_taken(
                    full_compaction_run(l0, l1),
                    block_size,
                    target_sst_size,
                    true,
                ))
                &&& exists|written: Seq<Arc<SsTable>>|
                    {
                        &&& (l0.len() == 0 && l1.len() == 0 ==> written.len() == 0)
                        &&& (l0.len() > 0 || l1.len() > 0 ==> generated_tables(
                            written,
                            full_compaction_run(l0, l1),
                            block_size,
                            target_sst_size,
                            true,
                            *old(next_sst_id),
                        ))
                        &&& s.levels_spec() == self.levels_spec().update(0, (self.levels@[0].0, ids_of(written)))
                        &&& s.sstables@ == insert_tables(remove_keys(self.sstables@, removed@), written)
                    }
            },
    {
        let task = self.full_compaction_task();
        let compacted = match self.compact(&task, block_size, target_sst_size, next_sst_id) {
            Ok(t) => t,
            Err(e) => {
                return Err(e);
            },
        };
        match &task {
            CompactionTask::ForceFullCompaction { l0_sstables, l1_sstables } => {
                let r = self.apply_full_compaction(l0_sstables, l1_sstables, &compacted);
                proof {
                    assert forall|i: int| 0 <= i < self.l0_sstables@.len() implies l0_sstables@.contains(
                        #[trigger] self.l0_sstables@[i],
                    ) by {
                        assert(l0_sstables@[i] == self.l0_sstables@[i]);
                    }
                    lemma_remove_all_covered(self.l0_sstables@, l0_sstables@);
                    let written = compacted@;
                    assert(r.0.levels_spec() == self.levels_spec().update(0, (self.levels@[0].0, ids_of(written))));
                }
                Ok(r)
            },
            _ => {
                proof {
                    assert(false);
                }
                Err(IteratorError::Errored)
            },
        }
    }
}

/// The compaction policy in use.
#[derive(Clone, Copy, Debug)]
pub enum CompactionOptions {
    /// Leveled compaction with partial compaction + dynamic level support (= RocksDB's Leveled
    /// Compaction)
    Leveled(LeveledCompactionOptions),
    /// Tiered compaction (= RocksDB's universal compaction)
    Tiered(TieredCompactionOptions),
    /// Simple leveled compaction
    Simple(SimpleLeveledCompactionOptions),
    /// No compaction: every flush goes to L0
    NoCompaction,
}

/// The ids of `ids` that are not among `removed`, in order.
pub open spec fn remove_all(ids: Seq<usize>, removed: Seq<usize>) -> Seq<usize>
    decreases ids.len(),
{
    if ids.len() == 0 {
        Seq::empty()
    } else {
        let before = remove_all(ids.drop_last(), removed);
        if removed.contains(ids.last()) {
            before
        } else {
            before.push(ids.last())
        }
    }
}

/// Removing from a list of ids every id it holds leaves nothing.
proof fn lemma_remove_all_covered(ids: Seq<usize>, removed: Seq<usize>)
    requires
        forall|i: int| 0 <= i < ids.len() ==> removed.contains(#[trigger] ids[i]),
    ensures
        remove_all(ids, removed).len() == 0,
    decreases ids.len(),
{
    if ids.len() > 0 {
        assert(removed.contains(ids[ids.len() - 1]));
        lemma_remove_all_covered(ids.drop_last(), removed);
    }
}

/// The ids in first-occurrence order, each once.
pub open spec fn dedup(ids: Seq<usize>) -> Seq<usize>
    decreases ids.len(),
{
    if ids.len() == 0 {
        Seq::empty()
    } else {
        let before = dedup(ids.drop_last());
        if before.contains(ids.last()) {
            before
        } else {
            before.push(ids.last())
        }
    }
}

/// Tells whether `x` is among `ids`.
pub fn contains_id(ids: &Vec<usize>, x: usize) -> (r: bool)
    ensures
        r == ids@.contains(x),
{
    let mut i: usize = 0;
    while i < ids.len()
        invariant
            i <= ids@.len(),
            forall|j: int| 0 <= j < i ==> ids@[j] != x,
        decreases ids@.len() - i,
    {
        if ids[i] == x {
            return true;
        }
        i = i + 1;
    }
    false
}

/// A copy of the ids.
pub fn copy_ids(ids: &Vec<usize>) -> (r: Vec<usize>)
    ensures
        r@ == ids@,
{
    let mut r: Vec<usize> = Vec::new();
    let mut i: usize = 0;
    while i < ids.len()
        invariant
            i <= ids@.len(),
            r@ == ids@.take(i as int),
        decreases ids@.len() - i,
    {
        r.push(ids[i]);
        i = i + 1;
        proof {
            assert(r@ =~= ids@.take(i as int));
        }
    }
    proof {
        assert(ids@.take(i as int) =~= ids@);
    }
    r
}

/// Appends the ids of `other`.
pub fn append_ids(ids: &mut Vec<usize>, other: &Vec<usize>)
    ensures
        final(ids)@ == old(ids)@ + other@,
{
    let ghost start = ids@;
    let mut i: usize = 0;
    while i < other.len()
        invariant
            i <= other@.len(),
            ids@ == start + other@.take(i as int),
        decreases other@.len() - i,
    {
        ids.push(other[i]);
        i = i + 1;
        proof {
            assert(ids@ =~= start + other@.take(i as int));
        }
    }
    proof {
        assert(other@.take(i as int) =~= other@);
    }
}

/// A copy of the levels.
pub fn copy_levels(levels: &Vec<(usize, Vec<usize>)>) -> (r: Vec<(usize, Vec<usize>)>)
    ensures
        levels_view(r@) == levels_view(levels@),
        r@.len() == levels@.len(),
{
    let mut r: Vec<(usize, Vec<usize>)> = Vec::new();
    let mut i: usize = 0;
    while i < levels.len()
        invariant
            i <= levels@.len(),
            r@.len() == i,
            forall|k: int| 0 <= k < i ==> (#[trigger] r@[k]).0 == levels@[k].0 && r@[k].1@ == levels@[k].1@,
        decreases levels@.len() - i,
    {
        r.push((levels[i].0, copy_ids(&levels[i].1)));
        i = i + 1;
    }
    proof {
        assert(levels_view(r@) =~= levels_view(levels@));
    }
    r
}

/// The ids of `ids` that are not among `removed`, in order.
pub fn remove_ids(ids: &Vec<usize>, removed: &Vec<usize>) -> (r: Vec<usize>)
    ensures
        r@ == remove_all(ids@, removed@),
{
    let mut r: Vec<usize> = Vec::new();
    let mut i: usize = 0;
    while i < ids.len()
        invariant
            i <= ids@.len(),
            r@ == remove_all(ids@.take(i as int), removed@),
        decreases ids@.len() - i,
    {
        let x = ids[i];
        proof {
            assert(ids@.take(i + 1).drop_last() =~= ids@.take(i as int));
        }
        if !contains_id(removed, x) {
            r.push(x);
        }
        i = i + 1;
    }
    proof {
        assert(ids@.take(i as int) =~= ids@);
    }
    r
}

/// The ids in first-occurrence order, each once.
pub fn dedup_ids(ids: &Vec<usize>) -> (r: Vec<usize>)
    ensures
        r@ == dedup(ids@),
{
    let mut r: Vec<usize> = Vec::new();
    let mut i: usize = 0;
    while i < ids.len()
        invariant
            i <= ids@.len(),
            r@ == dedup(ids@.take(i as int)),
        decreases ids@.len() - i,
    {
        let x = ids[i];
        proof {
            assert(ids@.take(i + 1).drop_last() =~= ids@.take(i as int));
        }
        if !contains_id(&r, x) {
            r.push(x);
        }
        i = i + 1;
    }
    proof {
        assert(ids@.take(i as int) =~= ids@);
    }
    r
}

} // verus!
