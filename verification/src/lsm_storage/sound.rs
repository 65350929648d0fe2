//! Whether an engine can be used: tests for what the other operations ask of it.
use crate::compact::{self, CompactionTask, TieredCompactionTask};
use crate::compact::tiered;
use crate::iterators::concat_iterator;
use crate::key::{self, KeySlice, StorageKey};
use crate::lsm_storage::{self, LsmStorageInner};
use crate::lsm_storage::compaction;
use crate::lsm_storage::read;
use crate::mem_table::is_storable;
use crate::table::{self, SsTable};
use std::collections::HashMap;
use std::sync::Arc;
use vstd::prelude::*;

verus! {

/// Whether the tables of a level are there and sound, and stand in order.
fn is_level_sound(ids: &[usize], sstables: &HashMap<usize, Arc<SsTable>>) -> (r: bool)
    ensures
        r <==> (forall|i: int| 0 <= i < ids@.len() ==> sstables@.contains_key(#[trigger] ids@[i]))
            && concat_iterator::run_wf(lsm_storage::tables_of(ids@, sstables@)),
{
    let ghost ts = lsm_storage::tables_of(ids@, sstables@);
    let mut i: usize = 0;
    while i < ids.len()
        invariant
            i <= ids@.len(),
            ts == lsm_storage::tables_of(ids@, sstables@),
            forall|j: int| 0 <= j < i ==> sstables@.contains_key(#[trigger] ids@[j]),
            forall|j: int| 0 <= j < i ==> (#[trigger] ts[j]).wf(),
            ids@.len() > 1 ==> forall|j: int|
                0 <= j < i ==> (#[trigger] ts[j]).entries().len() > 0,
            forall|j: int|
                0 < j < i ==> key::key_lt(ts[j - 1].last_key@, (#[trigger] ts[j]).first_key@),
        decreases ids@.len() - i,
    {
        broadcast use vstd::std_specs::hash::group_hash_axioms;

        let sst: &Arc<SsTable> = match sstables.get(&ids[i]) {
            None => {
                assert(!sstables@.contains_key(ids@[i as int]));
                return false;
            },
            Some(sst) => sst,
        };
        assert(ts[i as int] == *sst);
        if !sst.is_sound() {
            return false;
        }
        if ids.len() > 1 && sst.num_of_blocks() == 0 {
            assert(ts[i as int].entries().len() == 0);
            return false;
        }
        proof {
            if ids@.len() > 1 {
                table::lemma_entries_nonempty(&**sst);
            }
        }
        if i > 0 {
            match sstables.get(&ids[i - 1]) {
                None => {
                    return false;
                },
                Some(before) => {
                    assert(ts[i - 1] == *before);
                    let end: KeySlice<'_> = before.last_key().as_key_slice();
                    let begin: KeySlice<'_> = sst.first_key().as_key_slice();
                    if !end.less(&begin) {
                        proof {
                            if concat_iterator::run_wf(ts) {
                                read::lemma_run_keys(ts, i - 1, i as int);
                            }
                        }
                        return false;
                    }
                },
            }
        }
        i = i + 1;
    }
    proof {
        read::lemma_chain_run(ts, 0);
    }
    true
}

impl LsmStorageInner {
    /// Whether all tables are there and sound, and the tables of each level stand in order.
    pub fn is_sound(&self) -> (r: bool)
        requires
            self.state.mems_wf(),
        ensures
            r == self.state.wf(),
    {
        let ghost layout = self.state.layout();
        let ghost tables = self.state.sstables@;
        let mut i: usize = 0;
        while i < self.state.l0_sstables.len()
            invariant
                i <= self.state.l0_sstables@.len(),
                layout == self.state.layout(),
                tables == self.state.sstables@,
                forall|j: int|
                    0 <= j < i ==> tables.contains_key(#[trigger] layout.l0[j])
                        && tables[layout.l0[j]].wf(),
            decreases self.state.l0_sstables@.len() - i,
        {
            broadcast use vstd::std_specs::hash::group_hash_axioms;

            assert(layout.l0[i as int] == self.state.l0_sstables@[i as int]);
            match self.state.sstables.get(&self.state.l0_sstables[i]) {
                None => {
                    return false;
                },
                Some(sst) => {
                    if !sst.is_sound() {
                        return false;
                    }
                },
            }
            i = i + 1;
        }
        let mut n: usize = 0;
        while n < self.state.levels.len()
            invariant
                n <= self.state.levels@.len(),
                layout == self.state.layout(),
                tables == self.state.sstables@,
                forall|j: int| 0 <= j < n
                    ==> #[trigger] lsm_storage::level_wf(layout.levels[j], tables),
            decreases self.state.levels@.len() - n,
        {
            assert(layout.levels[n as int].1 == self.state.levels@[n as int].1@);
            if !is_level_sound(self.state.levels[n].1.as_slice(), &self.state.sstables) {
                assert(!lsm_storage::level_wf(layout.levels[n as int], tables));
                return false;
            }
            assert(lsm_storage::level_wf(layout.levels[n as int], tables));
            n = n + 1;
        }
        true
    }

    /// Whether those of the tables with these ids that are there can be merged.
    fn are_compactable(&self, ids: &[usize]) -> (r: bool)
        ensures
            r == compaction::ids_compactable(ids@, self.state.sstables@),
    {
        let ghost tables = self.state.sstables@;
        let mut i: usize = 0;
        while i < ids.len()
            invariant
                i <= ids@.len(),
                tables == self.state.sstables@,
                forall|j: int|
                    0 <= j < i && tables.contains_key(#[trigger] ids@[j])
                        ==> compaction::compactable(
                        &*tables[ids@[j]],
                    ),
            decreases ids@.len() - i,
        {
            broadcast use vstd::std_specs::hash::group_hash_axioms;

            if let Some(sst) = self.state.sstables.get(&ids[i]) {
                if !sst.is_readable() || !sst.is_storable() {
                    assert(ids@.contains(ids@[i as int]));
                    return false;
                }
            }
            i = i + 1;
        }
        true
    }

    /// Whether the tables of a task can be read and stored again.
    pub fn is_compactable(&self, task: &CompactionTask) -> (r: bool)
        ensures
            r == compaction::ids_compactable(compact::task_ids(task@), self.state.sstables@),
    {
        let ghost tables = self.state.sstables@;
        match task {
            CompactionTask::ForceFullCompaction { l0_sstables, l1_sstables } => {
                proof {
                    compaction::lemma_both_compactable(l0_sstables@, l1_sstables@, tables);
                }
                self.are_compactable(l0_sstables.as_slice()) && self.are_compactable(
                    l1_sstables.as_slice(),
                )
            },
            CompactionTask::Simple(t) => {
                proof {
                    compaction::lemma_both_compactable(
                        t.upper_level_sst_ids@,
                        t.lower_level_sst_ids@,
                        tables,
                    );
                }
                self.are_compactable(t.upper_level_sst_ids.as_slice()) && self.are_compactable(
                    t.lower_level_sst_ids.as_slice(),
                )
            },
            CompactionTask::Leveled(t) => {
                proof {
                    compaction::lemma_both_compactable(
                        t.upper_level_sst_ids@,
                        t.lower_level_sst_ids@,
                        tables,
                    );
                }
                self.are_compactable(t.upper_level_sst_ids.as_slice()) && self.are_compactable(
                    t.lower_level_sst_ids.as_slice(),
                )
            },
            CompactionTask::Tiered(t) => self.are_tiers_compactable(t),
        }
    }

    /// Whether the tables of all tiers of a task can be read and stored again.
    fn are_tiers_compactable(&self, task: &TieredCompactionTask) -> (r: bool)
        ensures
            r == compaction::ids_compactable(
                tiered::tier_ids(task.tiers_seq()),
                self.state.sstables@,
            ),
    {
        let ghost tables = self.state.sstables@;
        let ghost tiers = task.tiers_seq();
        let mut ok: bool = true;
        let mut i: usize = 0;
        assert(tiers.take(0) =~= Seq::empty());
        while i < task.tiers.len()
            invariant
                i <= task.tiers@.len(),
                tiers == task.tiers_seq(),
                tables == self.state.sstables@,
                ok == compaction::ids_compactable(tiered::tier_ids(tiers.take(i as int)), tables),
            decreases task.tiers@.len() - i,
        {
            proof {
                assert(tiers.take(i + 1).drop_last() =~= tiers.take(i as int));
                assert(tiers.take(i + 1).last() == tiers[i as int]);
                assert(tiers[i as int].1 == task.tiers@[i as int].1@);
                compaction::lemma_both_compactable(
                    tiered::tier_ids(tiers.take(i as int)),
                    tiers[i as int].1,
                    tables,
                );
            }
            ok = ok && self.are_compactable(task.tiers[i].1.as_slice());
            i = i + 1;
        }
        assert(tiers.take(i as int) =~= tiers);
        ok
    }
}

} // verus!
