//! Opening the storage engine.
use crate::compact::{
    self, CompactionController, CompactionOptions, LeveledCompactionController,
    SimpleLeveledCompactionController, TaskView, TieredCompactionController, chain_ids, copy_ids,
};
use crate::compact::leveled;
use crate::compact::tiered;
use crate::error::LsmError;
use crate::key::{self, Entry, KeyView};
use crate::lsm_storage::{
    self, LayoutView, LsmStorageInner, LsmStorageOptions, LsmStorageState, TableLayout,
};
use crate::lsm_storage::compaction::{self, sort_levels};
use crate::lsm_storage::flush;
use crate::lsm_storage::leveled_laws;
use crate::lsm_storage::writes;
use crate::manifest::{ManifestRecord, RecordView};
use crate::mem_table::MemTable;
use crate::table::SsTable;
use crate::versions;
use crate::wal::{self, WalError};
use std::collections::HashMap;
use std::sync::Arc;
use vstd::prelude::*;

verus! {

/// What the records of a manifest tell.
#[verifier::ext_equal]
pub struct ReplayView {
    pub layout: LayoutView,
    /// The id of the current memtable; 0 if no record told of one.
    pub memtable: usize,
    /// The ids of the immutable memtables, from latest to earliest.
    pub imm_memtables: Seq<usize>,
    /// The largest id that a record told of.
    pub max_sst_id: usize,
}

/// The larger of two ids.
pub open spec fn larger(a: usize, b: usize) -> usize {
    if a < b {
        b
    } else {
        a
    }
}

/// The largest of `start` and the ids.
pub open spec fn largest(start: usize, ids: Seq<usize>) -> usize
    decreases ids.len(),
{
    if ids.len() == 0 {
        start
    } else {
        larger(largest(start, ids.drop_last()), ids.last())
    }
}

/// What is known after one more record.
pub open spec fn replay_record(v: ReplayView, r: RecordView, to_l0: bool) -> ReplayView {
    match r {
        RecordView::Flush(id) => ReplayView {
            layout: flush::flushed_layout(v.layout, id, to_l0),
            max_sst_id: larger(v.max_sst_id, id),
            ..v
        },
        RecordView::NewMemtable(id) => ReplayView {
            memtable: id,
            imm_memtables: if v.memtable > 0 {
                v.imm_memtables.insert(0, v.memtable)
            } else {
                v.imm_memtables
            },
            max_sst_id: larger(v.max_sst_id, id),
            ..v
        },
        RecordView::Compaction(task, output) => ReplayView {
            layout: compact::layout_after(v.layout, task, output),
            max_sst_id: largest(v.max_sst_id, output),
            ..v
        },
    }
}

/// The controller for the given options.
pub open spec fn controller_for(options: CompactionOptions) -> CompactionController {
    match options {
        CompactionOptions::Leveled(options) => CompactionController::Leveled(
            LeveledCompactionController { options },
        ),
        CompactionOptions::Tiered(options) => CompactionController::Tiered(
            TieredCompactionController { options },
        ),
        CompactionOptions::Simple(options) => CompactionController::Simple(
            SimpleLeveledCompactionController { options },
        ),
        CompactionOptions::NoCompaction => CompactionController::NoCompaction,
    }
}

/// The controller for the given options.
pub fn make_controller(options: &CompactionOptions) -> (r: CompactionController)
    ensures
        r == controller_for(*options),
{
    match options {
        CompactionOptions::Leveled(o) => CompactionController::Leveled(
            LeveledCompactionController::new(*o),
        ),
        CompactionOptions::Tiered(o) => CompactionController::Tiered(
            TieredCompactionController::new(*o),
        ),
        CompactionOptions::Simple(o) => CompactionController::Simple(
            SimpleLeveledCompactionController::new(*o),
        ),
        CompactionOptions::NoCompaction => CompactionController::NoCompaction,
    }
}

/// An engine whose manifest is being replayed. Its memtables are empty, and its tables are not
/// there yet.
pub struct Recovery {
    pub state: LsmStorageState,
    pub controller: CompactionController,
    pub options: LsmStorageOptions,
    pub max_sst_id: usize,
}

/// The ids of memtables.
pub open spec fn memtable_ids(ms: Seq<Arc<MemTable>>) -> Seq<usize> {
    ms.map_values(|m: Arc<MemTable>| m.id)
}

/// The bytes of several logs.
pub open spec fn logs_view(logs: Seq<Vec<u8>>) -> Seq<Seq<u8>> {
    logs.map_values(|l: Vec<u8>| l@)
}

/// The first error in several logs.
pub open spec fn first_log_error(logs: Seq<Seq<u8>>) -> Option<WalError>
    decreases logs.len(),
{
    if logs.len() == 0 {
        None
    } else {
        match wal::scan_log(logs[0]).1 {
            Some(e) => Some(e),
            None => first_log_error(logs.drop_first()),
        }
    }
}

/// A memtable that was recovered from a log.
pub open spec fn recovered(m: MemTable, id: usize, log: Seq<u8>) -> bool {
    &&& m.wf()
    &&& m.id == id
    &&& m.wal is Some
    &&& m.wal->Some_0.pending@.len() == 0
    &&& m.approximate_size == 0
    &&& versions::contents(m.map) == wal::insert_all(Map::empty(), wal::scan_log(log).0)
}

/// The largest of some ids is no less than any of them.
proof fn lemma_largest(start: usize, ids: Seq<usize>)
    ensures
        start <= largest(start, ids),
        forall|id: usize| #[trigger] ids.contains(id) ==> id <= largest(start, ids),
    decreases ids.len(),
{
    if ids.len() > 0 {
        let front = ids.drop_last();
        lemma_largest(start, front);
        assert forall|id: usize| #[trigger] ids.contains(id) implies id <= largest(start, ids) by {
            let i = choose|i: int| 0 <= i < ids.len() && ids[i] == id;
            if i < front.len() {
                assert(front[i] == id);
                assert(front.contains(id));
            }
        }
    }
}

/// A table that has a place once a task has been applied had one before, or it came of the task.
pub proof fn lemma_ids_after(layout: LayoutView, task: TaskView, output: Seq<usize>, id: usize)
    requires
        lsm_storage::in_layout(compact::layout_after(layout, task, output), id),
    ensures
        lsm_storage::in_layout(layout, id) || output.contains(id),
{
    let next = compact::layout_after(layout, task, output);
    if next.l0.contains(id) {
        match task {
            TaskView::Leveled(t) => compact::lemma_without(layout.l0, t.upper, id),
            TaskView::Simple(t) => compact::lemma_without(layout.l0, t.upper, id),
            TaskView::ForceFullCompaction(l0, _) => compact::lemma_without(layout.l0, l0, id),
            TaskView::Tiered(_, _) => {},
        }
    } else {
        let i = choose|i: int|
            0 <= i < next.levels.len() && #[trigger] next.levels[i].1.contains(id);
        match task {
            TaskView::Simple(t) => {
                let ids = layout.levels[i].1;
                compact::lemma_without(ids, t.upper, id);
                let kept = if t.upper_level matches Some(u) && u == i + 1 {
                    compact::without(ids, t.upper)
                } else {
                    ids
                };
                compact::lemma_without(kept, t.lower, id);
                compact::lemma_concat_contains(compact::without(kept, t.lower), output, id);
            },
            TaskView::Leveled(t) => {
                let ids = layout.levels[i].1;
                compact::lemma_without(ids, t.upper, id);
                let kept = if t.upper_level matches Some(u) && u == i + 1 {
                    compact::without(ids, t.upper)
                } else {
                    ids
                };
                let p = leveled::first_of(kept, t.lower);
                leveled_laws::lemma_first_of_before(kept, t.lower);
                compact::lemma_without(kept.skip(p), t.lower, id);
                compact::lemma_concat_contains(
                    kept.take(p) + output,
                    compact::without(kept.skip(p), t.lower),
                    id,
                );
                compact::lemma_concat_contains(kept.take(p), output, id);
                compact::lemma_concat_contains(kept.take(p), kept.skip(p), id);
                assert(kept.take(p) + kept.skip(p) =~= kept);
            },
            TaskView::Tiered(tiers, _) => {
                let others = tiered::other_levels(layout.levels, tiers);
                tiered::lemma_other_levels_place(layout.levels, tiers);
                if !output.contains(id) {
                    let p = tiered::first_tier(layout.levels, tiers);
                    let j = if output.len() == 0 || i < p {
                        i
                    } else {
                        i - 1
                    };
                    if output.len() > 0 && i == p {
                        assert(next.levels[i].1 == output);
                    }
                    assert(next.levels[i] == others[j]);
                    assert(layout.levels.contains(others[j]));
                    let k = choose|k: int|
                        0 <= k < layout.levels.len() && layout.levels[k] == others[j];
                    assert(layout.levels[k].1.contains(id));
                }
            },
            TaskView::ForceFullCompaction(_, _) => {},
        }
    }
}

/// A record tells of the ids that come with it.
proof fn lemma_replayed_ids(v: ReplayView, record: RecordView, to_l0: bool)
    requires
        forall|id: usize| #[trigger] lsm_storage::in_layout(v.layout, id) ==> id <= v.max_sst_id,
    ensures
        ({
            let r = replay_record(v, record, to_l0);
            forall|id: usize| #[trigger] lsm_storage::in_layout(r.layout, id) ==> id <= r.max_sst_id
        }),
{
    let r = replay_record(v, record, to_l0);
    let a = v.layout;
    let b = r.layout;
    assert forall|id: usize| #[trigger] lsm_storage::in_layout(b, id)
        implies id <= r.max_sst_id by {
        match record {
            RecordView::Flush(new) => {
                if id != new {
                    if b.l0.contains(id) {
                        let i = choose|i: int| 0 <= i < b.l0.len() && b.l0[i] == id;
                        if to_l0 {
                            assert(a.l0[i - 1] == id);
                        }
                        assert(a.l0.contains(id));
                    } else {
                        let i = choose|i: int|
                            0 <= i < b.levels.len() && #[trigger] b.levels[i].1.contains(id);
                        if to_l0 {
                            assert(a.levels[i].1.contains(id));
                        } else {
                            if i == 0 {
                                assert(b.levels[0].1 == seq![new]);
                            }
                            assert(a.levels[i - 1].1.contains(id));
                        }
                    }
                    assert(lsm_storage::in_layout(a, id));
                }
            },
            RecordView::NewMemtable(_) => {},
            RecordView::Compaction(task, output) => {
                lemma_ids_after(a, task, output, id);
                lemma_largest(v.max_sst_id, output);
            },
        }
    }
}

impl Recovery {
    pub open spec fn view(&self) -> ReplayView {
        ReplayView {
            layout: self.state.layout(),
            memtable: self.state.memtable.id,
            imm_memtables: memtable_ids(self.state.imm_memtables@),
            max_sst_id: self.max_sst_id,
        }
    }

    /// The ids of the current memtable and of all tables are among those that the records told of.
    pub open spec fn wf(&self) -> bool {
        &&& self.state.memtable.id <= self.max_sst_id
        &&& forall|id: usize| #[trigger] lsm_storage::in_layout(self@.layout, id)
            ==> id <= self.max_sst_id
    }

    /// The engine before the first record.
    pub fn new(options: LsmStorageOptions) -> (r: Self)
        ensures
            r@ == (ReplayView {
                layout: LayoutView {
                    l0: Seq::empty(),
                    levels: LsmStorageState::initial_levels(options.compaction_options),
                },
                memtable: 0,
                imm_memtables: Seq::empty(),
                max_sst_id: 0,
            }),
            r.wf(),
            r.options == options,
            r.controller == controller_for(options.compaction_options),
    {
        let controller: CompactionController = make_controller(&options.compaction_options);
        let state: LsmStorageState = LsmStorageState::create(&options);
        let r = Recovery { state, controller, options, max_sst_id: 0 };
        assert(r@.layout.l0 =~= Seq::empty());
        assert(r@.imm_memtables =~= Seq::empty());
        r
    }

    /// Whether a record can be replayed: the result of a task can be applied.
    pub fn is_replayable(&self, record: &ManifestRecord) -> (r: bool)
        ensures
            r == match record@ {
                RecordView::Compaction(task, _) => self.controller.can_apply(self@.layout, task),
                _ => true,
            },
    {
        match record {
            ManifestRecord::Compaction(task, _) => self.controller.is_applicable(
                &self.state,
                task,
            ),
            _ => true,
        }
    }

    /// Replays a record.
    pub fn replay(&mut self, record: ManifestRecord)
        requires
            old(self).wf(),
            record@ matches RecordView::Compaction(task, _) ==> old(self).controller.can_apply(
                old(self)@.layout,
                task,
            ),
        ensures
            final(self).wf(),
            final(self)@ == replay_record(
                old(self)@,
                record@,
                old(self).controller.flushes_to_l0(),
            ),
            final(self).controller == old(self).controller,
            final(self).options == old(self).options,
    {
        let ghost before = self@;
        match record {
            ManifestRecord::Flush(sst_id) => {
                if self.max_sst_id < sst_id {
                    self.max_sst_id = sst_id;
                }
                if self.controller.flush_to_l0() {
                    self.state.l0_sstables.insert(0, sst_id);
                } else {
                    let ghost levels = self.state.levels@;
                    let mut ids: Vec<usize> = Vec::new();
                    ids.push(sst_id);
                    assert(ids@ =~= seq![sst_id]);
                    self.state.levels.insert(0, (sst_id, ids));
                    assert(lsm_storage::levels_view(self.state.levels@)
                        =~= lsm_storage::levels_view(levels).insert(
                        0,
                        (sst_id, seq![sst_id]),
                    ));
                }
            },
            ManifestRecord::NewMemtable(id) => {
                if self.max_sst_id < id {
                    self.max_sst_id = id;
                }
                let mut memtable: MemTable = MemTable::create(id);
                std::mem::swap(&mut memtable, &mut self.state.memtable);
                if memtable.id() > 0 {
                    let ghost imm = self.state.imm_memtables@;
                    let ghost old_id = memtable.id;
                    self.state.imm_memtables.insert(0, Arc::new(memtable));
                    assert(memtable_ids(self.state.imm_memtables@) =~= memtable_ids(imm).insert(
                        0,
                        old_id,
                    ));
                }
            },
            ManifestRecord::Compaction(task, output) => {
                let mut i: usize = 0;
                let ghost start = self.max_sst_id;
                assert(output@.take(0) =~= Seq::empty());
                while i < output.len()
                    invariant
                        i <= output@.len(),
                        self.max_sst_id == largest(start, output@.take(i as int)),
                        self.max_sst_id >= start,
                        self.state == old(self).state,
                        self.controller == old(self).controller,
                        self.options == old(self).options,
                    decreases output@.len() - i,
                {
                    assert(output@.take(i + 1).drop_last() =~= output@.take(i as int));
                    assert(output@.take(i + 1).last() == output@[i as int]);
                    if self.max_sst_id < output[i] {
                        self.max_sst_id = output[i];
                    }
                    i = i + 1;
                }
                assert(output@.take(i as int) =~= output@);
                let applied: (TableLayout, Vec<usize>) = self.controller.apply_compaction_result(
                    &self.state,
                    &task,
                    output.as_slice(),
                    true,
                );
                self.state.l0_sstables = applied.0.l0_sstables;
                self.state.levels = applied.0.levels;
            },
        }
        assert(self@ =~= replay_record(before, record@, self.controller.flushes_to_l0()));
        proof {
            lemma_replayed_ids(before, record@, self.controller.flushes_to_l0());
        }
    }

    /// The ids of all tables that are in use: those of L0, then those of the levels.
    pub fn table_ids(&self) -> (r: Vec<usize>)
        ensures
            r@ == self@.layout.l0 + tiered::tier_ids(self@.layout.levels),
    {
        let mut r: Vec<usize> = copy_ids(self.state.l0_sstables.as_slice());
        let ghost levels = self@.layout.levels;
        let mut i: usize = 0;
        assert(levels.take(0) =~= Seq::empty());
        assert(r@ =~= self@.layout.l0 + tiered::tier_ids(levels.take(0)));
        while i < self.state.levels.len()
            invariant
                i <= self.state.levels@.len(),
                levels == self@.layout.levels,
                r@ == self@.layout.l0 + tiered::tier_ids(levels.take(i as int)),
            decreases self.state.levels@.len() - i,
        {
            assert(levels.take(i + 1).drop_last() =~= levels.take(i as int));
            assert(levels.take(i + 1).last() == levels[i as int]);
            assert(levels[i as int].1 == self.state.levels@[i as int].1@);
            let ghost before = r@;
            r = chain_ids(r.as_slice(), self.state.levels[i].1.as_slice());
            assert(r@ =~= self@.layout.l0 + tiered::tier_ids(levels.take(i + 1)));
            i = i + 1;
        }
        assert(levels.take(i as int) =~= levels);
        r
    }

    /// The ids of the immutable memtables, from latest to earliest.
    pub fn imm_ids(&self) -> (r: Vec<usize>)
        ensures
            r@ == self@.imm_memtables,
    {
        let mut r: Vec<usize> = Vec::new();
        let mut i: usize = 0;
        while i < self.state.imm_memtables.len()
            invariant
                i <= self.state.imm_memtables@.len(),
                r@.len() == i,
                forall|j: int| 0 <= j < i ==> #[trigger] r@[j] == self.state.imm_memtables@[j].id,
            decreases self.state.imm_memtables@.len() - i,
        {
            r.push(self.state.imm_memtables[i].id());
            i = i + 1;
        }
        assert(r@ =~= self@.imm_memtables);
        r
    }

    /// Recovers the immutable memtables from their logs.
    fn recover_imm(&self, logs: &Vec<Vec<u8>>) -> (r: Result<Vec<Arc<MemTable>>, LsmError>)
        requires
            logs@.len() == self.state.imm_memtables@.len(),
        ensures
            match first_log_error(logs_view(logs@)) {
                Some(e) => r is Err && r->Err_0 == LsmError::BadLog(e),
                None => {
                    &&& r is Ok
                    &&& r->Ok_0@.len() == logs@.len()
                    &&& forall|i: int|
                        0 <= i < logs@.len() ==> recovered(
                            *#[trigger] r->Ok_0@[i],
                            self@.imm_memtables[i],
                            logs@[i]@,
                        )
                },
            },
    {
        let ghost views = logs_view(logs@);
        let mut r: Vec<Arc<MemTable>> = Vec::new();
        let mut i: usize = 0;
        assert(views.skip(0) =~= views);
        while i < logs.len()
            invariant
                i <= logs@.len(),
                logs@.len() == self.state.imm_memtables@.len(),
                views == logs_view(logs@),
                r@.len() == i,
                first_log_error(views) == first_log_error(views.skip(i as int)),
                forall|j: int|
                    0 <= j < i ==> recovered(
                        *#[trigger] r@[j],
                        self@.imm_memtables[j],
                        logs@[j]@,
                    ),
            decreases logs@.len() - i,
        {
            let ghost rest = views.skip(i as int);
            assert(rest[0] == logs@[i as int]@);
            assert(rest.drop_first() =~= views.skip(i + 1));
            let id: usize = self.state.imm_memtables[i].id();
            match MemTable::recover_from_wal(id, logs[i].as_slice()) {
                Err(e) => {
                    return Err(LsmError::BadLog(e));
                },
                Ok(m) => {
                    r.push(Arc::new(m));
                },
            }
            i = i + 1;
        }
        assert(views.skip(i as int) =~= Seq::empty());
        Ok(r)
    }

    /// The first error in the logs that are read.
    pub open spec fn log_error(&self, imm_logs: Seq<Seq<u8>>, log: Seq<u8>) -> Option<WalError> {
        if !self.options.enable_wal {
            None
        } else {
            match first_log_error(imm_logs) {
                Some(e) => Some(e),
                None => if self@.memtable > 0 {
                    wal::scan_log(log).1
                } else {
                    None
                },
            }
        }
    }

    /// The memtables that the engine begins with, its next id, and the record that is to be added
    /// to the manifest.
    pub open spec fn starts_with(
        &self,
        inner: LsmStorageInner,
        record: Option<ManifestRecord>,
        imm_logs: Seq<Seq<u8>>,
        log: Seq<u8>,
    ) -> bool {
        let fresh = (self.max_sst_id + 1) as usize;
        let mem = inner.state.memtable;
        if self.options.enable_wal {
            &&& inner.state.imm_memtables@.len() == imm_logs.len()
            &&& forall|i: int|
                0 <= i < imm_logs.len() ==> recovered(
                    *#[trigger] inner.state.imm_memtables@[i],
                    self@.imm_memtables[i],
                    imm_logs[i],
                )
            &&& if self@.memtable > 0 {
                &&& recovered(mem, self@.memtable, log)
                &&& inner.next_sst_id == self@.memtable + 1
                &&& record is None
            } else {
                &&& mem.wf()
                &&& mem.id == fresh
                &&& mem.entries() == Seq::<Entry>::empty()
                &&& mem.wal is Some
                &&& mem.wal->Some_0.pending@.len() == 0
                &&& mem.approximate_size == 0
                &&& inner.next_sst_id == fresh + 1
                &&& record == Some(ManifestRecord::NewMemtable(fresh))
            }
        } else {
            &&& inner.state.imm_memtables@.len() == 0
            &&& mem.wf()
            &&& mem.id == fresh
            &&& mem.entries() == Seq::<Entry>::empty()
            &&& mem.wal is None
            &&& mem.approximate_size == 0
            &&& inner.next_sst_id == fresh + 1
            &&& record is None
        }
    }

    /// The engine that is opened with these tables and logs.
    pub open spec fn opens(
        &self,
        inner: LsmStorageInner,
        record: Option<ManifestRecord>,
        sstables: Map<usize, Arc<SsTable>>,
        imm_logs: Seq<Seq<u8>>,
        log: Seq<u8>,
    ) -> bool {
        &&& self.starts_with(inner, record, imm_logs, log)
        &&& inner.state.l0_sstables@ == self@.layout.l0
        &&& inner.state.levels_seq() == if self.sorts_levels() {
            compaction::sorted_levels(self@.layout.levels, sstables)
        } else {
            self@.layout.levels
        }
        &&& inner.state.sstables@ == sstables
        &&& inner.options == self.options
        &&& inner.compaction_controller == self.controller
        &&& inner.compaction_filters@.len() == 0
        &&& !inner.is_in_compact
    }

    /// The levels are sorted by the first keys of their tables.
    pub open spec fn sorts_levels(&self) -> bool {
        self.controller is Leveled || self.controller is Simple
    }
}

impl LsmStorageInner {
    /// Starts the storage engine from a manifest that was replayed, its tables, and the logs of
    /// its memtables. Tells the record that is to be added to the manifest, if there is one.
    ///
    /// Without a log, what the memtables held is gone, and a new one is put into use.
    pub fn open(
        recovery: Recovery,
        sstables: HashMap<usize, Arc<SsTable>>,
        imm_logs: &Vec<Vec<u8>>,
        log: &[u8],
    ) -> (r: Result<(LsmStorageInner, Option<ManifestRecord>), LsmError>)
        requires
            recovery.max_sst_id + 2 <= usize::MAX,
            recovery.wf(),
            recovery.options.enable_wal ==> imm_logs@.len() == recovery@.imm_memtables.len(),
        ensures
            match recovery.log_error(logs_view(imm_logs@), log@) {
                Some(e) => r is Err && r->Err_0 == LsmError::BadLog(e),
                None => if recovery.sorts_levels() && !compaction::levels_present(
                    recovery@.layout.levels,
                    sstables@,
                ) {
                    r is Err && r->Err_0 == LsmError::MissingTable
                } else {
                    &&& r is Ok
                    &&& recovery.opens(
                        r->Ok_0.0,
                        r->Ok_0.1,
                        sstables@,
                        logs_view(imm_logs@),
                        log@,
                    )
                },
            },
    {
        let fresh: usize = recovery.max_sst_id + 1;
        let mut imm_memtables: Vec<Arc<MemTable>> = Vec::new();
        let memtable: MemTable;
        let next_sst_id: usize;
        let mut record: Option<ManifestRecord> = None;
        if recovery.options.enable_wal {
            imm_memtables = recovery.recover_imm(imm_logs)?;
            if recovery.state.memtable.id() > 0 {
                let id: usize = recovery.state.memtable.id();
                match MemTable::recover_from_wal(id, log) {
                    Err(e) => {
                        return Err(LsmError::BadLog(e));
                    },
                    Ok(m) => {
                        memtable = m;
                    },
                }
                next_sst_id = id + 1;
            } else {
                memtable = MemTable::create_with_wal(fresh);
                record = Some(ManifestRecord::NewMemtable(fresh));
                next_sst_id = fresh + 1;
            }
        } else {
            memtable = MemTable::create(fresh);
            next_sst_id = fresh + 1;
        }
        let sorts: bool = matches!(
            recovery.controller,
            CompactionController::Leveled(_) | CompactionController::Simple(_)
        );
        let levels: Vec<(usize, Vec<usize>)> = if sorts {
            sort_levels(&recovery.state.levels, &sstables)?
        } else {
            recovery.state.levels
        };
        let inner = LsmStorageInner {
            state: LsmStorageState {
                memtable,
                imm_memtables,
                l0_sstables: recovery.state.l0_sstables,
                levels,
                sstables,
            },
            next_sst_id,
            options: recovery.options,
            compaction_controller: recovery.controller,
            compaction_filters: Vec::new(),
            is_in_compact: false,
        };
        Ok((inner, record))
    }
}

/// Records are put in as writes are made: of several writes to one key, the last one counts.
proof fn lemma_insert_all_last(c: Map<(Seq<u8>, u64), Seq<u8>>, es: Seq<Entry>, k: KeyView)
    ensures
        versions::version(wal::insert_all(c, es), k) == match writes::last_write(es, k) {
            Some(v) => Some(v),
            None => versions::version(c, k),
        },
    decreases es.len(),
{
    if es.len() > 0 {
        let front = es.drop_last();
        let e = es.last();
        lemma_insert_all_last(c, front, k);
        assert(es =~= front + seq![e]);
        wal::lemma_insert_all_split(c, front, seq![e]);
        let d = wal::insert_all(c, front);
        assert(seq![e].drop_first() =~= Seq::empty());
        assert(wal::insert_all(d, seq![e]) == d.insert(versions::slot_of(e.key), e.value)) by {
            reveal_with_fuel(wal::insert_all, 2);
        }
        versions::lemma_slot_order(k, e.key);
    }
}

/// A memtable that is recovered from a log of batches holds under each key what was last written to
/// it, and nothing else.
pub proof fn law_recovered_memtable(m: MemTable, id: usize, batches: Seq<Seq<Entry>>, k: KeyView)
    requires
        recovered(m, id, wal::log_bytes(batches)),
        forall|i: int| 0 <= i < batches.len() ==> wal::batch_fits(#[trigger] batches[i]),
    ensures
        wal::scan_log(wal::log_bytes(batches)).1 is None,
        key::lookup(m.entries(), k) == writes::last_write(wal::batch_records(batches), k),
{
    wal::law_recover_logged(batches, Seq::empty());
    let es = wal::batch_records(batches);
    lemma_insert_all_last(Map::empty(), es, k);
    versions::lemma_listing(versions::contents(m.map));
    assert(key::lookup(m.entries(), k) == versions::version(versions::contents(m.map), k));
}

/// The controller is the one that the options name, with their settings.
pub proof fn law_controller(options: CompactionOptions)
    ensures
        options matches CompactionOptions::Leveled(o) ==> controller_for(options) is Leveled
            && controller_for(options)->Leveled_0.options == o,
        options matches CompactionOptions::Simple(o) ==> controller_for(options) is Simple
            && controller_for(options)->Simple_0.options == o,
        options matches CompactionOptions::Tiered(o) ==> controller_for(options) is Tiered
            && controller_for(options)->Tiered_0.options == o,
        options is NoCompaction ==> controller_for(options) is NoCompaction,
{
}

/// The largest of an id and some others is one of them, and none of them is larger.
pub proof fn law_largest(start: usize, ids: Seq<usize>)
    ensures
        start <= largest(start, ids),
        forall|i: int| 0 <= i < ids.len() ==> #[trigger] ids[i] <= largest(start, ids),
        largest(start, ids) == start || ids.contains(largest(start, ids)),
    decreases ids.len(),
{
    if ids.len() > 0 {
        let front = ids.drop_last();
        law_largest(start, front);
        let m = largest(start, front);
        assert forall|i: int| 0 <= i < ids.len() implies #[trigger] ids[i] <= largest(
            start,
            ids,
        ) by {
            if i < front.len() {
                assert(front[i] == ids[i]);
            }
        }
        if front.contains(m) {
            let i = choose|i: int| 0 <= i < front.len() && front[i] == m;
            assert(ids[i] == m);
        }
        assert(ids[ids.len() - 1] == ids.last());
    }
}

/// An engine is not opened from a log that cannot be read: there is an error exactly if logs are kept
/// and one of those that are read has one.
pub proof fn law_log_errors(recovery: Recovery, imm_logs: Seq<Seq<u8>>, log: Seq<u8>)
    ensures
        recovery.log_error(imm_logs, log) is Some <==> recovery.options.enable_wal && {
            ||| exists|i: int| 0 <= i < imm_logs.len()
                && wal::scan_log(#[trigger] imm_logs[i]).1 is Some
            ||| recovery@.memtable > 0 && wal::scan_log(log).1 is Some
        },
{
    lemma_first_log_error(imm_logs);
}

proof fn lemma_first_log_error(logs: Seq<Seq<u8>>)
    ensures
        first_log_error(logs) is Some <==> exists|i: int|
            0 <= i < logs.len() && wal::scan_log(#[trigger] logs[i]).1 is Some,
    decreases logs.len(),
{
    if logs.len() > 0 {
        let rest = logs.drop_first();
        lemma_first_log_error(rest);
        if exists|i: int| 0 <= i < logs.len() && wal::scan_log(#[trigger] logs[i]).1 is Some {
            let i = choose|i: int| 0 <= i < logs.len()
                && wal::scan_log(#[trigger] logs[i]).1 is Some;
            if i > 0 {
                assert(rest[i - 1] == logs[i]);
            }
        }
        if exists|i: int| 0 <= i < rest.len() && wal::scan_log(#[trigger] rest[i]).1 is Some {
            let i = choose|i: int| 0 <= i < rest.len()
                && wal::scan_log(#[trigger] rest[i]).1 is Some;
            assert(logs[i + 1] == rest[i]);
        }
    }
}

/// An engine is opened with the tables that its manifest tells of, each in its place; within the
/// levels of leveled and simple leveled compaction they stand in the order of their first keys, and
/// with tiers as they were.
pub proof fn law_opened_levels(
    recovery: Recovery,
    inner: LsmStorageInner,
    record: Option<ManifestRecord>,
    sstables: Map<usize, Arc<SsTable>>,
    imm_logs: Seq<Seq<u8>>,
    log: Seq<u8>,
    i: int,
)
    requires
        recovery.opens(inner, record, sstables, imm_logs, log),
        0 <= i < recovery@.layout.levels.len(),
    ensures
        inner.state.l0_sstables@ == recovery@.layout.l0,
        inner.state.levels_seq().len() == recovery@.layout.levels.len(),
        inner.state.levels_seq()[i].0 == recovery@.layout.levels[i].0,
        inner.state.levels_seq()[i].1.to_multiset() == recovery@.layout.levels[i].1.to_multiset(),
        recovery.controller is Leveled || recovery.controller is Simple ==> forall|x: int, y: int|
            0 <= x < y < inner.state.levels_seq()[i].1.len() ==> key::key_le(
                sstables[#[trigger] inner.state.levels_seq()[i].1[x]].first_key@,
                sstables[#[trigger] inner.state.levels_seq()[i].1[y]].first_key@,
            ),
        recovery.controller is Tiered ==> inner.state.levels_seq()[i] == recovery@.layout.levels[i],
{
    compaction::law_sorted_ids(recovery@.layout.levels[i].1, sstables);
}

/// The manifest, with the record that is added to it when an engine is opened, tells which memtables
/// are in use: with logs, the current one and the immutable ones in their order, so that their logs
/// are found again. A memtable that is not recovered from a log is a new one, and holds nothing.
pub proof fn law_opened_memtables(
    recovery: Recovery,
    inner: LsmStorageInner,
    record: Option<ManifestRecord>,
    sstables: Map<usize, Arc<SsTable>>,
    imm_logs: Seq<Seq<u8>>,
    log: Seq<u8>,
)
    requires
        recovery.opens(inner, record, sstables, imm_logs, log),
        recovery.options.enable_wal ==> imm_logs.len() == recovery@.imm_memtables.len(),
    ensures
        recovery.options.enable_wal ==> {
            let told = match record {
                Some(r) => replay_record(recovery@, r@, recovery.controller.flushes_to_l0()),
                None => recovery@,
            };
            &&& told.memtable == inner.state.memtable.id
            &&& told.imm_memtables == memtable_ids(inner.state.imm_memtables@)
            &&& told.layout == recovery@.layout
            &&& inner.state.memtable.wal is Some
        },
        !recovery.options.enable_wal ==> {
            &&& record is None
            &&& inner.state.imm_memtables@.len() == 0
            &&& inner.state.memtable.wal is None
        },
        !recovery.options.enable_wal || recovery@.memtable == 0 ==> {
            &&& inner.state.memtable.entries().len() == 0
            &&& inner.state.memtable.id == (recovery.max_sst_id + 1) as usize
        },
        inner.options == recovery.options,
        inner.compaction_controller == recovery.controller,
{
    if recovery.options.enable_wal {
        let told = match record {
            Some(r) => replay_record(recovery@, r@, recovery.controller.flushes_to_l0()),
            None => recovery@,
        };
        let ids = memtable_ids(inner.state.imm_memtables@);
        assert forall|i: int| 0 <= i < ids.len() implies #[trigger] ids[i]
            == recovery@.imm_memtables[i] by {
            assert(recovered(
                *inner.state.imm_memtables@[i],
                recovery@.imm_memtables[i],
                imm_logs[i],
            ));
        }
        assert(told.imm_memtables =~= ids);
    }
}

} // verus!
