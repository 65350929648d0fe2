//! Compaction.
use crate::error::LsmError;
use crate::iterators::StorageIterator;
use crate::iterators::concat_iterator::SstConcatIterator;
use crate::iterators::merge_iterator::MergeIterator;
use crate::key::{Entry, KeySlice, StorageKey};
use crate::lsm_storage::{LayoutView, LsmStorageState, TableLayout};
use crate::table::{SsTable, SsTableIterator};
use std::collections::HashMap;
use std::sync::Arc;
use vstd::prelude::*;

pub mod apply_laws;
pub mod decision_laws;
pub mod leveled;
pub mod retention;
pub mod simple_leveled;
pub mod tiered;

pub use leveled::{LeveledCompactionController, LeveledCompactionOptions, LeveledCompactionTask};
pub use simple_leveled::{
    SimpleLeveledCompactionController, SimpleLeveledCompactionOptions, SimpleLeveledCompactionTask,
};
pub use tiered::{TieredCompactionController, TieredCompactionOptions, TieredCompactionTask};

verus! {

/// A task that merges tables of one level into another as a mathematical value.
#[verifier::ext_equal]
pub struct LevelTaskView {
    pub upper_level: Option<usize>,
    pub upper: Seq<usize>,
    pub lower_level: usize,
    pub lower: Seq<usize>,
    pub bottom: bool,
}

/// `ids` without those that occur in `gone`.
pub open spec fn without(ids: Seq<usize>, gone: Seq<usize>) -> Seq<usize>
    decreases ids.len(),
{
    if ids.len() == 0 {
        ids
    } else if gone.contains(ids.last()) {
        without(ids.drop_last(), gone)
    } else {
        without(ids.drop_last(), gone).push(ids.last())
    }
}

/// Whether `id` occurs in `ids`.
pub(crate) fn contains_id(ids: &[usize], id: usize) -> (r: bool)
    ensures
        r == ids@.contains(id),
{
    let mut i: usize = 0;
    while i < ids.len()
        invariant
            i <= ids@.len(),
            forall|j: int| 0 <= j < i ==> ids@[j] != id,
        decreases ids@.len() - i,
    {
        if ids[i] == id {
            assert(ids@[i as int] == id);
            return true;
        }
        i = i + 1;
    }
    false
}

/// A copy of `ids`.
pub(crate) fn copy_ids(ids: &[usize]) -> (r: Vec<usize>)
    ensures
        r@ == ids@,
{
    let mut r: Vec<usize> = Vec::new();
    r.extend_from_slice(ids);
    assert(r@ =~= ids@);
    r
}

/// `ids` without those that occur in `gone`.
pub(crate) fn drop_ids(ids: &[usize], gone: &[usize]) -> (r: Vec<usize>)
    ensures
        r@ == without(ids@, gone@),
{
    let mut r: Vec<usize> = Vec::new();
    let mut i: usize = 0;
    assert(ids@.take(0) =~= Seq::empty());
    while i < ids.len()
        invariant
            i <= ids@.len(),
            r@ == without(ids@.take(i as int), gone@),
        decreases ids@.len() - i,
    {
        assert(ids@.take(i + 1).drop_last() =~= ids@.take(i as int));
        assert(ids@.take(i + 1).last() == ids@[i as int]);
        if !contains_id(gone, ids[i]) {
            r.push(ids[i]);
        }
        i = i + 1;
    }
    assert(ids@.take(i as int) =~= ids@);
    r
}

/// The ids of `a`, then those of `b`.
pub(crate) fn chain_ids(a: &[usize], b: &[usize]) -> (r: Vec<usize>)
    ensures
        r@ == a@ + b@,
{
    let mut r: Vec<usize> = copy_ids(a);
    r.extend_from_slice(b);
    assert(r@ =~= a@ + b@);
    r
}

/// An id of two lists is one of either.
pub proof fn lemma_concat_contains(a: Seq<usize>, b: Seq<usize>, id: usize)
    ensures
        (a + b).contains(id) <==> a.contains(id) || b.contains(id),
{
    let r = a + b;
    if r.contains(id) {
        let i = choose|i: int| 0 <= i < r.len() && r[i] == id;
        if i < a.len() {
            assert(a[i] == id);
        } else {
            assert(b[i - a.len()] == id);
        }
    }
    if a.contains(id) {
        let i = choose|i: int| 0 <= i < a.len() && a[i] == id;
        assert(r[i] == id);
    }
    if b.contains(id) {
        let i = choose|i: int| 0 <= i < b.len() && b[i] == id;
        assert(r[a.len() + i] == id);
    }
}

/// What remains after taking ids out is what was there and is not taken out.
pub proof fn lemma_without(ids: Seq<usize>, gone: Seq<usize>, id: usize)
    ensures
        without(ids, gone).contains(id) <==> ids.contains(id) && !gone.contains(id),
    decreases ids.len(),
{
    if ids.len() > 0 {
        let front = ids.drop_last();
        lemma_without(front, gone, id);
        assert(ids =~= front.push(ids.last()));
        if ids.contains(id) && id != ids.last() {
            let i = choose|i: int| 0 <= i < ids.len() && ids[i] == id;
            assert(front[i] == id);
        }
        if front.contains(id) {
            let i = choose|i: int| 0 <= i < front.len() && front[i] == id;
            assert(ids[i] == id);
        }
        if ids.last() == id {
            assert(ids[ids.len() - 1] == id);
        }
        let w = without(front, gone);
        let p = w.push(ids.last());
        if p.contains(id) && id != ids.last() {
            let i = choose|i: int| 0 <= i < p.len() && p[i] == id;
            assert(w[i] == id);
        }
        if w.contains(id) {
            let i = choose|i: int| 0 <= i < w.len() && w[i] == id;
            assert(p[i] == id);
        }
        assert(p[p.len() - 1] == ids.last());
    }
}

/// What is to be compacted.
#[derive(Debug)]
pub enum CompactionTask {
    Leveled(LeveledCompactionTask),
    Tiered(TieredCompactionTask),
    Simple(SimpleLeveledCompactionTask),
    ForceFullCompaction { l0_sstables: Vec<usize>, l1_sstables: Vec<usize> },
}

/// What is to be compacted, as a mathematical value.
#[verifier::ext_equal]
pub enum TaskView {
    Leveled(LevelTaskView),
    Tiered(Seq<(usize, Seq<usize>)>, bool),
    Simple(LevelTaskView),
    ForceFullCompaction(Seq<usize>, Seq<usize>),
}

impl View for CompactionTask {
    type V = TaskView;

    open spec fn view(&self) -> TaskView {
        match self {
            CompactionTask::Leveled(t) => TaskView::Leveled(t@),
            CompactionTask::Tiered(t) => TaskView::Tiered(t.tiers_seq(), t.bottom_tier_included),
            CompactionTask::Simple(t) => TaskView::Simple(t@),
            CompactionTask::ForceFullCompaction {
                l0_sstables,
                l1_sstables,
            } => TaskView::ForceFullCompaction(l0_sstables@, l1_sstables@),
        }
    }
}

impl TaskView {
    /// Nothing lies below what comes of the task.
    pub open spec fn to_bottom(self) -> bool {
        match self {
            TaskView::Leveled(t) => t.bottom,
            TaskView::Tiered(_, bottom) => bottom,
            TaskView::Simple(t) => t.bottom,
            TaskView::ForceFullCompaction(_, _) => true,
        }
    }
}

impl Clone for CompactionTask {
    fn clone(&self) -> (r: Self)
        ensures
            r@ == self@,
    {
        match self {
            CompactionTask::Leveled(t) => CompactionTask::Leveled(t.clone()),
            CompactionTask::Tiered(t) => CompactionTask::Tiered(t.clone()),
            CompactionTask::Simple(t) => CompactionTask::Simple(t.clone()),
            CompactionTask::ForceFullCompaction {
                l0_sstables,
                l1_sstables,
            } => CompactionTask::ForceFullCompaction {
                l0_sstables: copy_ids(l0_sstables.as_slice()),
                l1_sstables: copy_ids(l1_sstables.as_slice()),
            },
        }
    }
}

impl CompactionTask {
    /// Whether nothing lies below what comes of the task.
    pub fn compact_to_bottom_level(&self) -> (r: bool)
        ensures
            r == self@.to_bottom(),
    {
        match self {
            CompactionTask::ForceFullCompaction { .. } => true,
            CompactionTask::Leveled(task) => task.is_lower_level_bottom_level,
            CompactionTask::Simple(task) => task.is_lower_level_bottom_level,
            CompactionTask::Tiered(task) => task.bottom_tier_included,
        }
    }
}

/// How sizes compare, as the controllers want to know it.
#[derive(Debug)]
pub struct SizeRatios {
    /// For simple leveled compaction: whether the number of tables in the level `i + 2` is less
    /// than `size_ratio_percent` percent of that in the level `i + 1`.
    pub ratio_below: Vec<bool>,
    /// For tiered compaction: whether the size of the tiers above the last one reaches
    /// `max_size_amplification_percent` percent of the size of the last one.
    pub amplified: bool,
    /// For tiered compaction: whether the size of the tier `i` is more than `100 + size_ratio`
    /// percent of the size of the tiers before it.
    pub ratio_exceeded: Vec<bool>,
    /// For leveled compaction: ranks for the ratio of the size of the level `i + 1` to its target
    /// size.
    pub priorities: Vec<u64>,
}

/// Decides what is compacted when.
#[derive(Debug)]
pub enum CompactionController {
    Leveled(LeveledCompactionController),
    Tiered(TieredCompactionController),
    Simple(SimpleLeveledCompactionController),
    NoCompaction,
}

impl CompactionController {
    /// The controller can be asked for a task.
    pub open spec fn can_generate(&self, snapshot: &LsmStorageState, ratios: &SizeRatios) -> bool {
        match self {
            CompactionController::Leveled(ctrl) => ctrl.can_generate(
                snapshot,
                ratios.priorities@,
            ),
            CompactionController::Simple(ctrl) => ctrl.can_generate(
                snapshot,
                ratios.ratio_below@,
            ),
            CompactionController::Tiered(_) => ratios.ratio_exceeded@.len()
                >= snapshot.levels@.len(),
            CompactionController::NoCompaction => false,
        }
    }

    /// Whether the controller can be asked for a task.
    pub fn is_ready(&self, snapshot: &LsmStorageState, ratios: &SizeRatios) -> (r: bool)
        ensures
            r == self.can_generate(snapshot, ratios),
    {
        match self {
            CompactionController::Leveled(ctrl) => ctrl.options.max_levels < usize::MAX
                && ratios.priorities.len() >= ctrl.options.max_levels && ctrl.is_measurable(
                snapshot,
            ),
            CompactionController::Simple(ctrl) => ctrl.is_ready(
                snapshot,
                ratios.ratio_below.as_slice(),
            ),
            CompactionController::Tiered(_) => ratios.ratio_exceeded.len()
                >= snapshot.levels.len(),
            CompactionController::NoCompaction => false,
        }
    }

    /// The task that the controller asks for.
    pub open spec fn generates(
        &self,
        snapshot: &LsmStorageState,
        ratios: &SizeRatios,
        r: Option<TaskView>,
    ) -> bool {
        match self {
            CompactionController::Leveled(ctrl) => match r {
                None => ctrl.generates(snapshot, ratios.priorities@, None),
                Some(TaskView::Leveled(t)) => ctrl.generates(
                    snapshot,
                    ratios.priorities@,
                    Some(t),
                ),
                _ => false,
            },
            CompactionController::Simple(ctrl) => match r {
                None => ctrl.generates(snapshot, ratios.ratio_below@, None),
                Some(TaskView::Simple(t)) => ctrl.generates(
                    snapshot,
                    ratios.ratio_below@,
                    Some(t),
                ),
                _ => false,
            },
            CompactionController::Tiered(ctrl) => match r {
                None => ctrl.generates(snapshot, ratios.amplified, ratios.ratio_exceeded@, None),
                Some(TaskView::Tiered(tiers, bottom)) => ctrl.generates(
                    snapshot,
                    ratios.amplified,
                    ratios.ratio_exceeded@,
                    Some((tiers, bottom)),
                ),
                _ => false,
            },
            CompactionController::NoCompaction => false,
        }
    }

    /// Generates a compaction task, or `None` if no compaction needs to be scheduled.
    pub fn generate_compaction_task(&self, snapshot: &LsmStorageState, ratios: &SizeRatios) -> (r:
        Option<CompactionTask>)
        requires
            self.can_generate(snapshot, ratios),
        ensures
            self.generates(
                snapshot,
                ratios,
                match r {
                    Some(t) => Some(t@),
                    None => None,
                },
            ),
    {
        match self {
            CompactionController::Leveled(ctrl) => match ctrl.generate_compaction_task(
                snapshot,
                ratios.priorities.as_slice(),
            ) {
                Some(t) => Some(CompactionTask::Leveled(t)),
                None => None,
            },
            CompactionController::Simple(ctrl) => match ctrl.generate_compaction_task(
                snapshot,
                ratios.ratio_below.as_slice(),
            ) {
                Some(t) => Some(CompactionTask::Simple(t)),
                None => None,
            },
            CompactionController::Tiered(ctrl) => match ctrl.generate_compaction_task(
                snapshot,
                ratios.amplified,
                ratios.ratio_exceeded.as_slice(),
            ) {
                Some(t) => Some(CompactionTask::Tiered(t)),
                None => None,
            },
            CompactionController::NoCompaction => None,
        }
    }

    /// The result of a task can be applied: it is a task for this controller, and fits the levels.
    pub open spec fn can_apply(&self, layout: LayoutView, task: TaskView) -> bool {
        match (self, task) {
            (CompactionController::Leveled(_), TaskView::Leveled(t)) => t.upper_level matches Some(
                u,
            ) ==> u >= 1,
            (CompactionController::Simple(_), TaskView::Simple(_)) => true,
            (CompactionController::Tiered(_), TaskView::Tiered(tiers, _)) => tiers.len()
                <= layout.levels.len(),
            _ => false,
        }
    }

    /// Whether the result of a task can be applied.
    pub fn is_applicable(&self, snapshot: &LsmStorageState, task: &CompactionTask) -> (r: bool)
        ensures
            r == self.can_apply(snapshot.layout(), task@),
    {
        match (self, task) {
            (CompactionController::Leveled(_), CompactionTask::Leveled(t)) => match t.upper_level {
                Some(u) => u >= 1,
                None => true,
            },
            (CompactionController::Simple(_), CompactionTask::Simple(_)) => true,
            (CompactionController::Tiered(_), CompactionTask::Tiered(t)) => t.tiers.len()
                <= snapshot.levels.len(),
            _ => false,
        }
    }

    /// Applies the result of a task. The ids that are no longer in use come with the layout.
    pub fn apply_compaction_result(
        &self,
        snapshot: &LsmStorageState,
        task: &CompactionTask,
        output: &[usize],
        in_recovery: bool,
    ) -> (r: (TableLayout, Vec<usize>))
        requires
            self.can_apply(snapshot.layout(), task@),
        ensures
            r.0@ == layout_after(snapshot.layout(), task@, output@),
            r.1@ == task_ids(task@),
    {
        match (self, task) {
            (
                CompactionController::Leveled(ctrl),
                CompactionTask::Leveled(task),
            ) => ctrl.apply_compaction_result(snapshot, task, output, in_recovery),
            (
                CompactionController::Simple(ctrl),
                CompactionTask::Simple(task),
            ) => ctrl.apply_compaction_result(snapshot, task, output),
            (
                CompactionController::Tiered(ctrl),
                CompactionTask::Tiered(task),
            ) => ctrl.apply_compaction_result(snapshot, task, output),
            _ => (TableLayout { l0_sstables: Vec::new(), levels: Vec::new() }, Vec::new()),
        }
    }

    /// A memtable is flushed to L0, and does not become a tier of its own.
    pub open spec fn flushes_to_l0(&self) -> bool {
        !(self is Tiered)
    }

    /// Whether a memtable is flushed to L0.
    pub fn flush_to_l0(&self) -> (r: bool)
        ensures
            r == self.flushes_to_l0(),
    {
        matches!(
            self,
            CompactionController::Leveled(_)
            | CompactionController::Simple(_)
            | CompactionController::NoCompaction
        )
    }
}

/// Which tables stand where once a task of a controller has been applied.
pub open spec fn layout_after(layout: LayoutView, task: TaskView, output: Seq<usize>) -> LayoutView {
    match task {
        TaskView::Leveled(t) => leveled::leveled_layout_after(layout, t, output),
        TaskView::Simple(t) => simple_leveled::simple_layout_after(layout, t, output),
        TaskView::Tiered(tiers, _) => tiered::tiered_layout_after(layout, tiers, output),
        TaskView::ForceFullCompaction(l0, _) => LayoutView {
            l0: without(layout.l0, l0),
            levels: seq![(1usize, output)],
        },
    }
}

/// The tables that a task merges.
pub open spec fn task_ids(task: TaskView) -> Seq<usize> {
    match task {
        TaskView::Leveled(t) => t.upper + t.lower,
        TaskView::Simple(t) => t.upper + t.lower,
        TaskView::Tiered(tiers, _) => tiered::tier_ids(tiers),
        TaskView::ForceFullCompaction(l0, l1) => l0 + l1,
    }
}

/// How the engine compacts.
#[derive(Debug, Clone, Copy)]
pub enum CompactionOptions {
    /// Leveled compaction with partial compaction + dynamic level support (= RocksDB's Leveled
    /// Compaction)
    Leveled(LeveledCompactionOptions),
    /// Tiered compaction (= RocksDB's universal compaction)
    Tiered(TieredCompactionOptions),
    /// Simple leveled compaction
    Simple(SimpleLeveledCompactionOptions),
    /// No compaction: tables gather in L0
    NoCompaction,
}

/// A part of what a compaction merges: one table, or several tables in order.
#[derive(Debug)]
pub enum CompactionSource {
    SsTable(SsTableIterator),
    Concat(SstConcatIterator),
}

impl StorageIterator for CompactionSource {
    type KeyType<'a> = KeySlice<'a>;

    open spec fn inv(&self) -> bool {
        match self {
            CompactionSource::SsTable(iter) => iter.inv(),
            CompactionSource::Concat(iter) => iter.inv(),
        }
    }

    open spec fn remaining(&self) -> Seq<Entry> {
        match self {
            CompactionSource::SsTable(iter) => iter.remaining(),
            CompactionSource::Concat(iter) => iter.remaining(),
        }
    }

    open spec fn steady(&self) -> bool {
        true
    }

    open spec fn fused(&self) -> bool {
        false
    }

    open spec fn active(&self) -> usize {
        1
    }

    fn key<'a>(&'a self) -> (k: KeySlice<'a>) {
        let k: KeySlice<'a> = match self {
            CompactionSource::SsTable(iter) => iter.key(),
            CompactionSource::Concat(iter) => iter.key(),
        };
        assert(k.key_view() == k@);
        k
    }

    fn value(&self) -> (v: &[u8]) {
        match self {
            CompactionSource::SsTable(iter) => iter.value(),
            CompactionSource::Concat(iter) => iter.value(),
        }
    }

    fn is_valid(&self) -> (r: bool) {
        match self {
            CompactionSource::SsTable(iter) => iter.is_valid(),
            CompactionSource::Concat(iter) => iter.is_valid(),
        }
    }

    fn next(&mut self) -> (r: Result<(), LsmError>)
        ensures
            r is Ok,
    {
        match self {
            CompactionSource::SsTable(iter) => iter.next(),
            CompactionSource::Concat(iter) => iter.next(),
        }
    }

    fn num_active_iterators(&self) -> (n: usize) {
        1
    }
}

/// What a compaction iterates over.
#[derive(Debug)]
pub enum CompactionIterator {
    SsTable(SsTableIterator),
    Concat(SstConcatIterator),
    Merge(MergeIterator<CompactionSource>),
}

impl StorageIterator for CompactionIterator {
    type KeyType<'a> = KeySlice<'a>;

    open spec fn inv(&self) -> bool {
        match self {
            CompactionIterator::SsTable(iter) => iter.inv(),
            CompactionIterator::Concat(iter) => iter.inv(),
            CompactionIterator::Merge(iter) => iter.inv(),
        }
    }

    open spec fn remaining(&self) -> Seq<Entry> {
        match self {
            CompactionIterator::SsTable(iter) => iter.remaining(),
            CompactionIterator::Concat(iter) => iter.remaining(),
            CompactionIterator::Merge(iter) => iter.remaining(),
        }
    }

    open spec fn steady(&self) -> bool {
        match self {
            CompactionIterator::SsTable(iter) => iter.steady(),
            CompactionIterator::Concat(iter) => iter.steady(),
            CompactionIterator::Merge(iter) => iter.steady(),
        }
    }

    open spec fn fused(&self) -> bool {
        false
    }

    open spec fn active(&self) -> usize {
        1
    }

    fn key<'a>(&'a self) -> (k: KeySlice<'a>) {
        let k: KeySlice<'a> = match self {
            CompactionIterator::SsTable(iter) => iter.key(),
            CompactionIterator::Concat(iter) => iter.key(),
            CompactionIterator::Merge(iter) => iter.key(),
        };
        assert(k.key_view() == k@);
        k
    }

    fn value(&self) -> (v: &[u8]) {
        match self {
            CompactionIterator::SsTable(iter) => iter.value(),
            CompactionIterator::Concat(iter) => iter.value(),
            CompactionIterator::Merge(iter) => iter.value(),
        }
    }

    fn is_valid(&self) -> (r: bool) {
        match self {
            CompactionIterator::SsTable(iter) => iter.is_valid(),
            CompactionIterator::Concat(iter) => iter.is_valid(),
            CompactionIterator::Merge(iter) => iter.is_valid(),
        }
    }

    fn next(&mut self) -> (r: Result<(), LsmError>) {
        match self {
            CompactionIterator::SsTable(iter) => iter.next(),
            CompactionIterator::Concat(iter) => iter.next(),
            CompactionIterator::Merge(iter) => iter.next(),
        }
    }

    fn num_active_iterators(&self) -> (n: usize) {
        1
    }
}

} // verus!
