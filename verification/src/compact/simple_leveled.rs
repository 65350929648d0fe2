//! Simple leveled compaction.
use crate::compact::{self, LevelTaskView, chain_ids, copy_ids, drop_ids};
use crate::lsm_storage::{self, LayoutView, LsmStorageState, TableLayout};
use vstd::prelude::*;

verus! {

#[derive(Debug, Clone, Copy)]
pub struct SimpleLeveledCompactionOptions {
    pub size_ratio_percent: usize,
    pub level0_file_num_compaction_trigger: usize,
    pub max_levels: usize,
}

#[derive(Debug)]
pub struct SimpleLeveledCompactionTask {
    /// If `upper_level` is `None`, then it is L0 compaction.
    pub upper_level: Option<usize>,
    pub upper_level_sst_ids: Vec<usize>,
    pub lower_level: usize,
    pub lower_level_sst_ids: Vec<usize>,
    pub is_lower_level_bottom_level: bool,
}

impl View for SimpleLeveledCompactionTask {
    type V = LevelTaskView;

    open spec fn view(&self) -> LevelTaskView {
        LevelTaskView {
            upper_level: self.upper_level,
            upper: self.upper_level_sst_ids@,
            lower_level: self.lower_level,
            lower: self.lower_level_sst_ids@,
            bottom: self.is_lower_level_bottom_level,
        }
    }
}

impl Clone for SimpleLeveledCompactionTask {
    fn clone(&self) -> (r: Self)
        ensures
            r@ == self@,
    {
        SimpleLeveledCompactionTask {
            upper_level: self.upper_level,
            upper_level_sst_ids: copy_ids(self.upper_level_sst_ids.as_slice()),
            lower_level: self.lower_level,
            lower_level_sst_ids: copy_ids(self.lower_level_sst_ids.as_slice()),
            is_lower_level_bottom_level: self.is_lower_level_bottom_level,
        }
    }
}

#[derive(Debug)]
pub struct SimpleLeveledCompactionController {
    pub options: SimpleLeveledCompactionOptions,
}

/// The task that merges the level `i + 1` into the one below it.
pub open spec fn ratio_task(
    levels: Seq<(usize, Seq<usize>)>,
    max_levels: usize,
    i: int,
) -> LevelTaskView {
    LevelTaskView {
        upper_level: Some((i + 1) as usize),
        upper: levels[i].1,
        lower_level: (i + 2) as usize,
        lower: levels[i + 1].1,
        bottom: i + 2 == max_levels,
    }
}

/// The level `i + 1` holds tables, and the one below it is too small beside it.
pub open spec fn ratio_triggers(
    levels: Seq<(usize, Seq<usize>)>,
    ratio_below: Seq<bool>,
    i: int,
) -> bool {
    levels[i].1.len() > 0 && ratio_below[i]
}

/// A level as a task leaves it: without the tables that were merged, and in the lower level with
/// those that came of it.
pub open spec fn simple_level_after(
    level: (usize, Seq<usize>),
    number: int,
    task: LevelTaskView,
    output: Seq<usize>,
) -> (usize, Seq<usize>) {
    let kept = if task.upper_level matches Some(u) && u == number {
        compact::without(level.1, task.upper)
    } else {
        level.1
    };
    (
        level.0,
        if number == task.lower_level {
            compact::without(kept, task.lower) + output
        } else {
            kept
        },
    )
}

/// Which tables stand where once a task has been applied.
pub open spec fn simple_layout_after(
    layout: LayoutView,
    task: LevelTaskView,
    output: Seq<usize>,
) -> LayoutView {
    LayoutView {
        l0: if task.upper_level is None {
            compact::without(layout.l0, task.upper)
        } else {
            layout.l0
        },
        levels: Seq::new(
            layout.levels.len(),
            |i: int| simple_level_after(layout.levels[i], i + 1, task, output),
        ),
    }
}

impl SimpleLeveledCompactionController {
    pub fn new(options: SimpleLeveledCompactionOptions) -> (r: Self)
        ensures
            r.options == options,
    {
        SimpleLeveledCompactionController { options }
    }

    /// Enough tables have gathered in L0.
    pub open spec fn l0_triggers(&self, snapshot: &LsmStorageState) -> bool {
        snapshot.l0_sstables@.len() >= self.options.level0_file_num_compaction_trigger
    }

    /// The task that the controller asks for: where enough tables have gathered in L0, all of L0
    /// is merged into L1; otherwise the first level beside which the one below it is too small is
    /// merged into that one.
    pub open spec fn generates(
        &self,
        snapshot: &LsmStorageState,
        ratio_below: Seq<bool>,
        r: Option<LevelTaskView>,
    ) -> bool {
        let levels = snapshot.levels_seq();
        if self.l0_triggers(snapshot) {
            r == Some(
                LevelTaskView {
                    upper_level: None,
                    upper: snapshot.l0_sstables@,
                    lower_level: 1,
                    lower: levels[0].1,
                    bottom: self.options.max_levels == 1,
                },
            )
        } else {
            match r {
                None => forall|i: int|
                    0 <= i < self.options.max_levels - 1 ==> !#[trigger] ratio_triggers(
                        levels,
                        ratio_below,
                        i,
                    ),
                Some(t) => exists|i: int|
                    {
                        &&& 0 <= i < self.options.max_levels - 1
                        &&& #[trigger] ratio_triggers(levels, ratio_below, i)
                        &&& forall|j: int|
                            0 <= j < i ==> !#[trigger] ratio_triggers(levels, ratio_below, j)
                        &&& t == ratio_task(levels, self.options.max_levels, i)
                    },
            }
        }
    }

    /// The levels that the controller looks at are there.
    pub open spec fn can_generate(&self, snapshot: &LsmStorageState, ratio_below: Seq<bool>) -> bool {
        if self.l0_triggers(snapshot) {
            snapshot.levels@.len() >= 1
        } else {
            &&& self.options.max_levels >= 1
            &&& snapshot.levels@.len() >= self.options.max_levels || exists|i: int|
                0 <= i < snapshot.levels@.len() - 1 && i < self.options.max_levels - 1
                    && #[trigger] ratio_triggers(snapshot.levels_seq(), ratio_below, i)
            &&& ratio_below.len() + 1 >= snapshot.levels@.len()
        }
    }

    /// Whether the levels that the controller looks at are there.
    pub fn is_ready(&self, snapshot: &LsmStorageState, ratio_below: &[bool]) -> (r: bool)
        ensures
            r == self.can_generate(snapshot, ratio_below@),
    {
        let n: usize = snapshot.levels.len();
        let max_levels: usize = self.options.max_levels;
        if snapshot.l0_sstables.len() >= self.options.level0_file_num_compaction_trigger {
            return n >= 1;
        }
        if max_levels == 0 || (n > 0 && ratio_below.len() < n - 1) {
            return false;
        }
        if n >= max_levels {
            return true;
        }
        let ghost levels = snapshot.levels_seq();
        let mut i: usize = 0;
        while n > 0 && i < n - 1
            invariant
                n == snapshot.levels@.len(),
                levels == snapshot.levels_seq(),
                n > 0 ==> i <= n - 1 <= ratio_below@.len(),
                n < max_levels,
                max_levels == self.options.max_levels,
                !self.l0_triggers(snapshot),
                forall|j: int| 0 <= j < i ==> !#[trigger] ratio_triggers(levels, ratio_below@, j),
            decreases n - i,
        {
            assert(levels[i as int].1 == snapshot.levels@[i as int].1@);
            if snapshot.levels[i].1.len() > 0 && ratio_below[i] {
                assert(ratio_triggers(levels, ratio_below@, i as int));
                return true;
            }
            i = i + 1;
        }
        false
    }

    /// Generates a compaction task.
    ///
    /// Returns `None` if no compaction needs to be scheduled. The order of SSTs in the compaction
    /// task id vector matters. `ratio_below[i]` tells whether the number of tables in the level
    /// `i + 2` is less than `size_ratio_percent` percent of that in the level `i + 1`.
    pub fn generate_compaction_task(&self, snapshot: &LsmStorageState, ratio_below: &[bool]) -> (r:
        Option<SimpleLeveledCompactionTask>)
        requires
            self.can_generate(snapshot, ratio_below@),
        ensures
            self.generates(
                snapshot,
                ratio_below@,
                match r {
                    Some(t) => Some(t@),
                    None => None,
                },
            ),
    {
        let ghost levels = snapshot.levels_seq();
        if snapshot.l0_sstables.len() >= self.options.level0_file_num_compaction_trigger {
            assert(levels[0].1 == snapshot.levels@[0].1@);
            return Some(
                SimpleLeveledCompactionTask {
                    upper_level: None,
                    upper_level_sst_ids: copy_ids(snapshot.l0_sstables.as_slice()),
                    lower_level: 1,
                    lower_level_sst_ids: copy_ids(snapshot.levels[0].1.as_slice()),
                    is_lower_level_bottom_level: 1 == self.options.max_levels,
                },
            );
        }
        let mut level: usize = 0;
        while level < self.options.max_levels - 1
            invariant
                1 <= self.options.max_levels,
                level <= self.options.max_levels - 1,
                levels == snapshot.levels_seq(),
                !self.l0_triggers(snapshot),
                snapshot.levels@.len() >= self.options.max_levels || exists|i: int|
                    level <= i < snapshot.levels@.len() - 1 && i < self.options.max_levels - 1
                        && #[trigger] ratio_triggers(levels, ratio_below@, i),
                ratio_below@.len() + 1 >= snapshot.levels@.len(),
                forall|j: int|
                    0 <= j < level ==> !#[trigger] ratio_triggers(levels, ratio_below@, j),
            decreases self.options.max_levels - level,
        {
            assert(level + 1 < snapshot.levels@.len());
            assert(levels[level as int].1 == snapshot.levels@[level as int].1@);
            assert(levels[level + 1].1 == snapshot.levels@[level + 1].1@);
            let upper_len: usize = snapshot.levels[level].1.len();
            if upper_len > 0 {
                if ratio_below[level] {
                    assert(ratio_triggers(levels, ratio_below@, level as int));
                    return Some(
                        SimpleLeveledCompactionTask {
                            upper_level: Some(level + 1),
                            upper_level_sst_ids: copy_ids(snapshot.levels[level].1.as_slice()),
                            lower_level: level + 2,
                            lower_level_sst_ids: copy_ids(snapshot.levels[level + 1].1.as_slice()),
                            is_lower_level_bottom_level: level + 2 == self.options.max_levels,
                        },
                    );
                }
            }
            assert(!ratio_triggers(levels, ratio_below@, level as int));
            level = level + 1;
        }
        None
    }

    /// Apply the compaction result.
    ///
    /// The compactor calls this function with the compaction task and the list of SST ids
    /// generated. This function applies the result and tells which tables stand where from then on;
    /// the memtables and the `sstables` hash map stay as they are. Tables that were flushed to L0
    /// meanwhile stay there. The ids that are no longer in use come with the layout.
    pub fn apply_compaction_result(
        &self,
        snapshot: &LsmStorageState,
        task: &SimpleLeveledCompactionTask,
        output: &[usize],
    ) -> (r: (TableLayout, Vec<usize>))
        ensures
            r.0@ == simple_layout_after(snapshot.layout(), task@, output@),
            r.1@ == task@.upper + task@.lower,
    {
        let to_remove: Vec<usize> = chain_ids(
            task.upper_level_sst_ids.as_slice(),
            task.lower_level_sst_ids.as_slice(),
        );
        let upper: &[usize] = task.upper_level_sst_ids.as_slice();
        let l0_sstables: Vec<usize> = if task.upper_level.is_none() {
            drop_ids(snapshot.l0_sstables.as_slice(), upper)
        } else {
            copy_ids(snapshot.l0_sstables.as_slice())
        };
        let mut levels: Vec<(usize, Vec<usize>)> = Vec::new();
        let mut idx: usize = 0;
        while idx < snapshot.levels.len()
            invariant
                idx <= snapshot.levels@.len(),
                levels@.len() == idx,
                upper@ == task@.upper,
                forall|i: int|
                    0 <= i < idx
                        ==> #[trigger] lsm_storage::levels_view(levels@)[i] == simple_level_after(
                        snapshot.levels_seq()[i],
                        i + 1,
                        task@,
                        output@,
                    ),
            decreases snapshot.levels@.len() - idx,
        {
            let ghost before = levels@;
            let level: usize = idx + 1;
            assert(snapshot.levels_seq()[idx as int] == (
                snapshot.levels@[idx as int].0,
                snapshot.levels@[idx as int].1@,
            ));
            let mut level_ssts: Vec<usize> = copy_ids(snapshot.levels[idx].1.as_slice());
            if task.upper_level.is_some() && task.upper_level.unwrap() == level {
                level_ssts = drop_ids(level_ssts.as_slice(), upper);
            }
            if level == task.lower_level {
                level_ssts =
                drop_ids(level_ssts.as_slice(), task.lower_level_sst_ids.as_slice());
                level_ssts = chain_ids(level_ssts.as_slice(), output);
            }
            levels.push((snapshot.levels[idx].0, level_ssts));
            assert forall|i: int| 0 <= i < idx
                implies #[trigger] lsm_storage::levels_view(levels@)[i]
                == lsm_storage::levels_view(before)[i] by {}
            idx = idx + 1;
        }
        let layout = TableLayout { l0_sstables, levels };
        assert(layout@.levels =~= simple_layout_after(snapshot.layout(), task@, output@).levels);
        (layout, to_remove)
    }
}

} // verus!
