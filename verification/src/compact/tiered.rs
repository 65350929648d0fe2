//! Tiered compaction.
use crate::compact::{chain_ids, copy_ids};
use crate::lsm_storage::{self, LayoutView, LsmStorageState, TableLayout};
use vstd::prelude::*;

verus! {

#[derive(Debug)]
pub struct TieredCompactionTask {
    pub tiers: Vec<(usize, Vec<usize>)>,
    pub bottom_tier_included: bool,
}

impl TieredCompactionTask {
    pub open spec fn tiers_seq(&self) -> Seq<(usize, Seq<usize>)> {
        lsm_storage::levels_view(self.tiers@)
    }
}

impl Clone for TieredCompactionTask {
    fn clone(&self) -> (r: Self)
        ensures
            r.tiers_seq() == self.tiers_seq(),
            r.bottom_tier_included == self.bottom_tier_included,
    {
        let n: usize = self.tiers.len();
        let tiers: Vec<(usize, Vec<usize>)> = copy_levels(&self.tiers, n);
        assert(self.tiers_seq().take(n as int) =~= self.tiers_seq());
        TieredCompactionTask { tiers, bottom_tier_included: self.bottom_tier_included }
    }
}

#[derive(Debug, Clone, Copy)]
pub struct TieredCompactionOptions {
    pub num_tiers: usize,
    pub max_size_amplification_percent: usize,
    pub size_ratio: usize,
    pub min_merge_width: usize,
    pub max_merge_width: Option<usize>,
}

#[derive(Debug)]
pub struct TieredCompactionController {
    pub options: TieredCompactionOptions,
}

/// One of the tiers before `i` holds a table.
pub open spec fn newer_tiers_hold(levels: Seq<(usize, Seq<usize>)>, i: int) -> bool {
    exists|j: int| 0 <= j < i && (#[trigger] levels[j]).1.len() > 0
}

/// The ids of all tiers.
pub open spec fn tier_ids(tiers: Seq<(usize, Seq<usize>)>) -> Seq<usize>
    decreases tiers.len(),
{
    if tiers.len() == 0 {
        Seq::empty()
    } else {
        tier_ids(tiers.drop_last()) + tiers.last().1
    }
}

/// One of the tiers holds exactly these tables.
pub open spec fn holds_tier(tiers: Seq<(usize, Seq<usize>)>, ids: Seq<usize>) -> bool {
    exists|j: int| 0 <= j < tiers.len() && (#[trigger] tiers[j]).1 == ids
}

/// The levels whose tables are not those of one of the tiers.
pub open spec fn other_levels(
    levels: Seq<(usize, Seq<usize>)>,
    tiers: Seq<(usize, Seq<usize>)>,
) -> Seq<(usize, Seq<usize>)>
    decreases levels.len(),
{
    if levels.len() == 0 {
        levels
    } else if holds_tier(tiers, levels.last().1) {
        other_levels(levels.drop_last(), tiers)
    } else {
        other_levels(levels.drop_last(), tiers).push(levels.last())
    }
}

/// Where the first of the tiers stands among the levels; 0 if none does.
pub open spec fn first_tier(
    levels: Seq<(usize, Seq<usize>)>,
    tiers: Seq<(usize, Seq<usize>)>,
) -> int
    decreases levels.len(),
{
    if levels.len() == 0 {
        0
    } else if exists|j: int|
        0 <= j < levels.len() - 1 && holds_tier(tiers, (#[trigger] levels[j]).1) {
        first_tier(levels.drop_last(), tiers)
    } else if holds_tier(tiers, levels.last().1) {
        levels.len() - 1
    } else {
        0
    }
}

/// The levels that stay are some of the levels, and there is room before or behind them for what
/// comes in the place of the tiers.
pub proof fn lemma_other_levels_place(
    levels: Seq<(usize, Seq<usize>)>,
    tiers: Seq<(usize, Seq<usize>)>,
)
    ensures
        0 <= first_tier(levels, tiers) <= other_levels(levels, tiers).len() <= levels.len(),
        forall|i: int|
            0 <= i < other_levels(levels, tiers).len() ==> levels.contains(
                #[trigger] other_levels(levels, tiers)[i],
            ),
        (forall|j: int| 0 <= j < levels.len() ==> !holds_tier(tiers, (#[trigger] levels[j]).1))
            ==> other_levels(levels, tiers) == levels,
    decreases levels.len(),
{
    if levels.len() > 0 {
        let front = levels.drop_last();
        let n = front.len() as int;
        lemma_other_levels_place(front, tiers);
        let r = other_levels(levels, tiers);
        assert forall|i: int| 0 <= i < r.len() implies levels.contains(#[trigger] r[i]) by {
            if i < other_levels(front, tiers).len() {
                assert(front.contains(other_levels(front, tiers)[i]));
                let j = choose|j: int| 0 <= j < n && front[j] == other_levels(front, tiers)[i];
                assert(levels[j] == r[i]);
            } else {
                assert(levels[n] == r[i]);
            }
        }
        if forall|j: int| 0 <= j < n ==> !holds_tier(tiers, (#[trigger] levels[j]).1) {
            assert forall|j: int| 0 <= j < n implies !holds_tier(
                tiers,
                (#[trigger] front[j]).1,
            ) by {
                assert(front[j] == levels[j]);
            }
            assert(front.push(levels.last()) =~= levels);
            if !holds_tier(tiers, levels.last().1) {
                assert(r == front.push(levels.last()));
            }
        }
        if forall|j: int| 0 <= j < levels.len() ==> !holds_tier(tiers, (#[trigger] levels[j]).1) {
            assert(!holds_tier(tiers, levels[n].1));
        }
    }
}

/// Which tables stand where once the tiers of a task have been merged.
pub open spec fn tiered_layout_after(
    layout: LayoutView,
    tiers: Seq<(usize, Seq<usize>)>,
    output: Seq<usize>,
) -> LayoutView {
    let kept = other_levels(layout.levels, tiers);
    LayoutView {
        l0: layout.l0,
        levels: if output.len() == 0 {
            kept
        } else {
            kept.insert(first_tier(layout.levels, tiers), (output[0], output))
        },
    }
}

/// Whether `a` and `b` hold the same ids.
fn same_ids(a: &[usize], b: &[usize]) -> (r: bool)
    ensures
        r == (a@ == b@),
{
    if a.len() != b.len() {
        return false;
    }
    let mut i: usize = 0;
    while i < a.len()
        invariant
            a@.len() == b@.len(),
            i <= a@.len(),
            forall|j: int| 0 <= j < i ==> a@[j] == b@[j],
        decreases a@.len() - i,
    {
        if a[i] != b[i] {
            return false;
        }
        i = i + 1;
    }
    assert(a@ =~= b@);
    true
}

/// A copy of the first `n` levels.
pub(crate) fn copy_levels(levels: &Vec<(usize, Vec<usize>)>, n: usize) -> (r: Vec<
    (usize, Vec<usize>),
>)
    requires
        n <= levels@.len(),
    ensures
        lsm_storage::levels_view(r@) == lsm_storage::levels_view(levels@).take(n as int),
{
    let mut r: Vec<(usize, Vec<usize>)> = Vec::new();
    let mut i: usize = 0;
    while i < n
        invariant
            i <= n <= levels@.len(),
            lsm_storage::levels_view(r@) == lsm_storage::levels_view(levels@).take(i as int),
        decreases n - i,
    {
        let ghost before = r@;
        r.push((levels[i].0, copy_ids(levels[i].1.as_slice())));
        assert(
            lsm_storage::levels_view(r@)
                =~= lsm_storage::levels_view(before).push(
                    lsm_storage::levels_view(levels@)[i as int]
                )
        );
        assert(lsm_storage::levels_view(levels@).take(i + 1)
            =~= lsm_storage::levels_view(levels@).take(i as int).push(
            lsm_storage::levels_view(levels@)[i as int],
        ));
        i = i + 1;
    }
    r
}

impl TieredCompactionController {
    pub fn new(options: TieredCompactionOptions) -> (r: Self)
        ensures
            r.options == options,
    {
        TieredCompactionController { options }
    }

    /// There are fewer tiers than the controller lets gather.
    pub open spec fn too_few_tiers(&self, snapshot: &LsmStorageState) -> bool {
        snapshot.levels@.len() == 0 || snapshot.levels@.len() < self.options.num_tiers
    }

    /// All tiers are to be merged because those above the last one are too large beside it.
    pub open spec fn amplification_triggers(
        &self,
        snapshot: &LsmStorageState,
        amplified: bool,
    ) -> bool {
        &&& snapshot.levels_seq().last().1.len() > 0
        &&& amplified
        &&& snapshot.levels@.len() > 1
    }

    /// The tiers before `i` are to be merged because the tier `i` is too large beside them.
    pub open spec fn ratio_triggers(
        &self,
        snapshot: &LsmStorageState,
        ratio_exceeded: Seq<bool>,
        i: int,
    ) -> bool {
        &&& 1 <= i < snapshot.levels@.len()
        &&& newer_tiers_hold(snapshot.levels_seq(), i)
        &&& ratio_exceeded[i]
        &&& i >= self.options.min_merge_width
    }

    /// How many tiers may be merged at once.
    pub open spec fn merge_width(&self) -> usize {
        match self.options.max_merge_width {
            Some(w) => w,
            None => usize::MAX,
        }
    }

    /// How many tables the tiers above the last one hold, and how many the last one holds.
    pub fn tier_sizes(&self, snapshot: &LsmStorageState) -> (r: (u64, u64))
        requires
            tier_ids(snapshot.levels_seq()).len() <= u64::MAX,
        ensures
            snapshot.levels@.len() == 0 ==> r == (0u64, 0u64),
            snapshot.levels@.len() > 0 ==> {
                &&& r.0 == tier_ids(snapshot.levels_seq().drop_last()).len()
                &&& r.1 == snapshot.levels_seq().last().1.len()
            },
    {
        let n: usize = snapshot.levels.len();
        let ghost levels = snapshot.levels_seq();
        if n == 0 {
            return (0, 0);
        }
        let mut all_except_last_size: u64 = 0;
        let mut i: usize = 0;
        assert(levels.take(0) =~= Seq::empty());
        while i < n - 1
            invariant
                i <= n - 1,
                n == snapshot.levels@.len(),
                levels == snapshot.levels_seq(),
                tier_ids(levels).len() <= u64::MAX,
                all_except_last_size == tier_ids(levels.take(i as int)).len(),
            decreases n - i,
        {
            proof {
                lemma_tier_ids_take(levels, i + 1);
                assert(levels.take(i + 1).drop_last() =~= levels.take(i as int));
                assert(levels[i as int].1 == snapshot.levels@[i as int].1@);
            }
            all_except_last_size = all_except_last_size + snapshot.levels[i].1.len() as u64;
            i = i + 1;
        }
        proof {
            assert(levels.take(n - 1) =~= levels.drop_last());
            assert(levels[n - 1].1 == snapshot.levels@[n - 1].1@);
        }
        (all_except_last_size, snapshot.levels[n - 1].1.len() as u64)
    }

    /// The task that the controller asks for: its tiers, and whether the last tier is among them.
    pub open spec fn generates(
        &self,
        snapshot: &LsmStorageState,
        amplified: bool,
        ratio_exceeded: Seq<bool>,
        r: Option<(Seq<(usize, Seq<usize>)>, bool)>,
    ) -> bool {
        let levels = snapshot.levels_seq();
        let n = levels.len() as int;
        if self.too_few_tiers(snapshot) {
            r is None
        } else if self.amplification_triggers(snapshot, amplified) {
            r == Some((levels, true))
        } else if exists|i: int| #[trigger] self.ratio_triggers(snapshot, ratio_exceeded, i) {
            exists|i: int|
                {
                    &&& #[trigger] self.ratio_triggers(snapshot, ratio_exceeded, i)
                    &&& forall|j: int|
                        j < i ==> !#[trigger] self.ratio_triggers(snapshot, ratio_exceeded, j)
                    &&& r == Some((levels.take(i), false))
                }
        } else if n > 1 && self.merge_width() >= 2 {
            let w = if self.merge_width() < n {
                self.merge_width() as int
            } else {
                n
            };
            r == Some((levels.take(w), w == n))
        } else {
            r is None
        }
    }

    /// Generates a compaction task, or `None` if no compaction needs to be scheduled.
    ///
    /// `amplified` tells whether the size of the tiers above the last one reaches
    /// `max_size_amplification_percent` percent of the size of the last one. `ratio_exceeded[i]`
    /// tells whether the size of the tier `i` is more than `100 + size_ratio` percent of the size
    /// of the tiers before it.
    pub fn generate_compaction_task(
        &self,
        snapshot: &LsmStorageState,
        amplified: bool,
        ratio_exceeded: &[bool],
    ) -> (r: Option<TieredCompactionTask>)
        requires
            ratio_exceeded@.len() >= snapshot.levels@.len(),
        ensures
            self.generates(
                snapshot,
                amplified,
                ratio_exceeded@,
                match r {
                    Some(t) => Some((t.tiers_seq(), t.bottom_tier_included)),
                    None => None,
                },
            ),
    {
        let n: usize = snapshot.levels.len();
        let ghost levels = snapshot.levels_seq();
        if n == 0 || n < self.options.num_tiers {
            return None;
        }
        assert(levels.last().1 == snapshot.levels@[n - 1].1@);
        assert(levels.take(n as int) =~= levels);
        if snapshot.levels[n - 1].1.len() != 0 && amplified && n > 1 {
            return Some(
                TieredCompactionTask {
                    tiers: copy_levels(&snapshot.levels, n),
                    bottom_tier_included: true,
                },
            );
        }
        let mut i: usize = 1;
        let mut newer_hold: bool = snapshot.levels[0].1.len() > 0;
        assert(levels[0].1 == snapshot.levels@[0].1@);
        while i < n
            invariant
                1 <= i <= n,
                n == snapshot.levels@.len(),
                levels == snapshot.levels_seq(),
                ratio_exceeded@.len() >= n,
                !self.too_few_tiers(snapshot),
                !self.amplification_triggers(snapshot, amplified),
                newer_hold == newer_tiers_hold(levels, i as int),
                forall|j: int|
                    j < i ==> !#[trigger] self.ratio_triggers(snapshot, ratio_exceeded@, j),
            decreases n - i,
        {
            if newer_hold && ratio_exceeded[i] && i >= self.options.min_merge_width {
                assert(self.ratio_triggers(snapshot, ratio_exceeded@, i as int));
                return Some(
                    TieredCompactionTask {
                        tiers: copy_levels(&snapshot.levels, i),
                        bottom_tier_included: false,
                    },
                );
            }
            assert(levels[i as int].1 == snapshot.levels@[i as int].1@);
            proof {
                if newer_tiers_hold(levels, i as int) {
                    let j = choose|j: int| 0 <= j < i && (#[trigger] levels[j]).1.len() > 0;
                    assert(levels[j].1.len() > 0);
                }
            }
            newer_hold = newer_hold || snapshot.levels[i].1.len() > 0;
            i = i + 1;
        }
        let width: usize = match self.options.max_merge_width {
            Some(w) => w,
            None => usize::MAX,
        };
        if n > 1 && width >= 2 {
            let count: usize = if width < n {
                width
            } else {
                n
            };
            return Some(
                TieredCompactionTask {
                    tiers: copy_levels(&snapshot.levels, count),
                    bottom_tier_included: count == n,
                },
            );
        }
        None
    }

    /// Apply the compaction result: the tiers that were merged are taken out, and the tables that
    /// came of it become a new tier in their place. A tier is found by its tables, since its id may
    /// be another one after a restart. The ids that are no longer in use come with the layout.
    pub fn apply_compaction_result(
        &self,
        snapshot: &LsmStorageState,
        task: &TieredCompactionTask,
        output: &[usize],
    ) -> (r: (TableLayout, Vec<usize>))
        requires
            task.tiers@.len() <= snapshot.levels@.len(),
        ensures
            r.0@ == tiered_layout_after(snapshot.layout(), task.tiers_seq(), output@),
            r.1@ == tier_ids(task.tiers_seq()),
    {
        let ghost levels = snapshot.levels_seq();
        let ghost tiers = task.tiers_seq();
        let mut to_remove: Vec<usize> = Vec::new();
        let mut t: usize = 0;
        assert(tiers.take(0) =~= Seq::empty());
        while t < task.tiers.len()
            invariant
                t <= task.tiers@.len(),
                tiers == task.tiers_seq(),
                to_remove@ == tier_ids(tiers.take(t as int)),
            decreases task.tiers@.len() - t,
        {
            assert(tiers.take(t + 1).drop_last() =~= tiers.take(t as int));
            assert(tiers.take(t + 1).last() == tiers[t as int]);
            assert(tiers[t as int].1 == task.tiers@[t as int].1@);
            to_remove = chain_ids(to_remove.as_slice(), task.tiers[t].1.as_slice());
            t = t + 1;
        }
        assert(tiers.take(t as int) =~= tiers);
        let mut new_levels: Vec<(usize, Vec<usize>)> = Vec::new();
        let mut insertion_point_found: bool = false;
        let mut insertion_idx: usize = 0;
        let mut idx: usize = 0;
        assert(levels.take(0) =~= Seq::empty());
        assert(lsm_storage::levels_view(new_levels@) =~= Seq::empty());
        while idx < snapshot.levels.len()
            invariant
                idx <= snapshot.levels@.len(),
                levels == snapshot.levels_seq(),
                tiers == task.tiers_seq(),
                lsm_storage::levels_view(new_levels@)
                    == other_levels(levels.take(idx as int), tiers),
                insertion_idx == first_tier(levels.take(idx as int), tiers),
                insertion_idx <= new_levels@.len() <= idx,
                insertion_point_found == exists|j: int|
                    0 <= j < idx && holds_tier(tiers, (#[trigger] levels[j]).1),
                !insertion_point_found ==> new_levels@.len() == idx,
            decreases snapshot.levels@.len() - idx,
        {
            let ghost before = new_levels@;
            let ghost taken = levels.take(idx + 1);
            assert(taken.drop_last() =~= levels.take(idx as int));
            assert(taken.last() == levels[idx as int]);
            assert(levels[idx as int] == (
                snapshot.levels@[idx as int].0,
                snapshot.levels@[idx as int].1@,
            ));
            assert(forall|j: int| 0 <= j < idx ==> #[trigger] taken[j] == levels[j]);
            let ids: &[usize] = snapshot.levels[idx].1.as_slice();
            let merged: bool = Self::is_tier_of(task, ids);
            proof {
                if insertion_point_found {
                    let j = choose|j: int|
                        0 <= j < idx && holds_tier(tiers, (#[trigger] levels[j]).1);
                    assert(holds_tier(tiers, taken[j].1));
                    assert(holds_tier(tiers, levels[j].1));
                }
            }
            if merged {
                if !insertion_point_found {
                    insertion_idx = idx;
                    insertion_point_found = true;
                }
                assert(holds_tier(tiers, levels[idx as int].1));
            } else {
                new_levels.push((snapshot.levels[idx].0, copy_ids(ids)));
                assert(lsm_storage::levels_view(new_levels@)
                    =~= lsm_storage::levels_view(before).push(
                    levels[idx as int],
                ));
            }
            idx = idx + 1;
        }
        assert(levels.take(idx as int) =~= levels);
        if output.len() > 0 {
            let ghost before = new_levels@;
            new_levels.insert(insertion_idx, (output[0], copy_ids(output)));
            assert(lsm_storage::levels_view(new_levels@)
                =~= lsm_storage::levels_view(before).insert(
                insertion_idx as int,
                (output@[0], output@),
            ));
        }
        let l0_sstables: Vec<usize> = copy_ids(snapshot.l0_sstables.as_slice());
        (TableLayout { l0_sstables, levels: new_levels }, to_remove)
    }

    /// Whether one of the tiers of a task holds exactly these tables.
    fn is_tier_of(task: &TieredCompactionTask, ids: &[usize]) -> (r: bool)
        ensures
            r == holds_tier(task.tiers_seq(), ids@),
    {
        let mut i: usize = 0;
        while i < task.tiers.len()
            invariant
                i <= task.tiers@.len(),
                forall|j: int| 0 <= j < i ==> (#[trigger] task.tiers_seq()[j]).1 != ids@,
            decreases task.tiers@.len() - i,
        {
            assert(task.tiers_seq()[i as int].1 == task.tiers@[i as int].1@);
            if same_ids(task.tiers[i].1.as_slice(), ids) {
                return true;
            }
            i = i + 1;
        }
        false
    }
}

/// The tables of some tiers are no more than those of all.
proof fn lemma_tier_ids_take(levels: Seq<(usize, Seq<usize>)>, n: int)
    requires
        0 <= n <= levels.len(),
    ensures
        tier_ids(levels.take(n)).len() <= tier_ids(levels).len(),
    decreases levels.len(),
{
    if n == levels.len() {
        assert(levels.take(n) =~= levels);
    } else {
        lemma_tier_ids_take(levels.drop_last(), n);
        assert(levels.drop_last().take(n) =~= levels.take(n));
    }
}

} // verus!
