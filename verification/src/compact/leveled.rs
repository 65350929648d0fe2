//! Leveled compaction.
use crate::compact::{self, LevelTaskView, chain_ids, contains_id, copy_ids, drop_ids};
use crate::compact::decision_laws;
use crate::key::{self, KeySlice, KeyView, StorageKey};
use crate::lsm_storage::{self, LayoutView, LsmStorageState, TableLayout};
use crate::table::SsTable;
use std::collections::HashMap;
use std::sync::Arc;
use vstd::prelude::*;

verus! {

#[derive(Debug)]
pub struct LeveledCompactionTask {
    /// If `upper_level` is `None`, then it is L0 compaction.
    pub upper_level: Option<usize>,
    pub upper_level_sst_ids: Vec<usize>,
    pub lower_level: usize,
    pub lower_level_sst_ids: Vec<usize>,
    pub is_lower_level_bottom_level: bool,
}

impl View for LeveledCompactionTask {
    type V = LevelTaskView;

    open spec fn view(&self) -> LevelTaskView {
        LevelTaskView {
            upper_level: self.upper_level,
            upper: self.upper_level_sst_ids@,
            lower_level: self.lower_level,
            lower: self.lower_level_sst_ids@,
            bottom: self.is_lower_level_bottom_level,
        }
    }
}

impl Clone for LeveledCompactionTask {
    fn clone(&self) -> (r: Self)
        ensures
            r@ == self@,
    {
        LeveledCompactionTask {
            upper_level: self.upper_level,
            upper_level_sst_ids: copy_ids(self.upper_level_sst_ids.as_slice()),
            lower_level: self.lower_level,
            lower_level_sst_ids: copy_ids(self.lower_level_sst_ids.as_slice()),
            is_lower_level_bottom_level: self.is_lower_level_bottom_level,
        }
    }
}

#[derive(Debug, Clone, Copy)]
pub struct LeveledCompactionOptions {
    pub level_size_multiplier: usize,
    pub level0_file_num_compaction_trigger: usize,
    pub max_levels: usize,
    pub base_level_size_mb: usize,
}

#[derive(Debug)]
pub struct LeveledCompactionController {
    pub options: LeveledCompactionOptions,
}

/// The sum of the sizes of those tables that are there.
pub open spec fn tables_size(ids: Seq<usize>, tables: Map<usize, Arc<SsTable>>) -> nat
    decreases ids.len(),
{
    if ids.len() == 0 {
        0
    } else {
        tables_size(ids.drop_last(), tables) + if tables.contains_key(ids.last()) {
            tables[ids.last()].file.size as nat
        } else {
            0
        }
    }
}

/// The size that the level above one of size `size` should have: `size` divided by the
/// multiplier, rounded up.
pub open spec fn shrunk(size: int, multiplier: usize) -> int {
    if multiplier == 0 {
        usize::MAX as int
    } else {
        (size + multiplier - 1) / multiplier as int
    }
}

/// The target size of the level `j + 1`, if the level `i + 1` and those above it are given
/// targets from the size `size` on: a level that is larger than the base size gives the one above
/// it a target too.
pub open spec fn target_from(size: int, i: int, j: int, base: int, multiplier: usize) -> int
    decreases i,
{
    if i <= 0 || size <= base {
        if i == j {
            size
        } else {
            0
        }
    } else if i == j {
        size
    } else {
        target_from(shrunk(size, multiplier), i - 1, j, base, multiplier)
    }
}

/// The smallest of the ids.
pub open spec fn is_oldest(ids: Seq<usize>, id: usize) -> bool {
    ids.contains(id) && forall|j: int| 0 <= j < ids.len() ==> id <= #[trigger] ids[j]
}

/// How many ids stand before the first one that occurs in `gone`.
pub open spec fn first_of(ids: Seq<usize>, gone: Seq<usize>) -> int
    decreases ids.len(),
{
    if ids.len() == 0 || gone.contains(ids[0]) {
        0
    } else {
        1 + first_of(ids.drop_first(), gone)
    }
}

/// The ids of `ids` that belong to tables whose key ranges touch the range from `min` to `max`.
pub open spec fn touching(
    ids: Seq<usize>,
    tables: Map<usize, Arc<SsTable>>,
    min: KeyView,
    max: KeyView,
) -> Seq<usize>
    decreases ids.len(),
{
    if ids.len() == 0 {
        Seq::empty()
    } else {
        let front = touching(ids.drop_last(), tables, min, max);
        let id = ids.last();
        if tables.contains_key(id) && key::key_le(min, tables[id].last_key@) && key::key_le(
            tables[id].first_key@,
            max,
        ) {
            front.push(id)
        } else {
            front
        }
    }
}

/// The keys between which those tables lie that are there; `None` if none is there.
pub open spec fn key_span(ids: Seq<usize>, tables: Map<usize, Arc<SsTable>>) -> Option<
    (KeyView, KeyView),
>
    decreases ids.len(),
{
    if ids.len() == 0 {
        None
    } else {
        let front = key_span(ids.drop_last(), tables);
        let id = ids.last();
        if !tables.contains_key(id) {
            front
        } else {
            let first = tables[id].first_key@;
            let last = tables[id].last_key@;
            match front {
                None => Some((first, last)),
                Some((min, max)) => Some(
                    (
                        if key::key_lt(first, min) {
                            first
                        } else {
                            min
                        },
                        if key::key_lt(max, last) {
                            last
                        } else {
                            max
                        },
                    ),
                ),
            }
        }
    }
}

/// The tables of the lower level whose key ranges touch that of the upper tables.
pub open spec fn overlapping(
    upper: Seq<usize>,
    levels: Seq<(usize, Seq<usize>)>,
    tables: Map<usize, Arc<SsTable>>,
    lower_level: int,
) -> Seq<usize> {
    match key_span(upper, tables) {
        None => Seq::empty(),
        Some((min, max)) => if lower_level - 1 < levels.len() {
            touching(levels[lower_level - 1].1, tables, min, max)
        } else {
            Seq::empty()
        },
    }
}

/// A level as a task leaves it: without the tables that were merged, and in the lower level with
/// those that came of it where the first merged table stood, or at the end if there was none.
pub open spec fn leveled_level_after(
    level: (usize, Seq<usize>),
    number: int,
    task: LevelTaskView,
    output: Seq<usize>,
) -> (usize, Seq<usize>) {
    let kept = if task.upper_level matches Some(u) && u == number {
        compact::without(level.1, task.upper)
    } else {
        level.1
    };
    let p = first_of(kept, task.lower);
    (
        level.0,
        if number == task.lower_level {
            kept.take(p) + output + compact::without(kept.skip(p), task.lower)
        } else {
            kept
        },
    )
}

/// Which tables stand where once a task has been applied.
pub open spec fn leveled_layout_after(
    layout: LayoutView,
    task: LevelTaskView,
    output: Seq<usize>,
) -> LayoutView {
    LayoutView {
        l0: if task.upper_level is None {
            compact::without(layout.l0, task.upper)
        } else {
            layout.l0
        },
        levels: Seq::new(
            layout.levels.len(),
            |i: int| leveled_level_after(layout.levels[i], i + 1, task, output),
        ),
    }
}

proof fn lemma_first_of(ids: Seq<usize>, gone: Seq<usize>, p: int)
    requires
        0 <= p <= ids.len(),
        forall|j: int| 0 <= j < p ==> !gone.contains(#[trigger] ids[j]),
        p < ids.len() ==> gone.contains(ids[p]),
    ensures
        first_of(ids, gone) == p,
    decreases p,
{
    if p > 0 {
        assert(!gone.contains(ids[0]));
        let t = ids.drop_first();
        assert forall|j: int| 0 <= j < p - 1 implies !gone.contains(#[trigger] t[j]) by {
            assert(t[j] == ids[j + 1]);
        }
        if p < ids.len() {
            assert(t[p - 1] == ids[p]);
        }
        lemma_first_of(t, gone, p - 1);
    }
}

/// The sizes of some tables are no more than those of all.
proof fn lemma_tables_size_take(ids: Seq<usize>, tables: Map<usize, Arc<SsTable>>, n: int)
    requires
        0 <= n <= ids.len(),
    ensures
        tables_size(ids.take(n), tables) <= tables_size(ids, tables),
    decreases ids.len(),
{
    if n == ids.len() {
        assert(ids.take(n) =~= ids);
    } else {
        lemma_tables_size_take(ids.drop_last(), tables, n);
        assert(ids.drop_last().take(n) =~= ids.take(n));
    }
}

/// The sum of the sizes of those tables that are there.
fn sum_sizes(ids: &[usize], tables: &HashMap<usize, Arc<SsTable>>) -> (r: usize)
    requires
        tables_size(ids@, tables@) <= u64::MAX,
    ensures
        r == (tables_size(ids@, tables@) as u64) as usize,
{
    broadcast use vstd::std_specs::hash::group_hash_axioms;

    let mut sum: u64 = 0;
    let mut i: usize = 0;
    assert(ids@.take(0) =~= Seq::empty());
    while i < ids.len()
        invariant
            i <= ids@.len(),
            tables_size(ids@, tables@) <= u64::MAX,
            sum == tables_size(ids@.take(i as int), tables@),
        decreases ids@.len() - i,
    {
        broadcast use vstd::std_specs::hash::group_hash_axioms;

        proof {
            lemma_tables_size_take(ids@, tables@, i + 1);
            assert(ids@.take(i + 1).drop_last() =~= ids@.take(i as int));
            assert(ids@.take(i + 1).last() == ids@[i as int]);
        }
        if let Some(sst) = tables.get(&ids[i]) {
            sum = sum + sst.table_size();
        }
        i = i + 1;
    }
    assert(ids@.take(i as int) =~= ids@);
    sum as usize
}

/// Whether the sum of the sizes of those tables that are there can be told.
fn sizes_fit(ids: &[usize], tables: &HashMap<usize, Arc<SsTable>>) -> (r: bool)
    ensures
        r == (tables_size(ids@, tables@) <= u64::MAX && tables_size(ids@, tables@) <= usize::MAX),
{
    broadcast use vstd::std_specs::hash::group_hash_axioms;

    let mut sum: u64 = 0;
    let mut i: usize = 0;
    assert(ids@.take(0) =~= Seq::empty());
    while i < ids.len()
        invariant
            i <= ids@.len(),
            sum == tables_size(ids@.take(i as int), tables@),
        decreases ids@.len() - i,
    {
        broadcast use vstd::std_specs::hash::group_hash_axioms;

        proof {
            lemma_tables_size_take(ids@, tables@, i + 1);
            assert(ids@.take(i + 1).drop_last() =~= ids@.take(i as int));
            assert(ids@.take(i + 1).last() == ids@[i as int]);
        }
        if let Some(sst) = tables.get(&ids[i]) {
            let size: u64 = sst.table_size();
            if size > u64::MAX - sum {
                return false;
            }
            sum = sum + size;
        }
        i = i + 1;
    }
    assert(ids@.take(i as int) =~= ids@);
    sum <= usize::MAX as u64
}

impl LeveledCompactionController {
    pub fn new(options: LeveledCompactionOptions) -> (r: Self)
        ensures
            r.options == options,
    {
        LeveledCompactionController { options }
    }

    /// The base size of a level in bytes.
    pub open spec fn base_bytes(&self) -> int {
        self.options.base_level_size_mb * 1024 * 1024
    }

    /// The size of a level, L0 being the level 0.
    pub open spec fn level_size(&self, level: int, snapshot: &LsmStorageState) -> nat {
        if level == 0 {
            tables_size(snapshot.l0_sstables@, snapshot.sstables@)
        } else if level - 1 < snapshot.levels@.len() {
            tables_size(snapshot.levels_seq()[level - 1].1, snapshot.sstables@)
        } else {
            0
        }
    }

    /// The base size is a number of bytes, there is at least one level, and the sizes of the levels
    /// can be told.
    pub open spec fn can_measure(&self, snapshot: &LsmStorageState) -> bool {
        &&& self.base_bytes() <= usize::MAX
        &&& self.options.max_levels >= 1
        &&& forall|level: int|
            1 <= level <= self.options.max_levels ==> #[trigger] self.level_size(level, snapshot)
                <= u64::MAX && self.level_size(level, snapshot) <= usize::MAX
    }

    /// Whether the base size is a number of bytes, there is at least one level, and the sizes of the
    /// levels can be told.
    pub fn is_measurable(&self, snapshot: &LsmStorageState) -> (r: bool)
        ensures
            r == self.can_measure(snapshot),
    {
        if self.options.base_level_size_mb > usize::MAX / 1024 / 1024 || self.options.max_levels
            == 0 {
            return false;
        }
        let n: usize = if self.options.max_levels < snapshot.levels.len() {
            self.options.max_levels
        } else {
            snapshot.levels.len()
        };
        let mut i: usize = 0;
        while i < n
            invariant
                i <= n <= snapshot.levels@.len(),
                n <= self.options.max_levels,
                forall|level: int|
                    1 <= level <= i ==> #[trigger] self.level_size(level, snapshot) <= u64::MAX
                        && self.level_size(level, snapshot) <= usize::MAX,
            decreases n - i,
        {
            assert(snapshot.levels_seq()[i as int].1 == snapshot.levels@[i as int].1@);
            if !sizes_fit(snapshot.levels[i].1.as_slice(), &snapshot.sstables) {
                assert(!(self.level_size(i + 1, snapshot) <= u64::MAX && self.level_size(
                    i + 1,
                    snapshot,
                ) <= usize::MAX));
                return false;
            }
            i = i + 1;
        }
        true
    }

    /// The target size of the level `j + 1`.
    pub open spec fn target(&self, snapshot: &LsmStorageState, j: int) -> int {
        let bottom = self.level_size(self.options.max_levels as int, snapshot) as int;
        let base = self.base_bytes();
        let last = self.options.max_levels - 1;
        if bottom <= base {
            if j == last {
                base
            } else {
                0
            }
        } else {
            target_from(bottom, last, j, base, self.options.level_size_multiplier)
        }
    }

    /// Computes the target size for each level.
    pub fn compute_level_target_size(&self, snapshot: &LsmStorageState) -> (r: Vec<usize>)
        requires
            self.can_measure(snapshot),
        ensures
            r@.len() == self.options.max_levels,
            forall|j: int|
                0 <= j < r@.len() ==> #[trigger] r@[j] == self.target(snapshot, j),
            forall|j: int|
                0 <= j < r@.len() - 1 && r@[j + 1] > self.options.base_level_size_mb * 1024 * 1024
                    && self.options.level_size_multiplier > 0 ==> r@[j + 1] <= #[trigger] r@[j]
                    * self.options.level_size_multiplier < r@[j + 1]
                    + self.options.level_size_multiplier,
    {
        assert(self.options.base_level_size_mb * 1024 <= self.base_bytes());
        let base_bytes: usize = self.options.base_level_size_mb * 1024 * 1024;
        let max_levels: usize = self.options.max_levels;
        let mut target_sizes: Vec<usize> = Vec::new();
        let mut i: usize = 0;
        while i < max_levels
            invariant
                i <= max_levels,
                target_sizes@.len() == i,
                forall|j: int| 0 <= j < i ==> #[trigger] target_sizes@[j] == 0,
            decreases max_levels - i,
        {
            target_sizes.push(0);
            i = i + 1;
        }
        let bottom_level_idx: usize = max_levels - 1;
        let bottom_level_size: usize = self.get_level_size(max_levels, snapshot);
        if bottom_level_size <= base_bytes {
            target_sizes.set(bottom_level_idx, base_bytes);
            proof {
                self.lemma_targets_shrink(snapshot, target_sizes@);
            }
            return target_sizes;
        }
        let multiplier: usize = self.options.level_size_multiplier;
        let mut current_size: usize = bottom_level_size;
        let mut level_idx: usize = bottom_level_idx;
        let ghost bottom = bottom_level_size as int;
        let ghost base = base_bytes as int;
        let ghost last = bottom_level_idx as int;
        while level_idx > 0 && current_size > base_bytes
            invariant
                level_idx <= bottom_level_idx,
                bottom_level_idx < max_levels,
                target_sizes@.len() == max_levels,
                multiplier == self.options.level_size_multiplier,
                base == base_bytes,
                last == bottom_level_idx,
                forall|j: int|
                    level_idx < j < max_levels ==> #[trigger] target_sizes@[j] == target_from(
                        bottom,
                        last,
                        j,
                        base,
                        multiplier,
                    ),
                forall|j: int| 0 <= j <= level_idx ==> #[trigger] target_sizes@[j] == 0,
                forall|j: int|
                    0 <= j <= level_idx
                        ==> #[trigger] target_from(bottom, last, j, base, multiplier)
                        == target_from(current_size as int, level_idx as int, j, base, multiplier),
            decreases level_idx,
        {
            let ghost size = current_size as int;
            let ghost idx = level_idx as int;
            assert(target_from(bottom, last, idx, base, multiplier) == size);
            assert forall|j: int| 0 <= j < idx implies #[trigger] target_from(
                bottom,
                last,
                j,
                base,
                multiplier,
            ) == target_from(shrunk(size, multiplier), idx - 1, j, base, multiplier) by {}
            target_sizes.set(level_idx, current_size);
            current_size = Self::shrink(current_size, multiplier);
            level_idx = level_idx - 1;
        }
        assert(target_from(bottom, last, level_idx as int, base, multiplier) == current_size);
        target_sizes.set(level_idx, current_size);
        assert forall|j: int| 0 <= j < max_levels implies #[trigger] target_sizes@[j]
            == target_from(bottom, last, j, base, multiplier) by {
            if j < level_idx {
                assert(target_from(bottom, last, j, base, multiplier) == target_from(
                    current_size as int,
                    level_idx as int,
                    j,
                    base,
                    multiplier,
                ));
            }
        }
        proof {
            self.lemma_targets_shrink(snapshot, target_sizes@);
        }
        target_sizes
    }

    /// The target of a level is that of the next one divided by the multiplier, rounded up.
    proof fn lemma_targets_shrink(&self, snapshot: &LsmStorageState, r: Seq<usize>)
        requires
            r.len() == self.options.max_levels,
            forall|j: int| 0 <= j < r.len() ==> #[trigger] r[j] == self.target(snapshot, j),
        ensures
            forall|j: int|
                0 <= j < r.len() - 1 && r[j + 1] > self.options.base_level_size_mb * 1024 * 1024
                    && self.options.level_size_multiplier > 0 ==> r[j + 1] <= #[trigger] r[j]
                    * self.options.level_size_multiplier < r[j + 1]
                    + self.options.level_size_multiplier,
    {
        assert forall|j: int|
            0 <= j < r.len() - 1 && r[j + 1] > self.options.base_level_size_mb * 1024 * 1024
                && self.options.level_size_multiplier > 0 implies r[j + 1] <= #[trigger] r[j]
            * self.options.level_size_multiplier < r[j + 1]
            + self.options.level_size_multiplier by {
            decision_laws::law_level_targets(*self, snapshot, j);
        }
    }

    /// The size that the level above one of size `size` should have.
    fn shrink(size: usize, multiplier: usize) -> (r: usize)
        ensures
            r == shrunk(size as int, multiplier),
    {
        if multiplier == 0 {
            return usize::MAX;
        }
        let quotient: usize = size / multiplier;
        let remainder: usize = size % multiplier;
        proof {
            let s = size as int;
            let m = multiplier as int;
            let q = quotient as int;
            let r = remainder as int;
            assert(s == m * q + r && 0 <= r < m && q >= 0) by {
                vstd::arithmetic::div_mod::lemma_fundamental_div_mod(s, m);
            }
            if r == 0 {
                assert((s + m - 1) / m == q) by (nonlinear_arith)
                    requires
                        s == m * q + r,
                        r == 0,
                        m > 0,
                ;
            } else {
                assert((s + m - 1) / m == q + 1) by (nonlinear_arith)
                    requires
                        s == m * q + r,
                        0 < r < m,
                ;
                assert(q < s) by (nonlinear_arith)
                    requires
                        s == m * q + r,
                        0 < r < m,
                        q >= 0,
                ;
            }
        }
        if remainder == 0 {
            quotient
        } else {
            quotient + 1
        }
    }

    /// The size of a level in bytes.
    pub fn get_level_size(&self, level: usize, snapshot: &LsmStorageState) -> (r: usize)
        requires
            self.level_size(level as int, snapshot) <= u64::MAX,
        ensures
            r == (self.level_size(level as int, snapshot) as u64) as usize,
    {
        if level == 0 {
            sum_sizes(snapshot.l0_sstables.as_slice(), &snapshot.sstables)
        } else if level - 1 < snapshot.levels.len() {
            assert(snapshot.levels_seq()[level - 1].1 == snapshot.levels@[level - 1].1@);
            sum_sizes(snapshot.levels[level - 1].1.as_slice(), &snapshot.sstables)
        } else {
            0
        }
    }

    /// Finds the tables of the lower level whose key ranges overlap with those of the given tables.
    fn find_overlapping_ssts(
        &self,
        snapshot: &LsmStorageState,
        upper_level_sst_ids: &[usize],
        lower_level: usize,
    ) -> (r: Vec<usize>)
        requires
            lower_level >= 1,
        ensures
            r@ == overlapping(
                upper_level_sst_ids@,
                snapshot.levels_seq(),
                snapshot.sstables@,
                lower_level as int,
            ),
    {
        broadcast use vstd::std_specs::hash::group_hash_axioms;

        let ghost tables = snapshot.sstables@;
        let ghost upper = upper_level_sst_ids@;
        let mut span: Option<(KeySlice<'_>, KeySlice<'_>)> = None;
        let mut i: usize = 0;
        assert(upper.take(0) =~= Seq::empty());
        while i < upper_level_sst_ids.len()
            invariant
                i <= upper.len(),
                upper == upper_level_sst_ids@,
                tables == snapshot.sstables@,
                match span {
                    None => key_span(upper.take(i as int), tables) is None,
                    Some((min, max)) => key_span(upper.take(i as int), tables) == Some(
                        (min@, max@),
                    ),
                },
            decreases upper.len() - i,
        {
            broadcast use vstd::std_specs::hash::group_hash_axioms;

            assert(upper.take(i + 1).drop_last() =~= upper.take(i as int));
            assert(upper.take(i + 1).last() == upper[i as int]);
            if let Some(sst) = snapshot.sstables.get(&upper_level_sst_ids[i]) {
                let first: KeySlice<'_> = sst.first_key().as_key_slice();
                let last: KeySlice<'_> = sst.last_key().as_key_slice();
                span =
                match span {
                    None => Some((first, last)),
                    Some((min, max)) => {
                        let lo: KeySlice<'_> = if first.less(&min) {
                            first
                        } else {
                            min
                        };
                        let hi: KeySlice<'_> = if max.less(&last) {
                            last
                        } else {
                            max
                        };
                        Some((lo, hi))
                    },
                };
            }
            i = i + 1;
        }
        assert(upper.take(i as int) =~= upper);
        let mut found: Vec<usize> = Vec::new();
        if let Some((min, max)) = span {
            if lower_level - 1 < snapshot.levels.len() {
                let sst_ids: &[usize] = snapshot.levels[lower_level - 1].1.as_slice();
                assert(snapshot.levels_seq()[lower_level - 1].1 == sst_ids@);
                let mut j: usize = 0;
                assert(sst_ids@.take(0) =~= Seq::empty());
                while j < sst_ids.len()
                    invariant
                        j <= sst_ids@.len(),
                        tables == snapshot.sstables@,
                        found@ == touching(sst_ids@.take(j as int), tables, min@, max@),
                    decreases sst_ids@.len() - j,
                {
                    broadcast use vstd::std_specs::hash::group_hash_axioms;

                    assert(sst_ids@.take(j + 1).drop_last() =~= sst_ids@.take(j as int));
                    assert(sst_ids@.take(j + 1).last() == sst_ids@[j as int]);
                    if let Some(sst) = snapshot.sstables.get(&sst_ids[j]) {
                        let first: KeySlice<'_> = sst.first_key().as_key_slice();
                        let last: KeySlice<'_> = sst.last_key().as_key_slice();
                        if !last.less(&min) && !max.less(&first) {
                            found.push(sst_ids[j]);
                        }
                    }
                    j = j + 1;
                }
                assert(sst_ids@.take(j as int) =~= sst_ids@);
            }
        }
        found
    }

    /// Enough tables have gathered in L0.
    pub open spec fn l0_triggers(&self, snapshot: &LsmStorageState) -> bool {
        snapshot.l0_sstables@.len() >= self.options.level0_file_num_compaction_trigger
    }

    /// The level is larger than its target, and so may be merged into the next one.
    pub open spec fn oversized(
        &self,
        snapshot: &LsmStorageState,
        priorities: Seq<u64>,
        level: int,
    ) -> bool {
        &&& 1 <= level <= self.options.max_levels
        &&& 0 < self.target(snapshot, level - 1) < self.level_size(level, snapshot)
        &&& priorities[level - 1] > 0
    }

    /// The levels that are to be merged: the upper and the lower one.
    pub open spec fn levels_to_compact(
        &self,
        snapshot: &LsmStorageState,
        priorities: Seq<u64>,
        r: Option<(usize, usize)>,
    ) -> bool {
        if self.l0_triggers(snapshot) {
            r matches Some((upper, lower)) && {
                &&& upper == 0
                &&& 1 <= lower <= self.options.max_levels
                &&& forall|j: int| 0 <= j < lower - 1 ==> #[trigger] self.target(snapshot, j) <= 0
                &&& self.target(snapshot, lower - 1) > 0 || (lower == 1 && forall|j: int|
                    0 <= j < self.options.max_levels ==> #[trigger] self.target(snapshot, j) <= 0)
            }
        } else {
            match r {
                None => forall|level: int| !#[trigger] self.oversized(snapshot, priorities, level),
                Some((upper, lower)) => {
                    &&& lower == upper + 1
                    &&& self.oversized(snapshot, priorities, upper as int)
                    &&& forall|level: int| #[trigger]
                        self.oversized(snapshot, priorities, level) ==> priorities[level - 1]
                            <= priorities[upper - 1]
                    &&& forall|level: int| #[trigger]
                        self.oversized(snapshot, priorities, level) && level < upper
                            ==> priorities[level - 1] < priorities[upper - 1]
                },
            }
        }
    }

    /// Finds the level with the highest compaction priority. L0 comes first; its tables go to the
    /// first level that has a target. `priorities[i]` ranks the ratio of the size of the level
    /// `i + 1` to its target size: a larger ratio has a larger rank, and the ratio 0 the rank 0.
    fn find_level_to_compact(&self, snapshot: &LsmStorageState, priorities: &[u64]) -> (r: Option<
        (usize, usize),
    >)
        requires
            self.can_measure(snapshot),
            self.options.max_levels < usize::MAX,
            priorities@.len() >= self.options.max_levels,
        ensures
            self.levels_to_compact(snapshot, priorities@, r),
    {
        let target_sizes: Vec<usize> = self.compute_level_target_size(snapshot);
        let max_levels: usize = self.options.max_levels;
        if snapshot.l0_sstables.len() >= self.options.level0_file_num_compaction_trigger {
            let mut level: usize = 1;
            while level <= max_levels
                invariant
                    1 <= level <= max_levels + 1,
                    max_levels == self.options.max_levels,
                    max_levels < usize::MAX,
                    self.l0_triggers(snapshot),
                    target_sizes@.len() == max_levels,
                    forall|j: int|
                        0 <= j < max_levels ==> #[trigger] target_sizes@[j] == self.target(
                            snapshot,
                            j,
                        ),
                    forall|j: int| 0 <= j < level - 1 ==> #[trigger] self.target(snapshot, j) <= 0,
                decreases max_levels + 1 - level,
            {
                assert(target_sizes@[level - 1] == self.target(snapshot, level - 1));
                if target_sizes[level - 1] > 0 {
                    return Some((0, level));
                }
                level = level + 1;
            }
            return Some((0, 1));
        }
        let mut best_priority: u64 = 0;
        let mut best_level: Option<usize> = None;
        let mut level: usize = 1;
        while level <= max_levels
            invariant
                1 <= level <= max_levels + 1,
                max_levels == self.options.max_levels,
                max_levels < usize::MAX,
                self.can_measure(snapshot),
                priorities@.len() >= max_levels,
                target_sizes@.len() == max_levels,
                forall|j: int|
                    0 <= j < max_levels ==> #[trigger] target_sizes@[j] == self.target(snapshot, j),
                forall|l: int| #[trigger]
                    self.oversized(snapshot, priorities@, l) && l < level ==> priorities@[l - 1]
                        <= best_priority,
                best_level matches Some(b) ==> {
                    &&& self.oversized(snapshot, priorities@, b as int)
                    &&& b < level
                    &&& best_priority == priorities@[b - 1]
                    &&& forall|l: int| #[trigger]
                        self.oversized(snapshot, priorities@, l) && l < b ==> priorities@[l - 1]
                            < best_priority
                },
                best_level is None ==> best_priority == 0,
            decreases max_levels + 1 - level,
        {
            assert(self.level_size(level as int, snapshot) <= u64::MAX);
            let level_size: usize = self.get_level_size(level, snapshot);
            let target_size: usize = target_sizes[level - 1];
            assert(target_size == self.target(snapshot, level - 1));
            if target_size > 0 && level_size > target_size {
                let priority: u64 = priorities[level - 1];
                if priority > best_priority {
                    assert(self.oversized(snapshot, priorities@, level as int));
                    best_priority = priority;
                    best_level = Some(level);
                }
            }
            level = level + 1;
        }
        match best_level {
            Some(b) => Some((b, b + 1)),
            None => None,
        }
    }

    /// The tables of a level that are to be merged: of L0 the first ones, as many as trigger a
    /// compaction; of another level the oldest one, which has the smallest id.
    pub open spec fn picked(&self, snapshot: &LsmStorageState, level: int, ids: Seq<usize>) -> bool {
        if level == 0 {
            let n = self.options.level0_file_num_compaction_trigger as int;
            ids == if n <= snapshot.l0_sstables@.len() {
                snapshot.l0_sstables@.take(n)
            } else {
                snapshot.l0_sstables@
            }
        } else if level - 1 < snapshot.levels@.len() && snapshot.levels_seq()[level - 1].1.len()
            > 0 {
            ids.len() == 1 && is_oldest(snapshot.levels_seq()[level - 1].1, ids[0])
        } else {
            ids.len() == 0
        }
    }

    /// Picks the tables of a level that are to be merged.
    fn pick_ssts_for_compaction(&self, snapshot: &LsmStorageState, level: usize) -> (r: Vec<usize>)
        ensures
            self.picked(snapshot, level as int, r@),
    {
        let mut picked: Vec<usize> = Vec::new();
        if level == 0 {
            let trigger: usize = self.options.level0_file_num_compaction_trigger;
            let n: usize = if trigger <= snapshot.l0_sstables.len() {
                trigger
            } else {
                snapshot.l0_sstables.len()
            };
            picked = copy_ids(&snapshot.l0_sstables.as_slice()[0..n]);
            assert(picked@ =~= snapshot.l0_sstables@.take(n as int));
            assert(snapshot.l0_sstables@.take(snapshot.l0_sstables@.len() as int)
                =~= snapshot.l0_sstables@);
        } else if level - 1 < snapshot.levels.len() {
            let sst_ids: &[usize] = snapshot.levels[level - 1].1.as_slice();
            assert(snapshot.levels_seq()[level - 1].1 == sst_ids@);
            if sst_ids.len() > 0 {
                let mut oldest: usize = sst_ids[0];
                let mut i: usize = 1;
                assert(sst_ids@[0] == oldest);
                while i < sst_ids.len()
                    invariant
                        1 <= i <= sst_ids@.len(),
                        sst_ids@.contains(oldest),
                        forall|j: int| 0 <= j < i ==> oldest <= #[trigger] sst_ids@[j],
                    decreases sst_ids@.len() - i,
                {
                    if sst_ids[i] < oldest {
                        oldest = sst_ids[i];
                        assert(sst_ids@[i as int] == oldest);
                    }
                    i = i + 1;
                }
                picked.push(oldest);
            }
        }
        picked
    }

    /// The task that the controller asks for, given the levels that are to be merged.
    pub open spec fn task_for(
        &self,
        snapshot: &LsmStorageState,
        upper: usize,
        lower: usize,
        r: Option<LevelTaskView>,
    ) -> bool {
        &&& r is None <==> self.picked(snapshot, upper as int, Seq::empty())
        &&& r matches Some(t) ==> {
            &&& self.picked(snapshot, upper as int, t.upper)
            &&& t.upper.len() > 0
            &&& t.upper_level == if upper == 0 {
                None
            } else {
                Some(upper)
            }
            &&& t.lower_level == lower
            &&& t.lower == overlapping(
                t.upper,
                snapshot.levels_seq(),
                snapshot.sstables@,
                lower as int,
            )
            &&& t.bottom == (lower == self.options.max_levels)
        }
    }

    /// The task that the controller asks for.
    pub open spec fn generates(
        &self,
        snapshot: &LsmStorageState,
        priorities: Seq<u64>,
        r: Option<LevelTaskView>,
    ) -> bool {
        exists|found: Option<(usize, usize)>| #[trigger]
            self.levels_to_compact(snapshot, priorities, found) && match found {
                None => r is None,
                Some((upper, lower)) => self.task_for(snapshot, upper, lower, r),
            }
    }

    /// The sizes of the levels can be told, and the priorities are there.
    pub open spec fn can_generate(&self, snapshot: &LsmStorageState, priorities: Seq<u64>) -> bool {
        &&& self.can_measure(snapshot)
        &&& self.options.max_levels < usize::MAX
        &&& priorities.len() >= self.options.max_levels
    }

    /// Generates a compaction task, or `None` if no compaction needs to be scheduled.
    ///
    /// `priorities[i]` ranks the ratio of the size of the level `i + 1` to its target size: a
    /// larger ratio has a larger rank, and the ratio 0 the rank 0.
    pub fn generate_compaction_task(&self, snapshot: &LsmStorageState, priorities: &[u64]) -> (r:
        Option<LeveledCompactionTask>)
        requires
            self.can_generate(snapshot, priorities@),
        ensures
            self.generates(
                snapshot,
                priorities@,
                match r {
                    Some(t) => Some(t@),
                    None => None,
                },
            ),
    {
        let found: Option<(usize, usize)> = self.find_level_to_compact(snapshot, priorities);
        assert(self.levels_to_compact(snapshot, priorities@, found));
        match found {
            None => None,
            Some((upper_level, lower_level)) => {
                let upper_level_sst_ids: Vec<usize> = self.pick_ssts_for_compaction(
                    snapshot,
                    upper_level,
                );
                if upper_level_sst_ids.len() == 0 {
                    assert(upper_level_sst_ids@ =~= Seq::empty());
                    return None;
                }
                let lower_level_sst_ids: Vec<usize> = self.find_overlapping_ssts(
                    snapshot,
                    upper_level_sst_ids.as_slice(),
                    lower_level,
                );
                let t = LeveledCompactionTask {
                    upper_level: if upper_level == 0 {
                        None
                    } else {
                        Some(upper_level)
                    },
                    upper_level_sst_ids,
                    lower_level,
                    lower_level_sst_ids,
                    is_lower_level_bottom_level: lower_level == self.options.max_levels,
                };
                Some(t)
            },
        }
    }

    /// Apply the compaction result: the tables that were merged are taken out, and those that came
    /// of it are put into the lower level. The ids that are no longer in use come with the layout.
    pub fn apply_compaction_result(
        &self,
        snapshot: &LsmStorageState,
        task: &LeveledCompactionTask,
        output: &[usize],
        _in_recovery: bool,
    ) -> (r: (TableLayout, Vec<usize>))
        requires
            task.upper_level matches Some(u) ==> u >= 1,
        ensures
            r.0@ == leveled_layout_after(snapshot.layout(), task@, output@),
            r.1@ == task@.upper + task@.lower,
    {
        let to_remove: Vec<usize> = chain_ids(
            task.upper_level_sst_ids.as_slice(),
            task.lower_level_sst_ids.as_slice(),
        );
        let upper: &[usize] = task.upper_level_sst_ids.as_slice();
        let l0_sstables: Vec<usize> = if task.upper_level.is_none() {
            drop_ids(snapshot.l0_sstables.as_slice(), upper)
        } else {
            copy_ids(snapshot.l0_sstables.as_slice())
        };
        let mut levels: Vec<(usize, Vec<usize>)> = Vec::new();
        let mut idx: usize = 0;
        while idx < snapshot.levels.len()
            invariant
                idx <= snapshot.levels@.len(),
                levels@.len() == idx,
                upper@ == task@.upper,
                forall|i: int|
                    0 <= i < idx
                        ==> #[trigger] lsm_storage::levels_view(levels@)[i] == leveled_level_after(
                        snapshot.levels_seq()[i],
                        i + 1,
                        task@,
                        output@,
                    ),
            decreases snapshot.levels@.len() - idx,
        {
            let ghost before = levels@;
            let level: usize = idx + 1;
            assert(snapshot.levels_seq()[idx as int] == (
                snapshot.levels@[idx as int].0,
                snapshot.levels@[idx as int].1@,
            ));
            let mut level_ssts: Vec<usize> = copy_ids(snapshot.levels[idx].1.as_slice());
            if task.upper_level.is_some() && task.upper_level.unwrap() == level {
                level_ssts = drop_ids(level_ssts.as_slice(), upper);
            }
            if level == task.lower_level {
                level_ssts =
                Self::replace_in_level(
                    level_ssts.as_slice(),
                    task.lower_level_sst_ids.as_slice(),
                    output,
                );
            }
            levels.push((snapshot.levels[idx].0, level_ssts));
            assert forall|i: int| 0 <= i < idx
                implies #[trigger] lsm_storage::levels_view(levels@)[i]
                == lsm_storage::levels_view(before)[i] by {}
            idx = idx + 1;
        }
        let layout = TableLayout { l0_sstables, levels };
        assert(layout@.levels =~= leveled_layout_after(snapshot.layout(), task@, output@).levels);
        (layout, to_remove)
    }

    /// Takes `gone` out of a level, and puts `output` where the first of them stood.
    fn replace_in_level(ids: &[usize], gone: &[usize], output: &[usize]) -> (r: Vec<usize>)
        ensures
            ({
                let p = first_of(ids@, gone@);
                r@ == ids@.take(p) + output@ + compact::without(ids@.skip(p), gone@)
            }),
    {
        let n: usize = ids.len();
        let mut p: usize = 0;
        while p < n && !contains_id(gone, ids[p])
            invariant
                p <= n,
                n == ids@.len(),
                forall|j: int| 0 <= j < p ==> !gone@.contains(#[trigger] ids@[j]),
            decreases n - p,
        {
            p = p + 1;
        }
        proof {
            lemma_first_of(ids@, gone@, p as int);
        }
        let head: Vec<usize> = chain_ids(&ids[0..p], output);
        let tail: Vec<usize> = drop_ids(&ids[p..n], gone);
        assert(ids@.subrange(0, p as int) =~= ids@.take(p as int));
        assert(ids@.subrange(p as int, n as int) =~= ids@.skip(p as int));
        chain_ids(head.as_slice(), tail.as_slice())
    }
}

} // verus!
