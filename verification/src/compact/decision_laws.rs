//! What holds of the tasks that the controllers ask for.
use crate::compact::{
    self, CompactionController, LevelTaskView, LeveledCompactionController,
    SimpleLeveledCompactionController, SizeRatios, TaskView, TieredCompactionController,
};
use crate::compact::leveled;
use crate::compact::simple_leveled;
use crate::compact::tiered;
use crate::key::{self, KeyView};
use crate::lsm_storage::LsmStorageState;
use crate::table::SsTable;
use std::sync::Arc;
use vstd::prelude::*;

verus! {

/// What simple leveled compaction asks for. Enough tables in L0 are all merged into L1. Otherwise
/// there is a task exactly if a level above the last one holds tables beside too small a level
/// below it, be it any of them; the first such level is merged as a whole into the one below it.
pub proof fn law_simple_task(
    c: SimpleLeveledCompactionController,
    snapshot: &LsmStorageState,
    ratio_below: Seq<bool>,
    r: Option<LevelTaskView>,
)
    requires
        c.generates(snapshot, ratio_below, r),
    ensures
        snapshot.l0_sstables@.len() >= c.options.level0_file_num_compaction_trigger ==> {
            &&& r is Some
            &&& r->Some_0.upper_level is None
            &&& r->Some_0.upper == snapshot.l0_sstables@
            &&& r->Some_0.lower_level == 1
            &&& r->Some_0.lower == snapshot.levels_seq()[0].1
            &&& r->Some_0.bottom == (c.options.max_levels == 1)
        },
        snapshot.l0_sstables@.len() < c.options.level0_file_num_compaction_trigger ==> {
            &&& forall|i: int|
                0 <= i < c.options.max_levels - 1
                    && (#[trigger] snapshot.levels_seq()[i]).1.len() > 0
                    && ratio_below[i] ==> r is Some
            &&& r matches Some(t) ==> {
                let u = t.upper_level->Some_0;
                &&& t.upper_level is Some
                &&& 1 <= u < c.options.max_levels
                &&& t.lower_level == u + 1
                &&& t.upper == snapshot.levels_seq()[u - 1].1
                &&& t.lower == snapshot.levels_seq()[u as int].1
                &&& t.upper.len() > 0
                &&& ratio_below[u - 1]
                &&& forall|j: int|
                    0 <= j < u - 1 ==> (#[trigger] snapshot.levels_seq()[j]).1.len() == 0
                        || !ratio_below[j]
                &&& t.bottom == (t.lower_level == c.options.max_levels)
            }
        },
{
    let levels = snapshot.levels_seq();
    if snapshot.l0_sstables@.len() < c.options.level0_file_num_compaction_trigger {
        match r {
            None => {
                assert forall|i: int|
                    0 <= i < c.options.max_levels - 1 && (#[trigger] levels[i]).1.len() > 0
                        && ratio_below[i] implies r is Some by {
                    assert(simple_leveled::ratio_triggers(levels, ratio_below, i));
                }
            },
            Some(t) => {
                let i = choose|i: int|
                    {
                        &&& 0 <= i < c.options.max_levels - 1
                        &&& #[trigger] simple_leveled::ratio_triggers(levels, ratio_below, i)
                        &&& forall|j: int|
                            0 <= j < i
                                ==> !#[trigger] simple_leveled::ratio_triggers(
                                    levels,
                                    ratio_below,
                                    j,
                                )
                        &&& t == simple_leveled::ratio_task(levels, c.options.max_levels, i)
                    };
                let u = t.upper_level->Some_0;
                assert(u == i + 1);
                assert forall|j: int| 0 <= j < u - 1 implies (#[trigger] levels[j]).1.len() == 0
                    || !ratio_below[j] by {
                    assert(!simple_leveled::ratio_triggers(levels, ratio_below, j));
                }
            },
        }
    }
}

/// What tiered compaction asks for. With too few tiers there is no task. Otherwise two tiers or
/// more always give one, unless the width of a merge is limited to less than two; without such a
/// limit no number of tiers is too many for a merge. A task merges the newest tiers, and goes to the
/// bottom exactly if it merges all of them: it does if the last tier is too small beside the others;
/// it merges the tiers before the first one that is too large beside them, if these are as many as
/// the least width; and if neither is the case it merges as many as the width allows.
pub proof fn law_tiered_task(
    c: TieredCompactionController,
    snapshot: &LsmStorageState,
    amplified: bool,
    ratio_exceeded: Seq<bool>,
    r: Option<(Seq<(usize, Seq<usize>)>, bool)>,
)
    requires
        c.generates(snapshot, amplified, ratio_exceeded, r),
    ensures
        snapshot.levels_seq().len() < c.options.num_tiers || snapshot.levels_seq().len() == 0
            ==> r is None,
        snapshot.levels_seq().len() >= c.options.num_tiers && snapshot.levels_seq().len() >= 2 && (
        c.options.max_merge_width is None || c.options.max_merge_width->Some_0 >= 2) ==> r is Some,
        r matches Some((tiers, bottom)) ==> {
            &&& 1 <= tiers.len() <= snapshot.levels_seq().len()
            &&& tiers == snapshot.levels_seq().take(tiers.len() as int)
            &&& bottom == (tiers.len() == snapshot.levels_seq().len())
            &&& snapshot.levels_seq().len() >= 2
        },
        amplified && snapshot.levels_seq().len() >= c.options.num_tiers
            && snapshot.levels_seq().len() >= 2 && snapshot.levels_seq().last().1.len() > 0
            ==> r is Some && r->Some_0.0 == snapshot.levels_seq(),
        snapshot.levels_seq().len() >= c.options.num_tiers && !(amplified
            && snapshot.levels_seq().last().1.len() > 0) ==> {
            &&& forall|i: int, j: int|
                {
                    &&& 0 <= j < i < snapshot.levels_seq().len()
                    &&& (#[trigger] snapshot.levels_seq()[j]).1.len() > 0
                    &&& #[trigger] ratio_exceeded[i]
                    &&& i >= c.options.min_merge_width
                } ==> r is Some && r->Some_0.0.len() <= i
            &&& r matches Some((tiers, _)) ==> {
                ||| {
                    &&& tiers.len() < snapshot.levels_seq().len()
                    &&& ratio_exceeded[tiers.len() as int]
                    &&& tiers.len() >= c.options.min_merge_width
                    &&& exists|j: int| 0 <= j < tiers.len() && (#[trigger] tiers[j]).1.len() > 0
                }
                ||| {
                    &&& forall|i: int, j: int|
                        {
                            &&& 0 <= j < i < snapshot.levels_seq().len()
                            &&& (#[trigger] snapshot.levels_seq()[j]).1.len() > 0
                            &&& i >= c.options.min_merge_width
                        } ==> !#[trigger] ratio_exceeded[i]
                    &&& c.options.max_merge_width is None ==> tiers == snapshot.levels_seq()
                    &&& c.options.max_merge_width matches Some(w) ==> {
                        &&& w >= 2
                        &&& w <= snapshot.levels_seq().len() ==> tiers.len() == w
                        &&& w > snapshot.levels_seq().len() ==> tiers == snapshot.levels_seq()
                    }
                }
            }
        },
{
    let levels = snapshot.levels_seq();
    let n = levels.len() as int;
    assert(n == snapshot.levels.len());
    assert(levels.take(n) =~= levels);
    if !c.too_few_tiers(snapshot) && !c.amplification_triggers(snapshot, amplified) {
        assert forall|i: int, j: int|
            {
                &&& 0 <= j < i < n
                &&& (#[trigger] levels[j]).1.len() > 0
                &&& #[trigger] ratio_exceeded[i]
                &&& i >= c.options.min_merge_width
            } implies c.ratio_triggers(snapshot, ratio_exceeded, i) by {
            assert(tiered::newer_tiers_hold(levels, i));
        }
        if exists|i: int| #[trigger] c.ratio_triggers(snapshot, ratio_exceeded, i) {
            let i = choose|i: int|
                {
                    &&& #[trigger] c.ratio_triggers(snapshot, ratio_exceeded, i)
                    &&& forall|j: int|
                        j < i ==> !#[trigger] c.ratio_triggers(snapshot, ratio_exceeded, j)
                    &&& r == Some((levels.take(i), false))
                };
            let j = choose|j: int| 0 <= j < i && (#[trigger] levels[j]).1.len() > 0;
            assert(levels.take(i)[j] == levels[j]);
            assert(levels.take(i).len() == i);
            assert forall|x: int, y: int|
                {
                    &&& 0 <= y < x < n
                    &&& (#[trigger] levels[y]).1.len() > 0
                    &&& #[trigger] ratio_exceeded[x]
                    &&& x >= c.options.min_merge_width
                } implies i <= x by {
                assert(c.ratio_triggers(snapshot, ratio_exceeded, x));
            }
        } else {
            assert forall|i: int, j: int|
                {
                    &&& 0 <= j < i < n
                    &&& (#[trigger] levels[j]).1.len() > 0
                    &&& i >= c.options.min_merge_width
                } implies !#[trigger] ratio_exceeded[i] by {
                if ratio_exceeded[i] {
                    assert(tiered::newer_tiers_hold(levels, i));
                    assert(c.ratio_triggers(snapshot, ratio_exceeded, i));
                }
            }
        }
    }
}

/// The size of tables is the sum of the sizes of their files: it adds up over two lists, and a
/// table that is not there has none.
pub proof fn law_tables_size(a: Seq<usize>, b: Seq<usize>, tables: Map<usize, Arc<SsTable>>, id: usize)
    ensures
        leveled::tables_size(a + b, tables)
            == leveled::tables_size(a, tables) + leveled::tables_size(b, tables),
        tables.contains_key(id) ==> leveled::tables_size(seq![id], tables) == tables[id].file.size,
        !tables.contains_key(id) ==> leveled::tables_size(seq![id], tables) == 0,
    decreases b.len(),
{
    assert(seq![id].drop_last() =~= Seq::empty());
    assert(leveled::tables_size(Seq::empty(), tables) == 0);
    if b.len() == 0 {
        assert(a + b =~= a);
    } else {
        law_tables_size(a, b.drop_last(), tables, id);
        assert((a + b).drop_last() =~= a + b.drop_last());
    }
}

/// The size of L0 is that of its tables, and so is that of any other level that is there.
pub proof fn law_level_size(c: LeveledCompactionController, snapshot: &LsmStorageState, i: int)
    ensures
        c.level_size(0, snapshot)
            == leveled::tables_size(snapshot.l0_sstables@, snapshot.sstables@),
        0 <= i < snapshot.levels_seq().len()
            ==> c.level_size(i + 1, snapshot) == leveled::tables_size(
            snapshot.levels_seq()[i].1,
            snapshot.sstables@,
        ),
        i >= snapshot.levels_seq().len() ==> c.level_size(i + 1, snapshot) == 0,
{
}

/// A level that has a size is there, and holds tables.
proof fn lemma_level_size_positive(
    c: LeveledCompactionController,
    snapshot: &LsmStorageState,
    level: int,
)
    requires
        level >= 1,
        c.level_size(level, snapshot) > 0,
    ensures
        level - 1 < snapshot.levels@.len(),
        snapshot.levels_seq()[level - 1].1.len() > 0,
{
}

/// The target of a level is that of the next one divided by the multiplier, rounded up.
proof fn lemma_target_from(size: int, i: int, j: int, base: int, m: usize)
    requires
        0 <= j < i,
        base >= 0,
        size >= 0,
    ensures
        ({
            let t = leveled::target_from(size, i, j, base, m);
            let next = leveled::target_from(size, i, j + 1, base, m);
            &&& t >= 0
            &&& next > base && m > 0 ==> next <= t * m < next + m
            &&& next > base && m == 0 ==> t == usize::MAX
            &&& next <= base ==> t == 0
        }),
        leveled::target_from(size, i, i, base, m) == size,
    decreases i,
{
    if size > base {
        let above = leveled::shrunk(size, m);
        if m > 0 {
            let n = m as int;
            let x = size + n - 1;
            vstd::arithmetic::div_mod::lemma_fundamental_div_mod(x, n);
            assert(n * (x / n) == (x / n) * n) by (nonlinear_arith);
            assert(x / n >= 0) by (nonlinear_arith)
                requires
                    x >= 0,
                    n > 0,
            ;
        }
        if j + 1 < i {
            lemma_target_from(above, i - 1, j, base, m);
        } else {
            assert(
                leveled::target_from(size, i, j, base, m)
                    == leveled::target_from(above, j, j, base, m)
            );
        }
    }
}

/// The target sizes of leveled compaction. The last level has its own size for a target, but at
/// least the base size. A level above one whose target exceeds the base size has a target that is
/// smaller by the multiplier, rounded up; a level above any other one has none.
pub proof fn law_level_targets(
    c: LeveledCompactionController,
    snapshot: &LsmStorageState,
    j: int,
)
    requires
        0 <= j < c.options.max_levels,
    ensures
        ({
            let base = c.options.base_level_size_mb * 1024 * 1024;
            let last = c.options.max_levels - 1;
            let bottom = if last < snapshot.levels_seq().len() {
                leveled::tables_size(snapshot.levels_seq()[last].1, snapshot.sstables@)
            } else {
                0
            };
            let m = c.options.level_size_multiplier;
            let next = c.target(snapshot, j + 1);
            &&& c.target(snapshot, last) == if bottom > base {
                bottom as int
            } else {
                base
            }
            &&& 0 <= c.target(snapshot, j)
            &&& j < last && next > base && m > 0 ==> next <= c.target(snapshot, j) * m < next + m
            &&& j < last && next > base && m == 0 ==> c.target(snapshot, j) == usize::MAX
            &&& j < last && next <= base ==> c.target(snapshot, j) == 0
        }),
{
    let base = c.base_bytes();
    let last = c.options.max_levels - 1;
    let bottom = c.level_size(c.options.max_levels as int, snapshot) as int;
    assert(base >= 0);
    if bottom > base {
        if last > 0 {
            lemma_target_from(
                bottom,
                last,
                if j < last {
                    j
                } else {
                    0
                },
                base,
                c.options.level_size_multiplier,
            );
        }
    }
}

/// The span of some tables begins with the first key of one of them, ends with the last key of one
/// of them, and holds those of all; it is there if one of them is.
proof fn lemma_span(ids: Seq<usize>, tables: Map<usize, Arc<SsTable>>)
    ensures
        leveled::key_span(ids, tables) is None ==> forall|id: usize| #[trigger]
            ids.contains(id) ==> !tables.contains_key(id),
        leveled::key_span(ids, tables) matches Some((min, max)) ==> {
            &&& exists|a: usize| #[trigger]
                ids.contains(a) && tables.contains_key(a) && tables[a].first_key@ == min
            &&& exists|b: usize| #[trigger]
                ids.contains(b) && tables.contains_key(b) && tables[b].last_key@ == max
            &&& forall|id: usize| #[trigger]
                ids.contains(id) && tables.contains_key(id)
                    ==> key::key_le(min, tables[id].first_key@)
                    && key::key_le(tables[id].last_key@, max)
        },
    decreases ids.len(),
{
    broadcast use key::group_key_order;

    if ids.len() > 0 {
        let front = ids.drop_last();
        let last = ids.last();
        lemma_span(front, tables);
        assert(ids =~= front.push(last));
        assert(ids[ids.len() - 1] == last);
        assert(ids.contains(last));
        assert forall|id: usize| #[trigger] front.contains(id) implies ids.contains(id) by {
            let i = choose|i: int| 0 <= i < front.len() && front[i] == id;
            assert(ids[i] == id);
        }
        assert forall|id: usize| #[trigger] ids.contains(id) implies id == last || front.contains(
            id,
        ) by {
            let i = choose|i: int| 0 <= i < ids.len() && ids[i] == id;
            if i < front.len() {
                assert(front[i] == id);
            }
        }
        if let Some((min, max)) = leveled::key_span(front, tables) {
            let a = choose|a: usize| #[trigger]
                front.contains(a) && tables.contains_key(a) && tables[a].first_key@ == min;
            let b = choose|b: usize| #[trigger]
                front.contains(b) && tables.contains_key(b) && tables[b].last_key@ == max;
            assert(ids.contains(a));
            assert(ids.contains(b));
        }
    }
}

/// The tables that touch a range are those that do not end before it and do not begin behind it.
proof fn lemma_touches(
    ids: Seq<usize>,
    tables: Map<usize, Arc<SsTable>>,
    min: KeyView,
    max: KeyView,
    id: usize,
)
    ensures
        leveled::touching(ids, tables, min, max).contains(id) <==> {
            &&& ids.contains(id)
            &&& tables.contains_key(id)
            &&& key::key_le(min, tables[id].last_key@)
            &&& key::key_le(tables[id].first_key@, max)
        },
    decreases ids.len(),
{
    if ids.len() > 0 {
        let front = ids.drop_last();
        let last = ids.last();
        lemma_touches(front, tables, min, max, id);
        assert(ids =~= front + seq![last]);
        compact::lemma_concat_contains(front, seq![last], id);
        assert(seq![last][0] == last);
        let found = leveled::touching(front, tables, min, max);
        assert(found.push(last) =~= found + seq![last]);
        compact::lemma_concat_contains(found, seq![last], id);
    }
}

/// What leveled compaction asks for. Enough tables in L0 come first: as many of them as trigger a
/// compaction, from the first on, are merged into the first level that has a target, or into L1 if
/// none has. Otherwise the oldest table of a level that is larger than its target is merged into the
/// next level, and of such levels it is the first of those with the highest priority; without such a
/// level there is no task. Below, exactly those tables are merged whose keys lie between the first
/// and the last key of those above.
pub proof fn law_leveled_task(
    c: LeveledCompactionController,
    snapshot: &LsmStorageState,
    priorities: Seq<u64>,
    r: Option<LevelTaskView>,
)
    requires
        c.generates(snapshot, priorities, r),
    ensures
        snapshot.l0_sstables@.len() >= c.options.level0_file_num_compaction_trigger ==> {
            &&& r is Some <==> c.options.level0_file_num_compaction_trigger > 0
            &&& r matches Some(t) ==> {
                &&& t.upper_level is None
                &&& t.upper == snapshot.l0_sstables@.take(
                    c.options.level0_file_num_compaction_trigger as int,
                )
                &&& 1 <= t.lower_level <= c.options.max_levels
                &&& forall|j: int|
                    0 <= j < t.lower_level - 1 ==> #[trigger] c.target(snapshot, j) <= 0
                &&& c.target(snapshot, t.lower_level - 1) > 0
                    || (t.lower_level == 1 && forall|j: int|
                    0 <= j < c.options.max_levels ==> #[trigger] c.target(snapshot, j) <= 0)
            }
        },
        snapshot.l0_sstables@.len() < c.options.level0_file_num_compaction_trigger ==> {
            &&& forall|i: int|
                {
                    &&& 0 <= i < c.options.max_levels
                    &&& i < snapshot.levels_seq().len()
                    &&& 0 < c.target(snapshot, i) < leveled::tables_size(
                        (#[trigger] snapshot.levels_seq()[i]).1,
                        snapshot.sstables@,
                    )
                    &&& priorities[i] > 0
                } ==> {
                    &&& r is Some
                    &&& priorities[i] <= priorities[r->Some_0.upper_level->Some_0 - 1]
                    &&& i + 1 < r->Some_0.upper_level->Some_0 ==> priorities[i]
                        < priorities[r->Some_0.upper_level->Some_0 - 1]
                }
            &&& r matches Some(t) ==> {
                let u = t.upper_level->Some_0;
                &&& t.upper_level is Some
                &&& 1 <= u <= c.options.max_levels
                &&& u <= snapshot.levels_seq().len()
                &&& t.lower_level == u + 1
                &&& 0 < c.target(snapshot, u - 1) < leveled::tables_size(
                    snapshot.levels_seq()[u - 1].1,
                    snapshot.sstables@,
                )
                &&& priorities[u - 1] > 0
                &&& t.upper.len() == 1
                &&& snapshot.levels_seq()[u - 1].1.contains(t.upper[0])
                &&& forall|i: int|
                    0 <= i < snapshot.levels_seq()[u - 1].1.len() ==> t.upper[0]
                        <= #[trigger] snapshot.levels_seq()[u - 1].1[i]
            }
        },
        r matches Some(t) ==> {
            &&& t.bottom == (t.lower_level == c.options.max_levels)
            &&& t.lower_level > snapshot.levels_seq().len() ==> t.lower.len() == 0
            &&& t.lower_level <= snapshot.levels_seq().len() ==> forall|id: usize| #[trigger]
                t.lower.contains(id) <==> {
                    &&& snapshot.levels_seq()[t.lower_level - 1].1.contains(id)
                    &&& snapshot.sstables@.contains_key(id)
                    &&& exists|a: usize|
                        {
                            &&& #[trigger] t.upper.contains(a)
                            &&& snapshot.sstables@.contains_key(a)
                            &&& key::key_le(
                                snapshot.sstables@[a].first_key@,
                                snapshot.sstables@[id].last_key@,
                            )
                        }
                    &&& exists|b: usize|
                        {
                            &&& #[trigger] t.upper.contains(b)
                            &&& snapshot.sstables@.contains_key(b)
                            &&& key::key_le(
                                snapshot.sstables@[id].first_key@,
                                snapshot.sstables@[b].last_key@,
                            )
                        }
                }
        },
{
    let found = choose|found: Option<(usize, usize)>| #[trigger]
        c.levels_to_compact(snapshot, priorities, found) && match found {
            None => r is None,
            Some((upper, lower)) => c.task_for(snapshot, upper, lower, r),
        };
    if snapshot.l0_sstables@.len() >= c.options.level0_file_num_compaction_trigger {
        let n = c.options.level0_file_num_compaction_trigger as int;
        assert(snapshot.l0_sstables@.take(n).len() == n);
        if n == 0 {
            assert(snapshot.l0_sstables@.take(n) =~= Seq::empty());
        }
    } else {
        assert forall|i: int|
            {
                &&& 0 <= i < c.options.max_levels
                &&& i < snapshot.levels_seq().len()
                &&& 0 < c.target(snapshot, i) < leveled::tables_size(
                    (#[trigger] snapshot.levels_seq()[i]).1,
                    snapshot.sstables@,
                )
                &&& priorities[i] > 0
            } implies c.oversized(snapshot, priorities, i + 1) by {}
        if let Some((upper, lower)) = found {
            assert(c.oversized(snapshot, priorities, upper as int));
            lemma_level_size_positive(c, snapshot, upper as int);
            assert(!c.picked(snapshot, upper as int, Seq::empty()));
        }
    }
    if let Some(t) = r {
        let (upper, lower) = found->Some_0;
        let tables = snapshot.sstables@;
        if lower <= snapshot.levels_seq().len() {
            assert(lower >= 1);
            let ids = snapshot.levels_seq()[lower - 1].1;
            lemma_span(t.upper, tables);
            assert forall|id: usize| #[trigger] t.lower.contains(id) <==> {
                &&& ids.contains(id)
                &&& tables.contains_key(id)
                &&& exists|a: usize| #[trigger]
                    t.upper.contains(a) && tables.contains_key(a) && key::key_le(
                        tables[a].first_key@,
                        tables[id].last_key@,
                    )
                &&& exists|b: usize| #[trigger]
                    t.upper.contains(b) && tables.contains_key(b) && key::key_le(
                        tables[id].first_key@,
                        tables[b].last_key@,
                    )
            } by {
                broadcast use key::group_key_order;

                if let Some((min, max)) = leveled::key_span(t.upper, tables) {
                    lemma_touches(ids, tables, min, max, id);
                }
            }
        }
    }
}

/// A controller asks for tasks of its own strategy only, and decides by the ratios that are meant for
/// that strategy.
pub proof fn law_controller_asks(
    c: CompactionController,
    snapshot: &LsmStorageState,
    ratios: &SizeRatios,
    r: Option<TaskView>,
)
    requires
        c.generates(snapshot, ratios, r),
    ensures
        match c {
            CompactionController::Simple(ctrl) => {
                &&& r is None || r->Some_0 is Simple
                &&& ctrl.generates(
                    snapshot,
                    ratios.ratio_below@,
                    if r is None {
                        None
                    } else {
                        Some(r->Some_0->Simple_0)
                    },
                )
            },
            CompactionController::Leveled(ctrl) => {
                &&& r is None || r->Some_0 is Leveled
                &&& ctrl.generates(
                    snapshot,
                    ratios.priorities@,
                    if r is None {
                        None
                    } else {
                        Some(r->Some_0->Leveled_0)
                    },
                )
            },
            CompactionController::Tiered(ctrl) => {
                &&& r is None || r->Some_0 is Tiered
                &&& ctrl.generates(
                    snapshot,
                    ratios.amplified,
                    ratios.ratio_exceeded@,
                    if r is None {
                        None
                    } else {
                        Some((r->Some_0->Tiered_0, r->Some_0->Tiered_1))
                    },
                )
            },
            CompactionController::NoCompaction => r is None,
        },
{
}

/// A controller can be asked for a task where the levels of its options are there, their sizes are
/// numbers, and the ratios cover them; and the task that it asks for can be applied.
pub proof fn law_controllers_ready(
    c: CompactionController,
    snapshot: &LsmStorageState,
    ratios: &SizeRatios,
    t: TaskView,
)
    ensures
        c matches CompactionController::Simple(ctrl) ==> {
            &&& ctrl.options.max_levels >= 1
            &&& snapshot.levels_seq().len() >= ctrl.options.max_levels
            &&& ratios.ratio_below@.len() + 1 >= snapshot.levels_seq().len()
        } ==> c.can_generate(snapshot, ratios),
        c matches CompactionController::Tiered(_) ==> ratios.ratio_exceeded@.len()
            >= snapshot.levels_seq().len() ==> c.can_generate(snapshot, ratios),
        c matches CompactionController::Leveled(ctrl) ==> {
            &&& 1 <= ctrl.options.max_levels < usize::MAX
            &&& ctrl.options.base_level_size_mb * 1024 * 1024 <= usize::MAX
            &&& ratios.priorities@.len() >= ctrl.options.max_levels
            &&& forall|i: int|
                0 <= i < snapshot.levels_seq().len() ==> leveled::tables_size(
                    (#[trigger] snapshot.levels_seq()[i]).1,
                    snapshot.sstables@,
                ) <= u64::MAX
                    && leveled::tables_size(snapshot.levels_seq()[i].1, snapshot.sstables@)
                    <= usize::MAX
        } ==> c.can_generate(snapshot, ratios),
        c.generates(snapshot, ratios, Some(t)) ==> c.can_apply(snapshot.layout(), t),
{
    if let CompactionController::Leveled(ctrl) = c {
        if forall|i: int|
            0 <= i < snapshot.levels_seq().len() ==> leveled::tables_size(
                (#[trigger] snapshot.levels_seq()[i]).1,
                snapshot.sstables@,
            ) <= u64::MAX && leveled::tables_size(snapshot.levels_seq()[i].1, snapshot.sstables@)
                <= usize::MAX {
            assert forall|level: int| 1 <= level <= ctrl.options.max_levels implies #[trigger]
            ctrl.level_size(level, snapshot) <= u64::MAX && ctrl.level_size(level, snapshot)
                <= usize::MAX by {
                if level - 1 < snapshot.levels_seq().len() {
                    assert(leveled::tables_size(
                        snapshot.levels_seq()[level - 1].1,
                        snapshot.sstables@,
                    )
                        <= u64::MAX);
                }
            }
        }
        if c.generates(snapshot, ratios, Some(t)) {
            law_leveled_task(ctrl, snapshot, ratios.priorities@, Some(t->Leveled_0));
        }
    }
    if let CompactionController::Tiered(ctrl) = c {
        if c.generates(snapshot, ratios, Some(t)) {
            law_tiered_task(
                ctrl,
                snapshot,
                ratios.amplified,
                ratios.ratio_exceeded@,
                Some((t->Tiered_0, t->Tiered_1)),
            );
        }
    }
}

} // verus!
