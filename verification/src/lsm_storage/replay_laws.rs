//! That the manifest leads back to the layout of the running engine.
use crate::compact::{self, CompactionController, TaskView};
use crate::compact::leveled;
use crate::error::LsmError;
use crate::key;
use crate::lsm_storage::{self, LayoutView, LsmStorageInner};
use crate::lsm_storage::compaction;
use crate::lsm_storage::flush;
use crate::lsm_storage::leveled_laws;
use crate::lsm_storage::orderly;
use crate::lsm_storage::read;
use crate::lsm_storage::recovery::{self, ReplayView};
use crate::manifest::RecordView;
use crate::table::SsTable;
use std::sync::Arc;
use vstd::prelude::*;

verus! {

/// The same tables stand in each place; within a level their order may differ.
pub open spec fn same_places(a: LayoutView, b: LayoutView) -> bool {
    &&& a.l0 == b.l0
    &&& a.levels.len() == b.levels.len()
    &&& forall|i: int| 0 <= i < a.levels.len() ==> #[trigger] same_level(a.levels[i], b.levels[i])
}

/// The same tables stand in both levels.
pub open spec fn same_level(a: (usize, Seq<usize>), b: (usize, Seq<usize>)) -> bool {
    a.0 == b.0 && a.1.to_multiset() == b.1.to_multiset()
}

/// How often an id occurs once ids have been taken out.
proof fn lemma_without_count(ids: Seq<usize>, gone: Seq<usize>, id: usize)
    ensures
        compact::without(ids, gone).to_multiset().count(id) == if gone.contains(id) {
            0
        } else {
            ids.to_multiset().count(id)
        },
    decreases ids.len(),
{
    broadcast use vstd::multiset::group_multiset_axioms;

    if ids.len() > 0 {
        let front = ids.drop_last();
        let last = ids.last();
        lemma_without_count(front, gone, id);
        assert(ids =~= front.push(last));
        vstd::seq_lib::to_multiset_build(front, last);
        vstd::seq_lib::to_multiset_build(compact::without(front, gone), last);
    } else {
        vstd::seq_lib::to_multiset_contains(ids, id);
    }
}

proof fn lemma_without_same(a: Seq<usize>, b: Seq<usize>, gone: Seq<usize>)
    requires
        a.to_multiset() == b.to_multiset(),
    ensures
        compact::without(a, gone).to_multiset() == compact::without(b, gone).to_multiset(),
{
    assert forall|id: usize| compact::without(a, gone).to_multiset().count(id) == compact::without(
        b,
        gone,
    ).to_multiset().count(id) by {
        lemma_without_count(a, gone, id);
        lemma_without_count(b, gone, id);
    }
    assert(compact::without(a, gone).to_multiset() =~= compact::without(b, gone).to_multiset());
}

/// Putting the output where the first merged table stood takes the merged tables out and adds the
/// output.
proof fn lemma_spliced(ids: Seq<usize>, gone: Seq<usize>, output: Seq<usize>)
    ensures
        ({
            let p = leveled::first_of(ids, gone);
            (ids.take(p) + output + compact::without(ids.skip(p), gone)).to_multiset()
                == compact::without(
                ids,
                gone,
            ).to_multiset().add(output.to_multiset())
        }),
{
    broadcast use vstd::multiset::group_multiset_axioms;

    let p = leveled::first_of(ids, gone);
    leveled_laws::lemma_first_of_before(ids, gone);
    let a = ids.take(p);
    let b = ids.skip(p);
    let c = compact::without(b, gone);
    let r = a + output + c;
    vstd::seq_lib::lemma_multiset_commutative(a + output, c);
    vstd::seq_lib::lemma_multiset_commutative(a, output);
    vstd::seq_lib::lemma_multiset_commutative(a, b);
    assert(a + b =~= ids);
    assert forall|id: usize| r.to_multiset().count(id)
        == compact::without(ids, gone).to_multiset().add(
        output.to_multiset(),
    ).count(id) by {
        lemma_without_count(ids, gone, id);
        lemma_without_count(b, gone, id);
        vstd::seq_lib::to_multiset_contains(a, id);
        if gone.contains(id) && a.contains(id) {
            let j = choose|j: int| 0 <= j < a.len() && a[j] == id;
            assert(ids[j] == id);
        }
    }
    assert(r.to_multiset() =~= compact::without(ids, gone).to_multiset().add(output.to_multiset()));
}

/// A flush that is replayed puts its table where the running engine puts it.
pub proof fn law_flush_replayed(layout: LayoutView, v: ReplayView, id: usize, to_l0: bool)
    requires
        same_places(layout, v.layout),
    ensures
        same_places(
            flush::flushed_layout(layout, id, to_l0),
            recovery::replay_record(v, RecordView::Flush(id), to_l0).layout,
        ),
{
    let a = flush::flushed_layout(layout, id, to_l0);
    let b = recovery::replay_record(v, RecordView::Flush(id), to_l0).layout;
    assert forall|i: int| 0 <= i < a.levels.len() implies #[trigger] same_level(
        a.levels[i],
        b.levels[i],
    ) by {
        if to_l0 {
            assert(same_level(layout.levels[i], v.layout.levels[i]));
        } else if i > 0 {
            assert(same_level(layout.levels[i - 1], v.layout.levels[i - 1]));
        }
    }
}

/// A compaction that is replayed puts its tables where the running engine puts them.
pub proof fn law_compaction_replayed(
    controller: CompactionController,
    layout: LayoutView,
    v: ReplayView,
    task: TaskView,
    output: Seq<usize>,
    tables: Map<usize, Arc<SsTable>>,
    next: LayoutView,
)
    requires
        controller.can_apply(layout, task),
        compaction::finished_layout(controller, layout, task, output, tables)
            == Ok::<LayoutView, LsmError>(
            next,
        ),
        same_places(layout, v.layout),
        controller is Tiered ==> layout == v.layout,
    ensures
        same_places(
            next,
            recovery::replay_record(
                v,
                RecordView::Compaction(task, output),
                controller.flushes_to_l0(),
            ).layout,
        ),
        controller is Tiered ==> next == recovery::replay_record(
            v,
            RecordView::Compaction(task, output),
            controller.flushes_to_l0(),
        ).layout,
{
    let unsorted = compact::layout_after(layout, task, output);
    let b = compact::layout_after(v.layout, task, output);
    if controller is Tiered {
        assert(next =~= b);
        assert forall|i: int| 0 <= i < next.levels.len() implies #[trigger] same_level(
            next.levels[i],
            b.levels[i],
        ) by {}
    } else {
        assert forall|i: int| 0 <= i < next.levels.len() implies #[trigger] same_level(
            next.levels[i],
            b.levels[i],
        ) by {
            assert(same_level(layout.levels[i], v.layout.levels[i]));
            let ids = unsorted.levels[i].1;
            compaction::law_sorted_ids(ids, tables);
            assert(next.levels[i] == (unsorted.levels[i].0, compaction::sorted_ids(ids, tables)));
            let t = if task is Simple {
                task->Simple_0
            } else {
                task->Leveled_0
            };
            let x = layout.levels[i].1;
            let y = v.layout.levels[i].1;
            lemma_without_same(x, y, t.upper);
            let takes = t.upper_level matches Some(u) && u == i + 1;
            let a = if takes {
                compact::without(x, t.upper)
            } else {
                x
            };
            let c = if takes {
                compact::without(y, t.upper)
            } else {
                y
            };
            lemma_without_same(a, c, t.lower);
            vstd::seq_lib::lemma_multiset_commutative(compact::without(a, t.lower), output);
            vstd::seq_lib::lemma_multiset_commutative(compact::without(c, t.lower), output);
            lemma_spliced(a, t.lower, output);
            lemma_spliced(c, t.lower, output);
        }
    }
}

/// Ids that stand in the strict order of the first keys of their tables, as those of a level do.
spec fn strictly_ascending(ids: Seq<usize>, tables: Map<usize, Arc<SsTable>>) -> bool {
    forall|i: int, j: int|
        0 <= i < j < ids.len() ==> key::key_lt(
            tables[#[trigger] ids[i]].first_key@,
            tables[#[trigger] ids[j]].first_key@,
        )
}

/// There is one such order.
proof fn lemma_one_order(a: Seq<usize>, b: Seq<usize>, tables: Map<usize, Arc<SsTable>>)
    requires
        strictly_ascending(a, tables),
        strictly_ascending(b, tables),
        a.len() == b.len(),
        forall|id: usize| #[trigger] a.contains(id) <==> b.contains(id),
    ensures
        a == b,
    decreases a.len(),
{
    broadcast use key::group_key_order;

    if a.len() > 0 {
        assert(a.contains(a[0]) && b.contains(b[0]));
        assert(a.contains(b[0]));
        let i = choose|i: int| 0 <= i < b.len() && b[i] == a[0];
        let j = choose|j: int| 0 <= j < a.len() && a[j] == b[0];
        if i > 0 {
            assert(key::key_lt(tables[b[0]].first_key@, tables[b[i]].first_key@));
            if j > 0 {
                assert(key::key_lt(tables[a[0]].first_key@, tables[a[j]].first_key@));
            }
        }
        assert(a[0] == b[0]);
        let s = a.drop_first();
        let t = b.drop_first();
        assert forall|x: int, y: int| 0 <= x < y < s.len() implies key::key_lt(
            tables[#[trigger] s[x]].first_key@,
            tables[#[trigger] s[y]].first_key@,
        ) by {
            assert(s[x] == a[x + 1] && s[y] == a[y + 1]);
        }
        assert forall|x: int, y: int| 0 <= x < y < t.len() implies key::key_lt(
            tables[#[trigger] t[x]].first_key@,
            tables[#[trigger] t[y]].first_key@,
        ) by {
            assert(t[x] == b[x + 1] && t[y] == b[y + 1]);
        }
        assert forall|id: usize| #[trigger] s.contains(id) <==> t.contains(id) by {
            if s.contains(id) {
                let x = choose|x: int| 0 <= x < s.len() && s[x] == id;
                assert(a[x + 1] == id && a.contains(id));
                let y = choose|y: int| 0 <= y < b.len() && b[y] == id;
                assert(key::key_lt(tables[a[0]].first_key@, tables[a[x + 1]].first_key@));
                assert(t[y - 1] == id);
            }
            if t.contains(id) {
                let y = choose|y: int| 0 <= y < t.len() && t[y] == id;
                assert(b[y + 1] == id && b.contains(id));
                assert(a.contains(id));
                let x = choose|x: int| 0 <= x < a.len() && a[x] == id;
                assert(key::key_lt(tables[b[0]].first_key@, tables[b[y + 1]].first_key@));
                assert(s[x - 1] == id);
            }
        }
        lemma_one_order(s, t, tables);
        assert(a =~= seq![a[0]] + s);
        assert(b =~= seq![b[0]] + t);
    }
}

/// Sorting the levels that were replayed gives those of the running engine: an engine that is
/// opened again has the layout that it had.
pub proof fn law_reopened_layout(
    layout: LayoutView,
    replayed: LayoutView,
    tables: Map<usize, Arc<SsTable>>,
)
    requires
        lsm_storage::layout_wf(layout, tables),
        same_places(layout, replayed),
    ensures
        compaction::sorted_levels(replayed.levels, tables) == layout.levels,
{
    assert forall|i: int| 0 <= i < layout.levels.len() implies compaction::sorted_levels(
        replayed.levels,
        tables,
    )[i] == layout.levels[i] by {
        let level = layout.levels[i];
        let ids = replayed.levels[i].1;
        assert(lsm_storage::level_wf(level, tables));
        assert(same_level(level, replayed.levels[i]));
        leveled_laws::lemma_level_spread(level, tables);
        assert forall|id: usize| #[trigger] ids.contains(id) <==> level.1.contains(id) by {
            vstd::seq_lib::to_multiset_contains(ids, id);
            vstd::seq_lib::to_multiset_contains(level.1, id);
        }
        level.1.lemma_multiset_has_no_duplicates();
        ids.lemma_multiset_has_no_duplicates_conv();
        vstd::seq_lib::to_multiset_len(ids);
        vstd::seq_lib::to_multiset_len(level.1);
        if ids.len() > 1 {
            assert(orderly::filled(ids, tables));
        }
        assert(leveled_laws::spread(ids, tables));
        let s = compaction::sorted_ids(ids, tables);
        leveled_laws::lemma_sorted_spread(level.0, ids, tables);
        compaction::law_sorted_ids(ids, tables);
        assert forall|id: usize| #[trigger] s.contains(id) <==> level.1.contains(id) by {
            vstd::seq_lib::to_multiset_contains(s, id);
            vstd::seq_lib::to_multiset_contains(ids, id);
        }
        lemma_level_strict(level, tables);
        lemma_level_strict((level.0, s), tables);
        vstd::seq_lib::to_multiset_len(ids);
        vstd::seq_lib::to_multiset_len(level.1);
        lemma_one_order(s, level.1, tables);
    }
    assert(compaction::sorted_levels(replayed.levels, tables) =~= layout.levels);
}

proof fn lemma_level_strict(level: (usize, Seq<usize>), tables: Map<usize, Arc<SsTable>>)
    requires
        lsm_storage::level_wf(level, tables),
    ensures
        strictly_ascending(level.1, tables),
{
    let ts = lsm_storage::tables_of(level.1, tables);
    assert forall|i: int, j: int| 0 <= i < j < level.1.len() implies key::key_lt(
        tables[#[trigger] level.1[i]].first_key@,
        tables[#[trigger] level.1[j]].first_key@,
    ) by {
        assert(ts[i] == tables[level.1[i]] && ts[j] == tables[level.1[j]]);
        read::lemma_run_keys(ts, i, j);
    }
}

/// A freeze that is replayed leads to the memtables of the running engine: the same one is in use,
/// and the immutable ones stand in the same order, before those that have been flushed.
pub proof fn law_freeze_replayed(
    before: LsmStorageInner,
    after: LsmStorageInner,
    v: ReplayView,
    id: usize,
    flushed: Seq<usize>,
    to_l0: bool,
)
    requires
        after.froze(before, id),
        before.state.memtable.id > 0,
        v.memtable == before.state.memtable.id,
        v.imm_memtables == recovery::memtable_ids(before.state.imm_memtables@) + flushed,
    ensures
        ({
            let next = recovery::replay_record(v, RecordView::NewMemtable(id), to_l0);
            &&& next.memtable == after.state.memtable.id
            &&& next.imm_memtables == recovery::memtable_ids(after.state.imm_memtables@) + flushed
            &&& next.layout == v.layout
            &&& id <= next.max_sst_id
            &&& v.max_sst_id <= next.max_sst_id
        }),
{
    let next = recovery::replay_record(v, RecordView::NewMemtable(id), to_l0);
    assert(next.imm_memtables =~= recovery::memtable_ids(after.state.imm_memtables@) + flushed);
}

/// A flush or a compaction that is replayed leaves the memtables alone, and its tables are among the
/// ids that were told of.
pub proof fn law_tables_replayed(v: ReplayView, id: usize, task: TaskView, output: Seq<usize>, to_l0: bool)
    ensures
        ({
            let next = recovery::replay_record(v, RecordView::Flush(id), to_l0);
            &&& next.memtable == v.memtable
            &&& next.imm_memtables == v.imm_memtables
            &&& id <= next.max_sst_id
            &&& v.max_sst_id <= next.max_sst_id
        }),
        ({
            let next = recovery::replay_record(v, RecordView::Compaction(task, output), to_l0);
            &&& next.memtable == v.memtable
            &&& next.imm_memtables == v.imm_memtables
            &&& v.max_sst_id <= next.max_sst_id
            &&& forall|i: int| 0 <= i < output.len() ==> #[trigger] output[i] <= next.max_sst_id
        }),
{
    recovery::law_largest(v.max_sst_id, output);
}

} // verus!
