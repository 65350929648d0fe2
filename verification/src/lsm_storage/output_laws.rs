//! What holds of the tables that a compaction writes.
use crate::compact::{self, CompactionController, TaskView};
use crate::compact::retention;
use crate::iterators;
use crate::key;
use crate::lsm_storage::{self, LayoutView, LsmStorageOptions};
use crate::lsm_storage::compaction;
use crate::lsm_storage::flush;
use crate::table::SsTable;
use crate::table::builder;
use std::sync::Arc;
use vstd::prelude::*;

verus! {

/// A compaction does not close a table before its finished blocks reach the target size of the
/// options: of every table but the last, the last block begins there or behind. The tables come in
/// the order of their ids, and in blocks of the block size of the options.
pub proof fn law_output_sizes(
    task: TaskView,
    tables: Map<usize, Arc<SsTable>>,
    watermark: u64,
    options: LsmStorageOptions,
    ssts: Seq<Arc<SsTable>>,
    first: usize,
    i: int,
)
    requires
        compaction::all_built(
            ssts,
            first,
            compaction::task_output(task, tables, watermark, options),
            options.block_size,
        ),
        0 <= i < ssts.len(),
    ensures
        ssts[i].metas().len() > 0,
        i < ssts.len() - 1 ==> ssts[i].metas().last().offset >= options.target_sst_size,
        first + i <= usize::MAX ==> ssts[i].id == first + i,
{
    let kept_all = retention::kept(
        iterators::merge_all(compaction::task_parts(task, tables)),
        task.to_bottom(),
        watermark,
        Seq::empty(),
        false,
    );
    let groups = compaction::task_output(task, tables, watermark, options);
    retention::law_split_tables(kept_all, options.block_size, options.target_sst_size);
    let t = ssts[i];
    let es = groups[i];
    assert(flush::built_from(&*t, lsm_storage::nth_id(first, i as nat), es, options.block_size));
    assert(es.len() > 0);
    let d = builder::draft_of(es, options.block_size);
    assert(d.offsets.len() > 0);
    assert(t.metas() == d.sealed_metas());
    assert(t.metas().last().offset == d.data.len() as usize);
    assert(d.data.len() <= t.file.content().len());
    assert(t.file.data->Some_0.len() == t.file.content().len());
    if first + i <= usize::MAX {
        lsm_storage::law_ids(first, i as nat);
    }
}

/// What a compaction writes: all versions above the watermark that it merged, and of the others of a
/// user key only the newest one; with nothing below its output, as after a full compaction, not even
/// that one if it is a deletion. It writes them in order, each once, and nothing else.
pub proof fn law_output_versions(
    task: TaskView,
    tables: Map<usize, Arc<SsTable>>,
    watermark: u64,
    options: LsmStorageOptions,
)
    requires
        forall|i: int|
            0 <= i < compaction::task_parts(task, tables).len()
                ==> key::sorted(#[trigger] compaction::task_parts(task, tables)[i]),
    ensures
        ({
            let s = iterators::merge_all(compaction::task_parts(task, tables));
            let r = retention::flatten_tables(
                compaction::task_output(task, tables, watermark, options)
            );
            let to_bottom = match task {
                TaskView::Leveled(t) => t.bottom,
                TaskView::Simple(t) => t.bottom,
                TaskView::Tiered(_, bottom) => bottom,
                TaskView::ForceFullCompaction(_, _) => true,
            };
            &&& key::sorted(r)
            &&& forall|i: int| 0 <= i < r.len() ==> s.contains(#[trigger] r[i])
            &&& forall|i: int|
                0 <= i < s.len() ==> (r.contains(#[trigger] s[i]) <==> s[i].key.ts > watermark || {
                    &&& forall|j: int|
                        0 <= j < s.len() && (#[trigger] s[j]).key.key == s[i].key.key && s[j].key.ts
                            <= watermark ==> s[j].key.ts <= s[i].key.ts
                    &&& !(to_bottom && s[i].value.len() == 0)
                })
            &&& forall|x: int, y: int|
                {
                    &&& 0 <= x < r.len()
                    &&& 0 <= y < r.len()
                    &&& (#[trigger] r[x]).key.key == (#[trigger] r[y]).key.key
                    &&& r[x].key.ts <= watermark
                    &&& r[y].key.ts <= watermark
                } ==> x == y
            &&& to_bottom ==> forall|x: int|
                0 <= x < r.len() && (#[trigger] r[x]).key.ts <= watermark ==> r[x].value.len() > 0
        }),
{
    let s = iterators::merge_all(compaction::task_parts(task, tables));
    let r = retention::kept(s, task.to_bottom(), watermark, Seq::empty(), false);
    iterators::law_merge_all(compaction::task_parts(task, tables), key::user_key(Seq::empty()));
    retention::law_compaction_keeps_exactly(s, task.to_bottom(), watermark);
    retention::law_split_tables(r, options.block_size, options.target_sst_size);
}

/// What becomes of the tables when a compaction is finished: those that it wrote are there under
/// their ids, those that it merged are gone, and all others are as they were.
pub proof fn law_tables_replaced(
    tables: Map<usize, Arc<SsTable>>,
    ssts: Seq<Arc<SsTable>>,
    gone: Seq<usize>,
    id: usize,
)
    ensures
        ({
            let after = compaction::without_tables(compaction::with_tables(tables, ssts), gone);
            &&& gone.contains(id) ==> !after.contains_key(id)
            &&& !gone.contains(id) && (forall|i: int|
                0 <= i < ssts.len() ==> (#[trigger] ssts[i]).id != id) ==> {
                &&& after.contains_key(id) <==> tables.contains_key(id)
                &&& tables.contains_key(id) ==> after[id] == tables[id]
            }
            &&& forall|i: int|
                {
                    &&& 0 <= i < ssts.len()
                    &&& (#[trigger] ssts[i]).id == id
                    &&& !gone.contains(id)
                    &&& forall|j: int| i < j < ssts.len() ==> (#[trigger] ssts[j]).id != id
                } ==> after.contains_key(id) && after[id] == ssts[i]
        }),
{
    lemma_tables_added(tables, ssts, id);
    lemma_tables_removed(compaction::with_tables(tables, ssts), gone, id);
}

proof fn lemma_tables_added(tables: Map<usize, Arc<SsTable>>, ssts: Seq<Arc<SsTable>>, id: usize)
    ensures
        (forall|i: int| 0 <= i < ssts.len() ==> (#[trigger] ssts[i]).id != id) ==> {
            let after = compaction::with_tables(tables, ssts);
            &&& after.contains_key(id) <==> tables.contains_key(id)
            &&& tables.contains_key(id) ==> after[id] == tables[id]
        },
        forall|i: int|
            {
                &&& 0 <= i < ssts.len()
                &&& (#[trigger] ssts[i]).id == id
                &&& forall|j: int| i < j < ssts.len() ==> (#[trigger] ssts[j]).id != id
            } ==> compaction::with_tables(tables, ssts).contains_key(id)
                && compaction::with_tables(tables, ssts)[id]
                == ssts[i],
    decreases ssts.len(),
{
    if ssts.len() > 0 {
        let front = ssts.drop_last();
        let n = front.len() as int;
        lemma_tables_added(tables, front, id);
        assert(forall|i: int| 0 <= i < n ==> #[trigger] front[i] == ssts[i]);
        assert(ssts[n] == ssts.last());
        if forall|i: int| 0 <= i < ssts.len() ==> (#[trigger] ssts[i]).id != id {
            assert forall|i: int| 0 <= i < front.len() implies (#[trigger] front[i]).id != id by {
                assert(front[i] == ssts[i]);
            }
        }
        assert forall|i: int|
            {
                &&& 0 <= i < ssts.len()
                &&& (#[trigger] ssts[i]).id == id
                &&& forall|j: int| i < j < ssts.len() ==> (#[trigger] ssts[j]).id != id
            } implies compaction::with_tables(tables, ssts).contains_key(id)
                && compaction::with_tables(tables, ssts)[id]
            == ssts[i] by {
            if i < n {
                assert(ssts[n].id != id);
                assert(front[i].id == id);
                assert forall|j: int| i < j < front.len()
                    implies (#[trigger] front[j]).id != id by {
                    assert(front[j] == ssts[j]);
                }
            }
        }
    }
}

proof fn lemma_tables_removed(tables: Map<usize, Arc<SsTable>>, gone: Seq<usize>, id: usize)
    ensures
        gone.contains(id) ==> !compaction::without_tables(tables, gone).contains_key(id),
        !gone.contains(id) ==> {
            &&& compaction::without_tables(tables, gone).contains_key(id)
                <==> tables.contains_key(id)
            &&& tables.contains_key(id)
                ==> compaction::without_tables(tables, gone)[id] == tables[id]
        },
    decreases gone.len(),
{
    if gone.len() > 0 {
        let front = gone.drop_last();
        lemma_tables_removed(tables, front, id);
        assert(gone =~= front + seq![gone.last()]);
        compact::lemma_concat_contains(front, seq![gone.last()], id);
        assert(seq![gone.last()][0] == gone.last());
    }
}

/// A layout is put into use after a compaction exactly if it passes: all its tables are there, and
/// in each level every table ends with a smaller user key than the next one begins with. Where the
/// levels are sorted, they hold the same tables as before; tiers stay as they are.
pub proof fn law_finished_layout(
    controller: CompactionController,
    layout: LayoutView,
    task: TaskView,
    output: Seq<usize>,
    tables: Map<usize, Arc<SsTable>>,
)
    ensures
        compaction::finished_layout(controller, layout, task, output, tables) matches Ok(next) ==> {
            let placed = compact::layout_after(layout, task, output);
            &&& next.l0 == placed.l0
            &&& next.levels.len() == placed.levels.len()
            &&& forall|i: int|
                0 <= i < next.levels.len() ==> {
                    &&& (#[trigger] next.levels[i]).0 == placed.levels[i].0
                    &&& next.levels[i].1.to_multiset() == placed.levels[i].1.to_multiset()
                }
            &&& !(controller is Leveled || controller is Simple) ==> next.levels == placed.levels
            &&& forall|i: int| 0 <= i < next.l0.len() ==> tables.contains_key(#[trigger] next.l0[i])
            &&& forall|i: int, j: int|
                0 <= i < next.levels.len() && 0 <= j < next.levels[i].1.len()
                    ==> tables.contains_key(#[trigger] next.levels[i].1[j])
            &&& forall|i: int, j: int|
                0 <= i < next.levels.len() && 0 < j < next.levels[i].1.len() ==> key::bytes_lt(
                    tables[next.levels[i].1[j - 1]].last_key@.key,
                    tables[#[trigger] next.levels[i].1[j]].first_key@.key,
                )
        },
        !(controller is Leveled || controller is Simple) && ({
            let next = compact::layout_after(layout, task, output);
            &&& forall|i: int| 0 <= i < next.l0.len() ==> tables.contains_key(#[trigger] next.l0[i])
            &&& forall|i: int, j: int|
                0 <= i < next.levels.len() && 0 <= j < next.levels[i].1.len()
                    ==> tables.contains_key(#[trigger] next.levels[i].1[j])
            &&& forall|i: int, j: int|
                0 <= i < next.levels.len() && 0 < j < next.levels[i].1.len() ==> key::bytes_lt(
                    tables[next.levels[i].1[j - 1]].last_key@.key,
                    tables[#[trigger] next.levels[i].1[j]].first_key@.key,
                )
        }) ==> compaction::finished_layout(controller, layout, task, output, tables) is Ok,
{
    let placed = compact::layout_after(layout, task, output);
    let sorted_placed = LayoutView { l0: placed.l0, levels: compaction::sorted_levels(
        placed.levels,
        tables,
    ) };
    flush::law_layout_verified(placed, tables);
    flush::law_layout_verified(sorted_placed, tables);
    assert forall|i: int| 0 <= i < placed.levels.len() implies {
        &&& (#[trigger] sorted_placed.levels[i]).0 == placed.levels[i].0
        &&& sorted_placed.levels[i].1.to_multiset() == placed.levels[i].1.to_multiset()
    } by {
        compaction::law_sorted_ids(placed.levels[i].1, tables);
    }
}

/// A table that can be read, with entries that a block can hold, can be merged.
pub proof fn law_compactable(ids: Seq<usize>, tables: Map<usize, Arc<SsTable>>)
    requires
        forall|id: usize| #[trigger]
            ids.contains(id) && tables.contains_key(id) ==> {
                &&& tables[id].readable()
                &&& forall|i: int|
                    0 <= i < tables[id].entries().len() ==> {
                        &&& 1 <= (#[trigger] tables[id].entries()[i]).key.key.len() <= 65535
                        &&& tables[id].entries()[i].value.len() <= 65535
                    }
            },
    ensures
        compaction::ids_compactable(ids, tables),
{
}

/// Those tables are merged that are there, in the order of their ids.
pub proof fn law_present(
    a: Seq<usize>,
    b: Seq<usize>,
    tables: Map<usize, Arc<SsTable>>,
    id: usize,
)
    ensures
        compaction::present(a + b, tables)
            == compaction::present(a, tables) + compaction::present(b, tables),
        tables.contains_key(id) ==> compaction::present(seq![id], tables) == seq![tables[id]],
        !tables.contains_key(id) ==> compaction::present(seq![id], tables).len() == 0,
    decreases b.len(),
{
    let one = seq![id];
    let none = Seq::<usize>::empty();
    assert(one.drop_last() =~= none);
    assert(compaction::present(none, tables) == Seq::<Arc<SsTable>>::empty());
    if tables.contains_key(id) {
        assert(Seq::<Arc<SsTable>>::empty().push(tables[id]) =~= seq![tables[id]]);
    }
    if b.len() == 0 {
        assert(a + b =~= a);
        assert(
            compaction::present(a, tables) + compaction::present(b, tables)
                =~= compaction::present(a, tables)
        );
    } else {
        law_present(a, b.drop_last(), tables, id);
        assert((a + b).drop_last() =~= a + b.drop_last());
        assert((a + b).last() == b.last());
        let x = compaction::present(a, tables);
        let y = compaction::present(b.drop_last(), tables);
        let t = tables[b.last()];
        assert((x + y).push(t) =~= x + y.push(t));
    }
}

} // verus!
