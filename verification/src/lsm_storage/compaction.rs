//! Compacting the tables of the storage engine.
use crate::compact::{
    self, CompactionController, CompactionIterator, CompactionSource, CompactionTask,
    LevelTaskView, SizeRatios, TaskView, TieredCompactionTask, chain_ids, copy_ids, drop_ids,
};
use crate::compact::retention;
use crate::compact::tiered;
use crate::error::LsmError;
use crate::iterators::{self, StorageIterator};
use crate::iterators::concat_iterator::{self, SstConcatIterator};
use crate::iterators::merge_iterator::{self, MergeIterator};
use crate::key::{self, Entry, KeySlice, StorageKey, bytes_equal, copy_bytes};
use crate::lsm_storage::{self, LayoutView, LsmStorageInner, LsmStorageOptions, TableLayout};
use crate::lsm_storage::flush::{self, verify_layout};
use crate::mem_table;
use crate::table::{SsTable, SsTableBuilder, SsTableIterator};
use std::collections::HashMap;
use std::sync::Arc;
use vstd::prelude::*;

verus! {

/// Those of the tables with these ids that are there.
pub open spec fn present(ids: Seq<usize>, tables: Map<usize, Arc<SsTable>>) -> Seq<Arc<SsTable>>
    decreases ids.len(),
{
    if ids.len() == 0 {
        Seq::empty()
    } else if tables.contains_key(ids.last()) {
        present(ids.drop_last(), tables).push(tables[ids.last()])
    } else {
        present(ids.drop_last(), tables)
    }
}

/// The entries of each table.
pub open spec fn table_parts(ts: Seq<Arc<SsTable>>) -> Seq<Seq<Entry>> {
    ts.map_values(|t: Arc<SsTable>| t.entries())
}

/// The entries of tables that stand in order, as one part; none if there is no table.
pub open spec fn run_part(ts: Seq<Arc<SsTable>>) -> Seq<Seq<Entry>> {
    if ts.len() == 0 {
        Seq::empty()
    } else {
        seq![concat_iterator::tables_from(ts, 0)]
    }
}

/// What a task merges, from the newest part to the oldest.
pub open spec fn task_parts(task: TaskView, tables: Map<usize, Arc<SsTable>>) -> Seq<Seq<Entry>> {
    match task {
        TaskView::ForceFullCompaction(l0, l1) => table_parts(present(l0 + l1, tables)),
        TaskView::Tiered(tiers, _) => table_parts(present(tiered::tier_ids(tiers), tables)),
        TaskView::Simple(t) => level_task_parts(t, tables),
        TaskView::Leveled(t) => level_task_parts(t, tables),
    }
}

/// What a task for two levels merges: the tables of L0 one by one, other levels as a whole.
pub open spec fn level_task_parts(
    t: LevelTaskView,
    tables: Map<usize, Arc<SsTable>>,
) -> Seq<Seq<Entry>> {
    (if t.upper_level is None {
        table_parts(present(t.upper, tables))
    } else {
        run_part(present(t.upper, tables))
    }) + run_part(present(t.lower, tables))
}

/// The tables that come of a task, by their entries.
pub open spec fn task_output(
    task: TaskView,
    tables: Map<usize, Arc<SsTable>>,
    watermark: u64,
    options: LsmStorageOptions,
) -> Seq<Seq<Entry>> {
    retention::split_tables(
        retention::kept(
            iterators::merge_all(task_parts(task, tables)),
            task.to_bottom(),
            watermark,
            Seq::empty(),
            false,
        ),
        Seq::empty(),
        options.block_size,
        options.target_sst_size,
    )
}

/// The tables were built from these entries, and have ids from `first` on.
pub open spec fn all_built(
    ssts: Seq<Arc<SsTable>>,
    first: usize,
    groups: Seq<Seq<Entry>>,
    block_size: usize,
) -> bool {
    &&& ssts.len() == groups.len()
    &&& forall|i: int|
        0 <= i < groups.len() ==> flush::built_from(
            #[trigger] &*ssts[i],
            lsm_storage::nth_id(first, i as nat),
            groups[i],
            block_size,
        )
}

/// Every entry can be stored in a block.
pub open spec fn all_storable(s: Seq<Entry>) -> bool {
    forall|i: int| 0 <= i < s.len() ==> mem_table::storable(#[trigger] s[i])
}

/// The table can be read, and its entries can be stored again.
pub open spec fn compactable(t: &SsTable) -> bool {
    t.readable() && all_storable(t.entries())
}

/// Those of the tables with these ids that are there can be merged.
pub open spec fn ids_compactable(ids: Seq<usize>, tables: Map<usize, Arc<SsTable>>) -> bool {
    forall|id: usize| #[trigger]
        ids.contains(id) && tables.contains_key(id) ==> compactable(&*tables[id])
}

/// Some of the tables that can be merged.
pub proof fn lemma_fewer_compactable(
    ids: Seq<usize>,
    all: Seq<usize>,
    tables: Map<usize, Arc<SsTable>>,
)
    requires
        ids_compactable(all, tables),
        forall|i: int| 0 <= i < ids.len() ==> all.contains(#[trigger] ids[i]),
    ensures
        ids_compactable(ids, tables),
{
    assert forall|id: usize| #[trigger] ids.contains(id) && tables.contains_key(
        id,
    ) implies compactable(&*tables[id]) by {
        let i = choose|i: int| 0 <= i < ids.len() && ids[i] == id;
        assert(all.contains(ids[i]));
    }
}

/// Tables can be merged if both parts of them can.
pub proof fn lemma_both_compactable(
    a: Seq<usize>,
    b: Seq<usize>,
    tables: Map<usize, Arc<SsTable>>,
)
    ensures
        ids_compactable(a + b, tables)
            <==> ids_compactable(a, tables) && ids_compactable(b, tables),
{
    let all = a + b;
    if ids_compactable(all, tables) {
        assert forall|i: int| 0 <= i < a.len() implies all.contains(#[trigger] a[i]) by {
            assert(all[i] == a[i]);
        }
        assert forall|i: int| 0 <= i < b.len() implies all.contains(#[trigger] b[i]) by {
            assert(all[a.len() + i] == b[i]);
        }
        lemma_fewer_compactable(a, all, tables);
        lemma_fewer_compactable(b, all, tables);
    }
    if ids_compactable(a, tables) && ids_compactable(b, tables) {
        assert forall|id: usize| #[trigger] all.contains(id) && tables.contains_key(
            id,
        ) implies compactable(&*tables[id]) by {
            let i = choose|i: int| 0 <= i < all.len() && all[i] == id;
            if i < a.len() {
                assert(a[i] == id && a.contains(id));
            } else {
                assert(b[i - a.len()] == id && b.contains(id));
            }
        }
    }
}

proof fn lemma_present_ok(ids: Seq<usize>, tables: Map<usize, Arc<SsTable>>)
    requires
        ids_compactable(ids, tables),
    ensures
        concat_iterator::all_readable(present(ids, tables)),
        forall|i: int|
            0 <= i < present(ids, tables).len() ==> all_storable(
                (#[trigger] present(ids, tables)[i]).entries(),
            ),
    decreases ids.len(),
{
    if ids.len() > 0 {
        let front = ids.drop_last();
        assert forall|i: int| 0 <= i < front.len() implies ids.contains(#[trigger] front[i]) by {
            assert(ids[i] == front[i]);
        }
        lemma_fewer_compactable(front, ids, tables);
        lemma_present_ok(front, tables);
        assert(ids[ids.len() - 1] == ids.last());
        assert(ids.contains(ids.last()));
    }
}

proof fn lemma_merge2_storable(a: Seq<Entry>, b: Seq<Entry>)
    requires
        all_storable(a),
        all_storable(b),
    ensures
        all_storable(iterators::merge2(a, b)),
    decreases a.len() + b.len(),
{
    if a.len() > 0 && b.len() > 0 {
        let ta = a.drop_first();
        let tb = b.drop_first();
        assert(all_storable(ta)) by {
            assert forall|i: int| 0 <= i < ta.len()
                implies mem_table::storable(#[trigger] ta[i]) by {
                assert(ta[i] == a[i + 1]);
            }
        }
        assert(all_storable(tb)) by {
            assert forall|i: int| 0 <= i < tb.len()
                implies mem_table::storable(#[trigger] tb[i]) by {
                assert(tb[i] == b[i + 1]);
            }
        }
        lemma_merge2_storable(ta, tb);
        lemma_merge2_storable(ta, b);
        lemma_merge2_storable(a, tb);
        assert(mem_table::storable(a[0]));
        assert(mem_table::storable(b[0]));
    }
}

proof fn lemma_merge_all_storable(ss: Seq<Seq<Entry>>)
    requires
        forall|i: int| 0 <= i < ss.len() ==> all_storable(#[trigger] ss[i]),
    ensures
        all_storable(iterators::merge_all(ss)),
    decreases ss.len(),
{
    if ss.len() > 0 {
        let t = ss.drop_first();
        assert forall|i: int| 0 <= i < t.len() implies all_storable(#[trigger] t[i]) by {
            assert(t[i] == ss[i + 1]);
        }
        lemma_merge_all_storable(t);
        lemma_merge2_storable(ss[0], iterators::merge_all(t));
    }
}

proof fn lemma_tables_from_storable(ts: Seq<Arc<SsTable>>, i: int)
    requires
        0 <= i <= ts.len(),
        forall|j: int| 0 <= j < ts.len() ==> all_storable((#[trigger] ts[j]).entries()),
    ensures
        all_storable(concat_iterator::tables_from(ts, i)),
    decreases ts.len() - i,
{
    if i < ts.len() {
        lemma_tables_from_storable(ts, i + 1);
        assert(all_storable(ts[i].entries()));
    }
}

/// What a task merges can be stored again.
proof fn lemma_task_storable(task: TaskView, tables: Map<usize, Arc<SsTable>>)
    requires
        ids_compactable(compact::task_ids(task), tables),
    ensures
        all_storable(iterators::merge_all(task_parts(task, tables))),
{
    let ps = task_parts(task, tables);
    match task {
        TaskView::ForceFullCompaction(l0, l1) => {
            lemma_present_ok(l0 + l1, tables);
        },
        TaskView::Tiered(tiers, _) => {
            lemma_present_ok(tiered::tier_ids(tiers), tables);
        },
        TaskView::Simple(t) => {
            lemma_level_task_storable(t, tables);
        },
        TaskView::Leveled(t) => {
            lemma_level_task_storable(t, tables);
        },
    }
    lemma_merge_all_storable(ps);
}

proof fn lemma_level_task_storable(t: LevelTaskView, tables: Map<usize, Arc<SsTable>>)
    requires
        ids_compactable(t.upper + t.lower, tables),
    ensures
        forall|i: int|
            0 <= i < level_task_parts(t, tables).len() ==> all_storable(
                #[trigger] level_task_parts(t, tables)[i],
            ),
{
    let upper = present(t.upper, tables);
    let lower = present(t.lower, tables);
    lemma_both_compactable(t.upper, t.lower, tables);
    lemma_present_ok(t.upper, tables);
    lemma_present_ok(t.lower, tables);
    lemma_tables_from_storable(upper, 0);
    lemma_tables_from_storable(lower, 0);
    let ps = level_task_parts(t, tables);
    let head = if t.upper_level is None {
        table_parts(upper)
    } else {
        run_part(upper)
    };
    assert forall|i: int| 0 <= i < ps.len() implies all_storable(#[trigger] ps[i]) by {
        if i < head.len() {
            assert(ps[i] == head[i]);
        } else {
            assert(ps[i] == run_part(lower)[i - head.len()]);
        }
    }
}

/// Those of the tables with these ids that are there.
fn collect_tables(ids: &[usize], tables: &HashMap<usize, Arc<SsTable>>) -> (r: Vec<Arc<SsTable>>)
    ensures
        r@ == present(ids@, tables@),
{
    let mut r: Vec<Arc<SsTable>> = Vec::new();
    let mut i: usize = 0;
    assert(ids@.take(0) =~= Seq::empty());
    while i < ids.len()
        invariant
            i <= ids@.len(),
            r@ == present(ids@.take(i as int), tables@),
        decreases ids@.len() - i,
    {
        broadcast use vstd::std_specs::hash::group_hash_axioms;

        assert(ids@.take(i + 1).drop_last() =~= ids@.take(i as int));
        assert(ids@.take(i + 1).last() == ids@[i as int]);
        if let Some(sst) = tables.get(&ids[i]) {
            r.push(sst.clone());
        }
        i = i + 1;
    }
    assert(ids@.take(i as int) =~= ids@);
    r
}

/// Adds each of the tables to what is merged.
fn push_tables(sources: &mut Vec<Box<CompactionSource>>, ssts: &Vec<Arc<SsTable>>) -> (r: Result<
    (),
    LsmError,
>)
    requires
        concat_iterator::all_readable(ssts@),
        forall|i: int| 0 <= i < old(sources)@.len() ==> (#[trigger] old(sources)@[i]).inv(),
    ensures
        r is Ok,
        forall|i: int| 0 <= i < final(sources)@.len() ==> (#[trigger] final(sources)@[i]).inv(),
        merge_iterator::parts(final(sources)@)
            == merge_iterator::parts(old(sources)@) + table_parts(ssts@),
{
    let mut i: usize = 0;
    let ghost start = merge_iterator::parts(sources@);
    assert(table_parts(ssts@).take(0) =~= Seq::empty());
    assert(start + table_parts(ssts@).take(0) =~= start);
    while i < ssts.len()
        invariant
            i <= ssts@.len(),
            concat_iterator::all_readable(ssts@),
            forall|j: int| 0 <= j < sources@.len() ==> (#[trigger] sources@[j]).inv(),
            merge_iterator::parts(sources@) == start + table_parts(ssts@).take(i as int),
        decreases ssts@.len() - i,
    {
        let ghost before = sources@;
        assert(ssts@[i as int].readable());
        let iter: SsTableIterator = SsTableIterator::create_and_seek_to_first(ssts[i].clone())?;
        let ghost p = iter.remaining();
        sources.push(Box::new(CompactionSource::SsTable(iter)));
        proof {
            assert(merge_iterator::parts(sources@) =~= merge_iterator::parts(before).push(p));
            assert(table_parts(ssts@).take(i + 1) =~= table_parts(ssts@).take(i as int).push(p));
            assert(start + table_parts(ssts@).take(i + 1) =~= (start + table_parts(ssts@).take(
                i as int,
            )).push(p));
        }
        i = i + 1;
    }
    assert(table_parts(ssts@).take(i as int) =~= table_parts(ssts@));
    Ok(())
}

/// Adds tables that stand in order to what is merged, as a whole.
fn push_run(sources: &mut Vec<Box<CompactionSource>>, ssts: Vec<Arc<SsTable>>) -> (r: Result<
    (),
    LsmError,
>)
    requires
        concat_iterator::all_readable(ssts@),
        forall|i: int| 0 <= i < old(sources)@.len() ==> (#[trigger] old(sources)@[i]).inv(),
    ensures
        r is Ok,
        forall|i: int| 0 <= i < final(sources)@.len() ==> (#[trigger] final(sources)@[i]).inv(),
        merge_iterator::parts(final(sources)@)
            == merge_iterator::parts(old(sources)@) + run_part(ssts@),
{
    let ghost start = merge_iterator::parts(sources@);
    let ghost before = sources@;
    let ghost ts = ssts@;
    if ssts.len() > 0 {
        let iter: SstConcatIterator = SstConcatIterator::create_and_seek_to_first(ssts)?;
        let ghost p = iter.remaining();
        sources.push(Box::new(CompactionSource::Concat(iter)));
        assert(merge_iterator::parts(sources@) =~= start.push(p));
        assert(start.push(p) =~= start + seq![p]);
    } else {
        assert(start + run_part(ts) =~= start);
    }
    Ok(())
}

/// What is to come of a compaction, and what it merged.
#[derive(Debug)]
pub struct CompactionPlan {
    pub task: CompactionTask,
    pub new_ssts: Vec<Arc<SsTable>>,
}

/// The ids of tables.
pub open spec fn sst_ids(ssts: Seq<Arc<SsTable>>) -> Seq<usize> {
    ssts.map_values(|t: Arc<SsTable>| t.id)
}

/// `tables` with new tables under their ids.
pub open spec fn with_tables(
    tables: Map<usize, Arc<SsTable>>,
    ssts: Seq<Arc<SsTable>>,
) -> Map<usize, Arc<SsTable>>
    decreases ssts.len(),
{
    if ssts.len() == 0 {
        tables
    } else {
        with_tables(tables, ssts.drop_last()).insert(ssts.last().id, ssts.last())
    }
}

/// `tables` without those with these ids.
pub open spec fn without_tables(
    tables: Map<usize, Arc<SsTable>>,
    gone: Seq<usize>,
) -> Map<usize, Arc<SsTable>>
    decreases gone.len(),
{
    if gone.len() == 0 {
        tables
    } else {
        without_tables(tables, gone.drop_last()).remove(gone.last())
    }
}

/// The ids of tables.
fn collect_ids(ssts: &Vec<Arc<SsTable>>) -> (r: Vec<usize>)
    ensures
        r@ == sst_ids(ssts@),
{
    let mut r: Vec<usize> = Vec::new();
    let mut i: usize = 0;
    while i < ssts.len()
        invariant
            i <= ssts@.len(),
            r@.len() == i,
            forall|j: int| 0 <= j < i ==> #[trigger] r@[j] == ssts@[j].id,
        decreases ssts@.len() - i,
    {
        r.push(ssts[i].sst_id());
        i = i + 1;
    }
    assert(r@ =~= sst_ids(ssts@));
    r
}

/// Puts new tables under their ids and takes those with the ids `gone` out.
fn replace_tables(
    tables: &mut HashMap<usize, Arc<SsTable>>,
    ssts: &Vec<Arc<SsTable>>,
    gone: &[usize],
)
    ensures
        final(tables)@ == without_tables(with_tables(old(tables)@, ssts@), gone@),
{
    let mut i: usize = 0;
    assert(ssts@.take(0) =~= Seq::empty());
    while i < ssts.len()
        invariant
            i <= ssts@.len(),
            tables@ == with_tables(old(tables)@, ssts@.take(i as int)),
        decreases ssts@.len() - i,
    {
        broadcast use vstd::std_specs::hash::group_hash_axioms;

        assert(ssts@.take(i + 1).drop_last() =~= ssts@.take(i as int));
        assert(ssts@.take(i + 1).last() == ssts@[i as int]);
        tables.insert(ssts[i].sst_id(), ssts[i].clone());
        i = i + 1;
    }
    assert(ssts@.take(i as int) =~= ssts@);
    let ghost filled = tables@;
    let mut j: usize = 0;
    assert(gone@.take(0) =~= Seq::empty());
    while j < gone.len()
        invariant
            j <= gone@.len(),
            tables@ == without_tables(filled, gone@.take(j as int)),
        decreases gone@.len() - j,
    {
        broadcast use vstd::std_specs::hash::group_hash_axioms;

        assert(gone@.take(j + 1).drop_last() =~= gone@.take(j as int));
        assert(gone@.take(j + 1).last() == gone@[j as int]);
        tables.remove(&gone[j]);
        j = j + 1;
    }
    assert(gone@.take(j as int) =~= gone@);
}

/// Where `id` goes among ids that are sorted by the first keys of their tables: behind those that
/// do not begin after it.
pub open spec fn place_of(ids: Seq<usize>, id: usize, tables: Map<usize, Arc<SsTable>>) -> int
    decreases ids.len(),
{
    if ids.len() == 0 || key::key_lt(tables[id].first_key@, tables[ids[0]].first_key@) {
        0
    } else {
        1 + place_of(ids.drop_first(), id, tables)
    }
}

/// `ids` sorted by the first keys of their tables; ids whose tables begin with the same key keep
/// their order.
pub open spec fn sorted_ids(ids: Seq<usize>, tables: Map<usize, Arc<SsTable>>) -> Seq<usize>
    decreases ids.len(),
{
    if ids.len() == 0 {
        ids
    } else {
        let front = sorted_ids(ids.drop_last(), tables);
        front.insert(place_of(front, ids.last(), tables), ids.last())
    }
}

/// The first keys of the tables do not descend.
pub open spec fn ascending(ids: Seq<usize>, tables: Map<usize, Arc<SsTable>>) -> bool {
    forall|i: int, j: int|
        0 <= i < j < ids.len() ==> key::key_le(
            tables[#[trigger] ids[i]].first_key@,
            tables[#[trigger] ids[j]].first_key@,
        )
}

proof fn lemma_place(ids: Seq<usize>, id: usize, tables: Map<usize, Arc<SsTable>>)
    requires
        ascending(ids, tables),
    ensures
        0 <= place_of(ids, id, tables) <= ids.len(),
        forall|i: int|
            0 <= i < place_of(ids, id, tables) ==> key::key_le(
                tables[#[trigger] ids[i]].first_key@,
                tables[id].first_key@,
            ),
        forall|i: int|
            place_of(ids, id, tables) <= i < ids.len() ==> key::key_lt(
                tables[id].first_key@,
                tables[#[trigger] ids[i]].first_key@,
            ),
    decreases ids.len(),
{
    broadcast use key::group_key_order;

    if ids.len() > 0 {
        if key::key_lt(tables[id].first_key@, tables[ids[0]].first_key@) {
            assert forall|i: int| 0 <= i < ids.len() implies key::key_lt(
                tables[id].first_key@,
                tables[#[trigger] ids[i]].first_key@,
            ) by {
                if i > 0 {
                    assert(key::key_le(tables[ids[0]].first_key@, tables[ids[i]].first_key@));
                }
            }
        } else {
            let t = ids.drop_first();
            assert(ascending(t, tables)) by {
                assert forall|i: int, j: int| 0 <= i < j < t.len() implies key::key_le(
                    tables[#[trigger] t[i]].first_key@,
                    tables[#[trigger] t[j]].first_key@,
                ) by {
                    assert(t[i] == ids[i + 1]);
                    assert(t[j] == ids[j + 1]);
                }
            }
            lemma_place(t, id, tables);
            let p = place_of(ids, id, tables);
            assert forall|i: int| 0 <= i < p implies key::key_le(
                tables[#[trigger] ids[i]].first_key@,
                tables[id].first_key@,
            ) by {
                if i > 0 {
                    assert(ids[i] == t[i - 1]);
                }
            }
            assert forall|i: int| p <= i < ids.len() implies key::key_lt(
                tables[id].first_key@,
                tables[#[trigger] ids[i]].first_key@,
            ) by {
                assert(ids[i] == t[i - 1]);
            }
        }
    }
}

/// Sorting a level orders it by first keys, and neither adds nor loses a table.
pub proof fn law_sorted_ids(ids: Seq<usize>, tables: Map<usize, Arc<SsTable>>)
    ensures
        ascending(sorted_ids(ids, tables), tables),
        sorted_ids(ids, tables).to_multiset() == ids.to_multiset(),
        sorted_ids(ids, tables).len() == ids.len(),
    decreases ids.len(),
{
    broadcast use key::group_key_order;

    if ids.len() > 0 {
        let front = sorted_ids(ids.drop_last(), tables);
        let id = ids.last();
        law_sorted_ids(ids.drop_last(), tables);
        lemma_place(front, id, tables);
        let p = place_of(front, id, tables);
        let all = front.insert(p, id);
        assert forall|i: int, j: int| 0 <= i < j < all.len() implies key::key_le(
            tables[#[trigger] all[i]].first_key@,
            tables[#[trigger] all[j]].first_key@,
        ) by {
            let fi = if i < p {
                i
            } else {
                i - 1
            };
            let fj = if j < p {
                j
            } else {
                j - 1
            };
            if i != p {
                assert(all[i] == front[fi]);
            }
            if j != p {
                assert(all[j] == front[fj]);
            }
        }
        vstd::seq_lib::to_multiset_insert(front, p, id);
        vstd::seq_lib::to_multiset_build(ids.drop_last(), id);
        assert(ids.drop_last().push(id) =~= ids);
    }
}

/// Sorts a level by the first keys of its tables.
fn sort_level(ids: &[usize], tables: &HashMap<usize, Arc<SsTable>>) -> (r: Vec<usize>)
    requires
        forall|i: int| 0 <= i < ids@.len() ==> tables@.contains_key(#[trigger] ids@[i]),
    ensures
        r@ == sorted_ids(ids@, tables@),
{
    let mut r: Vec<usize> = Vec::new();
    let mut i: usize = 0;
    assert(ids@.take(0) =~= Seq::empty());
    while i < ids.len()
        invariant
            i <= ids@.len(),
            forall|j: int| 0 <= j < ids@.len() ==> tables@.contains_key(#[trigger] ids@[j]),
            r@ == sorted_ids(ids@.take(i as int), tables@),
            forall|j: int| 0 <= j < r@.len() ==> tables@.contains_key(#[trigger] r@[j]),
        decreases ids@.len() - i,
    {
        broadcast use vstd::std_specs::hash::group_hash_axioms;

        let id: usize = ids[i];
        let ghost before = r@;
        let sst: &Arc<SsTable> = tables.get(&id).unwrap();
        let key: KeySlice<'_> = sst.first_key().as_key_slice();
        let mut p: usize = 0;
        let mut placed: bool = false;
        assert(r@.skip(0) =~= r@);
        while p < r.len() && !placed
            invariant
                p <= r@.len(),
                r@ == before,
                forall|j: int| 0 <= j < r@.len() ==> tables@.contains_key(#[trigger] r@[j]),
                tables@.contains_key(id),
                key@ == tables@[id].first_key@,
                place_of(before, id, tables@) == p + place_of(before.skip(p as int), id, tables@),
                placed ==> place_of(before, id, tables@) == p,
            decreases
                r@.len() - p + if placed {
                    0int
                } else {
                    1int
                },
        {
            broadcast use vstd::std_specs::hash::group_hash_axioms;

            let ghost rest = before.skip(p as int);
            assert(rest[0] == r@[p as int]);
            assert(rest.drop_first() =~= before.skip(p + 1));
            let other: &Arc<SsTable> = tables.get(&r[p]).unwrap();
            if key.less(&other.first_key().as_key_slice()) {
                placed = true;
            } else {
                p = p + 1;
            }
        }
        proof {
            if !placed {
                assert(before.skip(p as int) =~= Seq::empty());
            }
            assert(ids@.take(i + 1).drop_last() =~= ids@.take(i as int));
            assert(ids@.take(i + 1).last() == id);
        }
        r.insert(p, id);
        proof {
            assert(r@ =~= before.insert(p as int, id));
            assert forall|j: int| 0 <= j < r@.len()
                implies tables@.contains_key(#[trigger] r@[j]) by {
                if j < p {
                    assert(r@[j] == before[j]);
                } else if j > p {
                    assert(r@[j] == before[j - 1]);
                }
            }
        }
        i = i + 1;
    }
    assert(ids@.take(i as int) =~= ids@);
    r
}

/// Every level is sorted by the first keys of its tables.
pub open spec fn sorted_levels(
    levels: Seq<(usize, Seq<usize>)>,
    tables: Map<usize, Arc<SsTable>>,
) -> Seq<(usize, Seq<usize>)> {
    levels.map_values(|l: (usize, Seq<usize>)| (l.0, sorted_ids(l.1, tables)))
}

/// All tables of the levels are there.
pub open spec fn levels_present(
    levels: Seq<(usize, Seq<usize>)>,
    tables: Map<usize, Arc<SsTable>>,
) -> bool {
    forall|i: int, j: int|
        0 <= i < levels.len() && 0 <= j < levels[i].1.len() ==> tables.contains_key(
            #[trigger] levels[i].1[j],
        )
}

/// Whether all tables of a level are there.
fn level_is_present(ids: &[usize], tables: &HashMap<usize, Arc<SsTable>>) -> (r: bool)
    ensures
        r == forall|j: int| 0 <= j < ids@.len() ==> tables@.contains_key(#[trigger] ids@[j]),
{
    let mut j: usize = 0;
    while j < ids.len()
        invariant
            j <= ids@.len(),
            forall|x: int| 0 <= x < j ==> tables@.contains_key(#[trigger] ids@[x]),
        decreases ids@.len() - j,
    {
        broadcast use vstd::std_specs::hash::group_hash_axioms;

        if !tables.contains_key(&ids[j]) {
            assert(!tables@.contains_key(ids@[j as int]));
            return false;
        }
        j = j + 1;
    }
    true
}

/// Sorts every level by the first keys of its tables. Fails if one of the tables is missing.
pub fn sort_levels(
    levels: &Vec<(usize, Vec<usize>)>,
    tables: &HashMap<usize, Arc<SsTable>>,
) -> (r: Result<Vec<(usize, Vec<usize>)>, LsmError>)
    ensures
        r is Ok <==> levels_present(lsm_storage::levels_view(levels@), tables@),
        r is Err ==> r->Err_0 == LsmError::MissingTable,
        r matches Ok(sorted) ==> lsm_storage::levels_view(sorted@) == sorted_levels(
            lsm_storage::levels_view(levels@),
            tables@,
        ),
{
    let ghost lv = lsm_storage::levels_view(levels@);
    let mut r: Vec<(usize, Vec<usize>)> = Vec::new();
    let mut i: usize = 0;
    while i < levels.len()
        invariant
            i <= levels@.len(),
            lv == lsm_storage::levels_view(levels@),
            r@.len() == i,
            forall|x: int, j: int|
                0 <= x < i && 0 <= j < lv[x].1.len() ==> tables@.contains_key(
                    #[trigger] lv[x].1[j],
                ),
            forall|x: int|
                0 <= x < i ==> #[trigger] lsm_storage::levels_view(r@)[x] == (
                    lv[x].0,
                    sorted_ids(lv[x].1, tables@),
                ),
        decreases levels@.len() - i,
    {
        let ghost before = r@;
        let ids: &[usize] = levels[i].1.as_slice();
        assert(lv[i as int] == (levels@[i as int].0, ids@));
        if !level_is_present(ids, tables) {
            proof {
                let j = choose|j: int|
                    0 <= j < ids@.len() && !tables@.contains_key(#[trigger] ids@[j]);
                assert(!tables@.contains_key(lv[i as int].1[j]));
            }
            return Err(LsmError::MissingTable);
        }
        let sorted: Vec<usize> = sort_level(ids, tables);
        r.push((levels[i].0, sorted));
        assert forall|x: int| 0 <= x < i
            implies #[trigger] lsm_storage::levels_view(r@)[x] == lsm_storage::levels_view(
            before,
        )[x] by {}
        assert forall|x: int, j: int|
            0 <= x < i + 1 && 0 <= j < lv[x].1.len() implies tables@.contains_key(
            #[trigger] lv[x].1[j],
        ) by {
            if x == i {
                assert(tables@.contains_key(ids@[j]));
            }
        }
        i = i + 1;
    }
    assert(lsm_storage::levels_view(r@) =~= sorted_levels(lv, tables@));
    Ok(r)
}

/// Which tables stand where once a task has been applied, and whether that layout may be put into
/// use.
pub open spec fn finished_layout(
    controller: CompactionController,
    layout: LayoutView,
    task: TaskView,
    output: Seq<usize>,
    tables: Map<usize, Arc<SsTable>>,
) -> Result<LayoutView, LsmError> {
    let next = compact::layout_after(layout, task, output);
    let sorts = controller is Leveled || controller is Simple;
    if sorts && !levels_present(next.levels, tables) {
        Err(LsmError::MissingTable)
    } else {
        let placed = LayoutView {
            l0: next.l0,
            levels: if sorts {
                sorted_levels(next.levels, tables)
            } else {
                next.levels
            },
        };
        match flush::layout_violation(placed, tables) {
            Some(e) => Err(e),
            None => Ok(placed),
        }
    }
}

impl LsmStorageInner {
    /// Merges the tables of a task. Tells the tables that came of it.
    pub fn compact(&mut self, task: &CompactionTask, watermark: u64) -> (r: Result<
        Vec<Arc<SsTable>>,
        LsmError,
    >)
        requires
            ids_compactable(compact::task_ids(task@), old(self).state.sstables@),
        ensures
            r is Ok,
            ({
                let groups = task_output(
                    task@,
                    old(self).state.sstables@,
                    watermark,
                    old(self).options,
                );
                &&& all_built(
                    r->Ok_0@,
                    old(self).next_sst_id,
                    groups,
                    old(self).options.block_size,
                )
                &&& final(self).next_sst_id
                    == lsm_storage::nth_id(old(self).next_sst_id, groups.len())
            }),
            final(self).state == old(self).state,
            final(self).same_setup(*old(self)),
    {
        let ghost tables = self.state.sstables@;
        let mut sources: Vec<Box<CompactionSource>> = Vec::new();
        proof {
            lemma_task_storable(task@, tables);
            assert(merge_iterator::parts(sources@) =~= Seq::empty());
        }
        match task {
            CompactionTask::ForceFullCompaction { l0_sstables, l1_sstables } => {
                let all_ids: Vec<usize> = chain_ids(
                    l0_sstables.as_slice(),
                    l1_sstables.as_slice(),
                );
                proof {
                    lemma_present_ok(all_ids@, tables);
                }
                let ssts: Vec<Arc<SsTable>> = collect_tables(
                    all_ids.as_slice(),
                    &self.state.sstables,
                );
                push_tables(&mut sources, &ssts)?;
            },
            CompactionTask::Simple(t) => {
                proof {
                    lemma_both_compactable(
                        t.upper_level_sst_ids@,
                        t.lower_level_sst_ids@,
                        tables,
                    );
                }
                self.push_level_task(
                    &mut sources,
                    t.upper_level.is_none(),
                    t.upper_level_sst_ids.as_slice(),
                    t.lower_level_sst_ids.as_slice(),
                )?;
            },
            CompactionTask::Leveled(t) => {
                proof {
                    lemma_both_compactable(
                        t.upper_level_sst_ids@,
                        t.lower_level_sst_ids@,
                        tables,
                    );
                }
                self.push_level_task(
                    &mut sources,
                    t.upper_level.is_none(),
                    t.upper_level_sst_ids.as_slice(),
                    t.lower_level_sst_ids.as_slice(),
                )?;
            },
            CompactionTask::Tiered(t) => {
                self.push_tiers(&mut sources, t)?;
            },
        }
        assert(merge_iterator::parts(sources@) =~= task_parts(task@, tables));
        let iter = CompactionIterator::Merge(MergeIterator::create(sources));
        self.compact_generate_sst_from_iter(iter, task.compact_to_bottom_level(), watermark)
    }

    /// Adds what a task for two levels merges.
    fn push_level_task(
        &self,
        sources: &mut Vec<Box<CompactionSource>>,
        from_l0: bool,
        upper: &[usize],
        lower: &[usize],
    ) -> (r: Result<(), LsmError>)
        requires
            ids_compactable(upper@, self.state.sstables@),
            ids_compactable(lower@, self.state.sstables@),
            forall|i: int| 0 <= i < old(sources)@.len() ==> (#[trigger] old(sources)@[i]).inv(),
        ensures
            r is Ok,
            forall|i: int| 0 <= i < final(sources)@.len() ==> (#[trigger] final(sources)@[i]).inv(),
            merge_iterator::parts(final(sources)@)
                == merge_iterator::parts(old(sources)@) + ((if from_l0 {
                table_parts(present(upper@, self.state.sstables@))
            } else {
                run_part(present(upper@, self.state.sstables@))
            }) + run_part(present(lower@, self.state.sstables@))),
    {
        let ghost start = merge_iterator::parts(sources@);
        proof {
            lemma_present_ok(upper@, self.state.sstables@);
            lemma_present_ok(lower@, self.state.sstables@);
        }
        let upper_ssts: Vec<Arc<SsTable>> = collect_tables(upper, &self.state.sstables);
        if from_l0 {
            push_tables(sources, &upper_ssts)?;
        } else {
            push_run(sources, upper_ssts)?;
        }
        let ghost mid = merge_iterator::parts(sources@);
        let lower_ssts: Vec<Arc<SsTable>> = collect_tables(lower, &self.state.sstables);
        push_run(sources, lower_ssts)?;
        assert(merge_iterator::parts(sources@) =~= start + ((if from_l0 {
            table_parts(present(upper@, self.state.sstables@))
        } else {
            run_part(present(upper@, self.state.sstables@))
        }) + run_part(present(lower@, self.state.sstables@))));
        Ok(())
    }

    /// Adds the tables of all tiers of a task.
    fn push_tiers(
        &self,
        sources: &mut Vec<Box<CompactionSource>>,
        task: &TieredCompactionTask,
    ) -> (r: Result<(), LsmError>)
        requires
            ids_compactable(tiered::tier_ids(task.tiers_seq()), self.state.sstables@),
            forall|i: int| 0 <= i < old(sources)@.len() ==> (#[trigger] old(sources)@[i]).inv(),
        ensures
            r is Ok,
            forall|i: int| 0 <= i < final(sources)@.len() ==> (#[trigger] final(sources)@[i]).inv(),
            merge_iterator::parts(final(sources)@)
                == merge_iterator::parts(old(sources)@) + table_parts(
                present(tiered::tier_ids(task.tiers_seq()), self.state.sstables@),
            ),
    {
        let ghost tiers = task.tiers_seq();
        let mut ids: Vec<usize> = Vec::new();
        let mut i: usize = 0;
        assert(tiers.take(0) =~= Seq::empty());
        while i < task.tiers.len()
            invariant
                i <= task.tiers@.len(),
                tiers == task.tiers_seq(),
                ids@ == tiered::tier_ids(tiers.take(i as int)),
            decreases task.tiers@.len() - i,
        {
            assert(tiers.take(i + 1).drop_last() =~= tiers.take(i as int));
            assert(tiers.take(i + 1).last() == tiers[i as int]);
            assert(tiers[i as int].1 == task.tiers@[i as int].1@);
            ids = chain_ids(ids.as_slice(), task.tiers[i].1.as_slice());
            i = i + 1;
        }
        assert(tiers.take(i as int) =~= tiers);
        proof {
            lemma_present_ok(ids@, self.state.sstables@);
        }
        let ssts: Vec<Arc<SsTable>> = collect_tables(ids.as_slice(), &self.state.sstables);
        push_tables(sources, &ssts)
    }

    /// Builds a table and adds it to those that were built before.
    fn close_table(
        &mut self,
        builder: SsTableBuilder,
        new_ssts: &mut Vec<Arc<SsTable>>,
        Ghost(first): Ghost<usize>,
        Ghost(groups): Ghost<Seq<Seq<Entry>>>,
    )
        requires
            builder.inv(),
            all_built(old(new_ssts)@, first, groups, builder.block_size),
            old(self).next_sst_id == lsm_storage::nth_id(first, groups.len()),
        ensures
            all_built(
                final(new_ssts)@,
                first,
                groups.push(builder.entries()),
                builder.block_size,
            ),
            final(self).next_sst_id == lsm_storage::nth_id(first, groups.len() + 1),
            final(self).state == old(self).state,
            final(self).same_setup(*old(self)),
    {
        let ghost before = new_ssts@;
        let ghost es = builder.entries();
        let ghost block_size = builder.block_size;
        let sst_id: usize = self.next_sst_id();
        let sst: SsTable = builder.build(sst_id);
        new_ssts.push(Arc::new(sst));
        proof {
            assert(new_ssts@.drop_last() =~= before);
            lemma_all_built_push(before, first, groups, block_size, new_ssts@, es);
        }
    }

    /// Builds tables from what an iterator yields. Versions that no reader at or above the
    /// watermark can see are left out.
    #[verifier::rlimit(60)]
    pub fn compact_generate_sst_from_iter(
        &mut self,
        iter: CompactionIterator,
        compact_to_bottom_level: bool,
        watermark: u64,
    ) -> (r: Result<Vec<Arc<SsTable>>, LsmError>)
        requires
            iter.inv(),
            all_storable(iter.remaining()),
        ensures
            iter.steady() ==> r is Ok,
            r matches Ok(ssts) ==> {
                let groups = retention::split_tables(
                    retention::kept(
                        iter.remaining(),
                        compact_to_bottom_level,
                        watermark,
                        Seq::empty(),
                        false,
                    ),
                    Seq::empty(),
                    old(self).options.block_size,
                    old(self).options.target_sst_size,
                );
                &&& all_built(
                    ssts@,
                    old(self).next_sst_id,
                    groups,
                    old(self).options.block_size,
                )
                &&& final(self).next_sst_id
                    == lsm_storage::nth_id(old(self).next_sst_id, groups.len())
            },
            final(self).state == old(self).state,
            final(self).same_setup(*old(self)),
    {
        let ghost steady = iter.steady();
        let ghost first = self.next_sst_id;
        let block_size: usize = self.options.block_size;
        let target: usize = self.options.target_sst_size;
        let ghost total = retention::split_tables(
            retention::kept(
                iter.remaining(),
                compact_to_bottom_level,
                watermark,
                Seq::empty(),
                false,
            ),
            Seq::empty(),
            block_size,
            target,
        );
        let ghost mut groups: Seq<Seq<Entry>> = Seq::empty();
        let mut input = iter;
        let mut builder = SsTableBuilder::new(block_size);
        let mut new_ssts: Vec<Arc<SsTable>> = Vec::new();
        let mut last_user_key: Vec<u8> = Vec::new();
        let mut last_key_in_builder: Vec<u8> = Vec::new();
        let mut has_version_at_or_below_watermark: bool = false;
        proof {
            assert(last_user_key@ =~= Seq::empty());
            assert(groups + total =~= total);
        }
        while input.is_valid()
            invariant
                input.inv(),
                steady ==> input.steady(),
                all_storable(input.remaining()),
                block_size == self.options.block_size,
                target == self.options.target_sst_size,
                self.state == old(self).state,
                self.same_setup(*old(self)),
                builder.inv(),
                builder.block_size == block_size,
                all_built(new_ssts@, first, groups, block_size),
                self.next_sst_id == lsm_storage::nth_id(first, groups.len()),
                builder.entries().len() > 0 ==> {
                    &&& last_key_in_builder@ == builder.entries().last().key.key
                    &&& last_key_in_builder@.len() > 0
                },
                builder.entries().len() == 0 ==> last_key_in_builder@.len() == 0,
                total == groups + retention::split_tables(
                    retention::kept(
                        input.remaining(),
                        compact_to_bottom_level,
                        watermark,
                        last_user_key@,
                        has_version_at_or_below_watermark,
                    ),
                    builder.entries(),
                    block_size,
                    target,
                ),
                steady == iter.steady(),
                first == old(self).next_sst_id,
            decreases input.remaining().len(),
        {
            let ghost s = input.remaining();
            let ghost e = s[0];
            let ghost rest = s.drop_first();
            let ghost before_last = last_user_key@;
            let ghost before_seen = has_version_at_or_below_watermark;
            let ghost todo = retention::kept(
                s,
                compact_to_bottom_level,
                watermark,
                before_last,
                before_seen,
            );
            assert(mem_table::storable(e));
            let key: KeySlice<'_> = input.key();
            let value: &[u8] = input.value();
            assert(key@ == e.key);
            let ts: u64 = key.ts();
            let current_user_key: &[u8] = key.key_ref();
            if !bytes_equal(current_user_key, last_user_key.as_slice()) {
                has_version_at_or_below_watermark = false;
                last_user_key = copy_bytes(current_user_key);
            }
            let should_keep: bool = if ts > watermark {
                true
            } else if has_version_at_or_below_watermark {
                false
            } else {
                has_version_at_or_below_watermark = true;
                !(compact_to_bottom_level && value.len() == 0)
            };
            let ghost later = retention::kept(
                rest,
                compact_to_bottom_level,
                watermark,
                last_user_key@,
                has_version_at_or_below_watermark,
            );
            assert(todo == if should_keep {
                seq![e] + later
            } else {
                later
            });
            if should_keep {
                assert(todo.drop_first() =~= later);
                assert(todo[0] == e);
                if builder.estimated_size() >= target && last_key_in_builder.len() > 0
                    && !bytes_equal(current_user_key, last_key_in_builder.as_slice()) {
                    let ghost cur = builder.entries();
                    let ghost before_groups = groups;
                    assert(retention::closes(cur, e, block_size, target));
                    let mut full = SsTableBuilder::new(block_size);
                    std::mem::swap(&mut full, &mut builder);
                    self.close_table(full, &mut new_ssts, Ghost(first), Ghost(groups));
                    last_key_in_builder.clear();
                    proof {
                        groups = groups.push(cur);
                        let tail = retention::split_tables(later, seq![e], block_size, target);
                        assert(groups + tail =~= before_groups + (seq![cur] + tail));
                        assert(builder.entries().push(e) =~= seq![e]);
                    }
                } else {
                    assert(!retention::closes(builder.entries(), e, block_size, target));
                }
                let ghost before = builder.entries();
                builder.add(key, value);
                last_key_in_builder = copy_bytes(current_user_key);
                assert(builder.entries() == before.push(e));
            }
            input.next()?;
            assert(input.remaining() == rest);
            assert forall|i: int| 0 <= i < rest.len()
                implies mem_table::storable(#[trigger] rest[i]) by {
                assert(rest[i] == s[i + 1]);
            }
        }
        let ghost cur = builder.entries();
        if !builder.is_empty() {
            let ghost before_groups = groups;
            self.close_table(builder, &mut new_ssts, Ghost(first), Ghost(groups));
            proof {
                groups = groups.push(cur);
                assert(before_groups + seq![cur] =~= groups);
            }
        } else {
            assert(groups + Seq::<Seq<Entry>>::empty() =~= groups);
        }
        assert(total == groups);
        Ok(new_ssts)
    }

    /// Merges all tables of L0 and of the first level. The result is put into use by
    /// `finish_full_compaction`.
    pub fn force_full_compaction(&mut self, watermark: u64) -> (r: Result<
        CompactionPlan,
        LsmError,
    >)
        requires
            old(self).state.levels@.len() > 0,
            ids_compactable(
                old(self).state.l0_sstables@ + old(self).state.levels_seq()[0].1,
                old(self).state.sstables@,
            ),
        ensures
            r is Ok,
            r->Ok_0.task@ == TaskView::ForceFullCompaction(
                old(self).state.l0_sstables@,
                old(self).state.levels_seq()[0].1,
            ),
            ({
                let groups = task_output(
                    r->Ok_0.task@,
                    old(self).state.sstables@,
                    watermark,
                    old(self).options,
                );
                &&& all_built(
                    r->Ok_0.new_ssts@,
                    old(self).next_sst_id,
                    groups,
                    old(self).options.block_size,
                )
                &&& final(self).next_sst_id
                    == lsm_storage::nth_id(old(self).next_sst_id, groups.len())
            }),
            final(self).state == old(self).state,
            final(self).same_setup(*old(self)),
    {
        assert(self.state.levels_seq()[0].1 == self.state.levels@[0].1@);
        let task = CompactionTask::ForceFullCompaction {
            l0_sstables: copy_ids(self.state.l0_sstables.as_slice()),
            l1_sstables: copy_ids(self.state.levels[0].1.as_slice()),
        };
        let new_ssts: Vec<Arc<SsTable>> = self.compact(&task, watermark)?;
        Ok(CompactionPlan { task, new_ssts })
    }

    /// Puts the result of a full compaction into use: L0 without the tables that were merged, and
    /// one level with those that came of it. Tells the ids that are no longer in use.
    pub fn finish_full_compaction(&mut self, plan: CompactionPlan) -> (old_ssts: Vec<usize>)
        requires
            plan.task is ForceFullCompaction,
        ensures
            old_ssts@ == compact::task_ids(plan.task@),
            final(self).state.layout() == compact::layout_after(
                old(self).state.layout(),
                plan.task@,
                sst_ids(plan.new_ssts@),
            ),
            final(self).state.sstables@ == without_tables(
                with_tables(old(self).state.sstables@, plan.new_ssts@),
                compact::task_ids(plan.task@),
            ),
            final(self).state.memtable == old(self).state.memtable,
            final(self).state.imm_memtables == old(self).state.imm_memtables,
            final(self).same_setup(*old(self)),
            final(self).next_sst_id == old(self).next_sst_id,
    {
        let mut old_ssts: Vec<usize> = Vec::new();
        if let CompactionTask::ForceFullCompaction { l0_sstables, l1_sstables } = &plan.task {
            old_ssts = chain_ids(l0_sstables.as_slice(), l1_sstables.as_slice());
            self.state.l0_sstables =
            drop_ids(self.state.l0_sstables.as_slice(), l0_sstables.as_slice());
        }
        let new_sst_ids: Vec<usize> = collect_ids(&plan.new_ssts);
        replace_tables(&mut self.state.sstables, &plan.new_ssts, old_ssts.as_slice());
        let mut levels: Vec<(usize, Vec<usize>)> = Vec::new();
        levels.push((1, new_sst_ids));
        assert(lsm_storage::levels_view(levels@) =~= seq![(1usize, sst_ids(plan.new_ssts@))]);
        self.state.levels = levels;
        old_ssts
    }

    /// Starts a compaction if the controller asks for one and none is under way. The result is put
    /// into use by `finish_compaction`.
    pub fn trigger_compaction(&mut self, ratios: &SizeRatios, watermark: u64) -> (r: Result<
        Option<CompactionPlan>,
        LsmError,
    >)
        requires
            !old(self).is_in_compact ==> old(self).compaction_controller.can_generate(
                &old(self).state,
                ratios,
            ),
            forall|t: TaskView|
                !old(self).is_in_compact && #[trigger] old(self).compaction_controller.generates(
                    &old(self).state,
                    ratios,
                    Some(t),
                ) ==> ids_compactable(compact::task_ids(t), old(self).state.sstables@),
        ensures
            r is Ok,
            old(self).is_in_compact ==> r->Ok_0 is None && *final(self) == *old(self),
            !old(self).is_in_compact ==> {
                &&& old(self).compaction_controller.generates(
                    &old(self).state,
                    ratios,
                    match r->Ok_0 {
                        Some(plan) => Some(plan.task@),
                        None => None,
                    },
                )
                &&& final(self).is_in_compact == r->Ok_0 is Some
                &&& r->Ok_0 is None ==> final(self).next_sst_id == old(self).next_sst_id
                &&& r->Ok_0 matches Some(plan) ==> {
                    let groups = task_output(
                        plan.task@,
                        old(self).state.sstables@,
                        watermark,
                        old(self).options,
                    );
                    &&& all_built(
                        plan.new_ssts@,
                        old(self).next_sst_id,
                        groups,
                        old(self).options.block_size,
                    )
                    &&& final(self).next_sst_id
                        == lsm_storage::nth_id(old(self).next_sst_id, groups.len())
                }
            },
            final(self).state == old(self).state,
            final(self).options == old(self).options,
            final(self).compaction_controller == old(self).compaction_controller,
            final(self).compaction_filters == old(self).compaction_filters,
    {
        if self.is_in_compact {
            return Ok(None);
        }
        self.is_in_compact = true;
        match self.compaction_controller.generate_compaction_task(&self.state, ratios) {
            None => {
                self.is_in_compact = false;
                Ok(None)
            },
            Some(task) => {
                let new_ssts: Vec<Arc<SsTable>> = self.compact(&task, watermark)?;
                Ok(Some(CompactionPlan { task, new_ssts }))
            },
        }
    }

    /// Puts the result of a compaction into use. Tells the ids that are no longer in use. Fails,
    /// and changes nothing, if a table of the new layout is missing or a level is out of order.
    pub fn finish_compaction(&mut self, plan: CompactionPlan) -> (r: Result<Vec<usize>, LsmError>)
        requires
            old(self).compaction_controller.can_apply(old(self).state.layout(), plan.task@),
        ensures
            ({
                let tables = without_tables(
                    with_tables(old(self).state.sstables@, plan.new_ssts@),
                    compact::task_ids(plan.task@),
                );
                match finished_layout(
                    old(self).compaction_controller,
                    old(self).state.layout(),
                    plan.task@,
                    sst_ids(plan.new_ssts@),
                    tables,
                ) {
                    Err(e) => r is Err && r->Err_0 == e && *final(self) == *old(self),
                    Ok(layout) => {
                        &&& r is Ok
                        &&& r->Ok_0@ == compact::task_ids(plan.task@)
                        &&& final(self).state.layout() == layout
                        &&& final(self).state.sstables@ == tables
                        &&& !final(self).is_in_compact
                    },
                }
            }),
            final(self).state.memtable == old(self).state.memtable,
            final(self).state.imm_memtables == old(self).state.imm_memtables,
            final(self).next_sst_id == old(self).next_sst_id,
            final(self).options == old(self).options,
            final(self).compaction_controller == old(self).compaction_controller,
            final(self).compaction_filters == old(self).compaction_filters,
    {
        let output_ids: Vec<usize> = collect_ids(&plan.new_ssts);
        let applied: (TableLayout, Vec<usize>) = self.compaction_controller.apply_compaction_result(
            &self.state,
            &plan.task,
            output_ids.as_slice(),
            false,
        );
        let layout: TableLayout = applied.0;
        let to_remove: Vec<usize> = applied.1;
        let mut sstables: HashMap<usize, Arc<SsTable>> = self.state.sstables.clone();
        replace_tables(&mut sstables, &plan.new_ssts, to_remove.as_slice());
        let sorts: bool = matches!(
            self.compaction_controller,
            CompactionController::Leveled(_) | CompactionController::Simple(_)
        );
        let levels: Vec<(usize, Vec<usize>)> = if sorts {
            sort_levels(&layout.levels, &sstables)?
        } else {
            layout.levels
        };
        verify_layout(layout.l0_sstables.as_slice(), &levels, &sstables)?;
        self.state.l0_sstables = layout.l0_sstables;
        self.state.levels = levels;
        self.state.sstables = sstables;
        self.is_in_compact = false;
        Ok(to_remove)
    }
}

proof fn lemma_all_built_push(
    ssts: Seq<Arc<SsTable>>,
    first: usize,
    groups: Seq<Seq<Entry>>,
    block_size: usize,
    more: Seq<Arc<SsTable>>,
    cur: Seq<Entry>,
)
    requires
        all_built(ssts, first, groups, block_size),
        more.len() == ssts.len() + 1,
        more.drop_last() == ssts,
        flush::built_from(&*more.last(), lsm_storage::nth_id(first, groups.len()), cur, block_size),
    ensures
        all_built(more, first, groups.push(cur), block_size),
{
    let gs = groups.push(cur);
    assert forall|i: int| 0 <= i < gs.len() implies flush::built_from(
        #[trigger] &*more[i],
        lsm_storage::nth_id(first, i as nat),
        gs[i],
        block_size,
    ) by {
        if i < groups.len() {
            assert(more[i] == ssts[i]);
            assert(
                flush::built_from(
                    &*ssts[i],
                    lsm_storage::nth_id(first, i as nat),
                    groups[i],
                    block_size,
                )
            );
        }
    }
}

} // verus!
