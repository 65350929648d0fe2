//! That compaction does not change what is read.
use crate::compact::{self, LevelTaskView, TaskView};
use crate::compact::retention;
use crate::compact::simple_leveled;
use crate::compact::tiered;
use crate::error::LsmError;
use crate::iterators;
use crate::iterators::concat_iterator;
use crate::key::{self, Entry, KeyView, TS_DEFAULT};
use crate::lsm_iterator;
use crate::lsm_storage::{self, LayoutView, LsmStorageInner};
use crate::lsm_storage::compaction;
use crate::lsm_storage::flush;
use crate::lsm_storage::laws;
use crate::lsm_storage::orderly;
use crate::lsm_storage::read;
use crate::table::SsTable;
use crate::table::builder;
use std::sync::Arc;
use vstd::prelude::*;

verus! {

/// What a compaction replaces its tables by: tables that hold what it keeps, and that are not too
/// long for the offsets of a table.
pub open spec fn output_fits(groups: Seq<Seq<Entry>>, block_size: usize) -> bool {
    forall|i: int| 0 <= i < groups.len()
        ==> builder::blocks_len(#[trigger] groups[i], block_size) <= u32::MAX
}

proof fn lemma_nth_id(first: usize, n: nat)
    requires
        first + n <= usize::MAX,
    ensures
        lsm_storage::nth_id(first, n) == first + n,
    decreases n,
{
    if n > 0 {
        lemma_nth_id(first, (n - 1) as nat);
    }
}

proof fn lemma_with_tables(
    tables: Map<usize, Arc<SsTable>>,
    ssts: Seq<Arc<SsTable>>,
    first: usize,
    id: usize,
)
    requires
        first + ssts.len() <= usize::MAX,
        forall|i: int| 0 <= i < ssts.len() ==> (#[trigger] ssts[i]).id == first + i,
    ensures
        first <= id < first + ssts.len() ==> compaction::with_tables(tables, ssts).contains_key(id)
            && compaction::with_tables(tables, ssts)[id] == ssts[id - first],
        !(first <= id < first + ssts.len())
            ==> compaction::with_tables(tables, ssts).contains_key(id)
            == tables.contains_key(id) && compaction::with_tables(tables, ssts)[id] == tables[id],
    decreases ssts.len(),
{
    if ssts.len() > 0 {
        lemma_with_tables(tables, ssts.drop_last(), first, id);
        assert(ssts[ssts.len() - 1].id == first + ssts.len() - 1);
    }
}

proof fn lemma_without_tables(tables: Map<usize, Arc<SsTable>>, gone: Seq<usize>, id: usize)
    ensures
        compaction::without_tables(tables, gone).contains_key(id) == (tables.contains_key(id)
            && !gone.contains(id)),
        !gone.contains(id) ==> compaction::without_tables(tables, gone)[id] == tables[id],
    decreases gone.len(),
{
    if gone.len() > 0 {
        let front = gone.drop_last();
        lemma_without_tables(tables, front, id);
        if front.contains(id) {
            let i = choose|i: int| 0 <= i < front.len() && front[i] == id;
            assert(gone[i] == id);
        }
        if gone.contains(id) && id != gone.last() {
            let i = choose|i: int| 0 <= i < gone.len() && gone[i] == id;
            assert(front[i] == id);
        }
        assert(gone[gone.len() - 1] == gone.last());
    }
}

/// The tables after a compaction: those that were not merged are still there, and those that came
/// of it are under their ids.
pub open spec fn tables_after(
    tables: Map<usize, Arc<SsTable>>,
    ssts: Seq<Arc<SsTable>>,
    gone: Seq<usize>,
) -> Map<usize, Arc<SsTable>> {
    compaction::without_tables(compaction::with_tables(tables, ssts), gone)
}

pub proof fn lemma_tables_after(
    tables: Map<usize, Arc<SsTable>>,
    ssts: Seq<Arc<SsTable>>,
    gone: Seq<usize>,
    first: usize,
)
    requires
        orderly::unused_from(tables, first),
        first + ssts.len() <= usize::MAX,
        forall|i: int| 0 <= i < ssts.len() ==> (#[trigger] ssts[i]).id == first + i,
        forall|i: int| 0 <= i < gone.len() ==> tables.contains_key(#[trigger] gone[i]),
    ensures
        forall|id: usize| #[trigger]
            tables.contains_key(id) && !gone.contains(id) ==> tables_after(
                tables,
                ssts,
                gone,
            ).contains_key(id) && tables_after(tables, ssts, gone)[id] == tables[id],
        forall|i: int|
            0 <= i < ssts.len() ==> tables_after(tables, ssts, gone).contains_key(
                (#[trigger] ssts[i]).id,
            ) && tables_after(tables, ssts, gone)[ssts[i].id] == ssts[i],
{
    let mid = compaction::with_tables(tables, ssts);
    assert forall|id: usize| #[trigger]
        tables.contains_key(id) && !gone.contains(id) implies tables_after(
        tables,
        ssts,
        gone,
    ).contains_key(id) && tables_after(tables, ssts, gone)[id] == tables[id] by {
        lemma_with_tables(tables, ssts, first, id);
        lemma_without_tables(mid, gone, id);
    }
    assert forall|i: int| 0 <= i < ssts.len() implies tables_after(
        tables,
        ssts,
        gone,
    ).contains_key((#[trigger] ssts[i]).id) && tables_after(tables, ssts, gone)[ssts[i].id]
        == ssts[i] by {
        let id = ssts[i].id;
        lemma_with_tables(tables, ssts, first, id);
        lemma_without_tables(mid, gone, id);
        if gone.contains(id) {
            let j = choose|j: int| 0 <= j < gone.len() && gone[j] == id;
            assert(tables.contains_key(gone[j]));
        }
    }
}

/// The entries of tables one after the other are those of their groups.
proof fn lemma_tables_from_groups(ts: Seq<Arc<SsTable>>, groups: Seq<Seq<Entry>>, i: int)
    requires
        ts.len() == groups.len(),
        0 <= i <= ts.len(),
        forall|j: int| 0 <= j < ts.len() ==> (#[trigger] ts[j]).entries() == groups[j],
    ensures
        concat_iterator::tables_from(ts, i) == retention::flatten_tables(groups.skip(i)),
    decreases ts.len() - i,
{
    if i < ts.len() {
        lemma_tables_from_groups(ts, groups, i + 1);
        assert(groups.skip(i).drop_first() =~= groups.skip(i + 1));
        assert(ts[i].entries() == groups[i]);
    } else {
        assert(groups.skip(i) =~= Seq::empty());
    }
}

/// A group of a sorted whole is sorted.
proof fn lemma_groups_sorted(groups: Seq<Seq<Entry>>)
    requires
        key::sorted(retention::flatten_tables(groups)),
    ensures
        forall|i: int| 0 <= i < groups.len() ==> key::sorted(#[trigger] groups[i]),
    decreases groups.len(),
{
    if groups.len() > 0 {
        let all = retention::flatten_tables(groups);
        let g = groups[0];
        let t = groups.drop_first();
        let rest = retention::flatten_tables(t);
        let n = g.len() as int;
        assert forall|x: int, y: int| 0 <= x < y < g.len() implies key::key_lt(
            #[trigger] g[x].key,
            #[trigger] g[y].key,
        ) by {
            assert(all[x] == g[x]);
            assert(all[y] == g[y]);
        }
        assert forall|x: int, y: int| 0 <= x < y < rest.len() implies key::key_lt(
            #[trigger] rest[x].key,
            #[trigger] rest[y].key,
        ) by {
            assert(all[n + x] == rest[x]);
            assert(all[n + y] == rest[y]);
        }
        lemma_groups_sorted(t);
        assert forall|i: int| 0 <= i < groups.len() implies key::sorted(#[trigger] groups[i]) by {
            if i > 0 {
                assert(groups[i] == t[i - 1]);
            }
        }
    }
}

/// The tables that come of a compaction form a run that holds what it kept.
proof fn lemma_output_run(
    ssts: Seq<Arc<SsTable>>,
    first: usize,
    s: Seq<Entry>,
    block_size: usize,
    target: usize,
)
    requires
        key::sorted(s),
        compaction::all_built(
            ssts,
            first,
            retention::split_tables(s, Seq::empty(), block_size, target),
            block_size,
        ),
        output_fits(retention::split_tables(s, Seq::empty(), block_size, target), block_size),
        first + ssts.len() <= usize::MAX,
    ensures
        concat_iterator::run_wf(ssts),
        concat_iterator::all_filled(ssts),
        concat_iterator::tables_from(ssts, 0) == s,
        forall|i: int| 0 <= i < ssts.len() ==> (#[trigger] ssts[i]).id == first + i,
{
    let groups = retention::split_tables(s, Seq::empty(), block_size, target);
    retention::law_split_tables(s, block_size, target);
    lemma_groups_sorted(groups);
    assert forall|i: int| 0 <= i < ssts.len() implies (#[trigger] ssts[i]).wf() && ssts[i].entries()
        == groups[i] && ssts[i].id == first + i by {
        assert(
            flush::built_from(
                &*ssts[i],
                lsm_storage::nth_id(first, i as nat),
                groups[i],
                block_size,
            )
        );
        assert(builder::blocks_len(groups[i], block_size) <= u32::MAX);
        assert(key::sorted(groups[i]));
        assert(groups[i].len() > 0);
        lemma_nth_id(first, i as nat);
    }
    lemma_tables_from_groups(ssts, groups, 0);
    assert(groups.skip(0) =~= groups);
}

/// What a compaction keeps of plain user keys: all values, except deletions where nothing lies
/// below.
proof fn lemma_kept_plain(s: Seq<Entry>, to_bottom: bool, watermark: u64, k: Seq<u8>)
    requires
        key::sorted(s),
        key::plain_keys(s),
    ensures
        ({
            let r = retention::kept(s, to_bottom, watermark, Seq::empty(), false);
            &&& key::sorted(r)
            &&& key::plain_keys(r)
            &&& key::lookup(r, key::user_key(k)) is Some
                ==> key::lookup(s, key::user_key(k)) is Some
            &&& lsm_iterator::live(key::lookup(r, key::user_key(k)))
                == lsm_iterator::live(key::lookup(s, key::user_key(k)))
            &&& !to_bottom ==> key::lookup(r, key::user_key(k)) == key::lookup(s, key::user_key(k))
        }),
{
    let r = retention::kept(s, to_bottom, watermark, Seq::empty(), false);
    retention::law_compaction_keeps_snapshots(s, to_bottom, watermark, k, u64::MAX);
    retention::lemma_kept(s, to_bottom, watermark, Seq::empty(), false);
    assert(key::plain_keys(r)) by {
        assert forall|i: int| 0 <= i < r.len() implies (#[trigger] r[i]).key.ts == TS_DEFAULT by {
            assert(s.contains(r[i]));
            let x = choose|x: int| 0 <= x < s.len() && s[x] == r[i];
            assert(s[x].key.ts == TS_DEFAULT);
        }
    }
    laws::lemma_plain_snapshot(s, k);
    laws::lemma_plain_snapshot(r, k);
    key::lemma_lookup(r, key::user_key(k));
    key::lemma_lookup(s, key::user_key(k));
    if key::lookup(r, key::user_key(k)) is Some {
        let i = choose|i: int| 0 <= i < r.len() && #[trigger] r[i].key == key::user_key(k);
        assert(s.contains(r[i]));
        let x = choose|x: int| 0 <= x < s.len() && s[x] == r[i];
        assert(s[x].key == key::user_key(k));
    }
}

/// Parts `m` may be replaced by parts `n` between other parts: what is read stays the same. Where
/// deletions were dropped, nothing may lie below.
proof fn lemma_replace_parts(
    a: Seq<Seq<Entry>>,
    m: Seq<Seq<Entry>>,
    n: Seq<Seq<Entry>>,
    b: Seq<Seq<Entry>>,
    to_bottom: bool,
    k: KeyView,
)
    requires
        lsm_iterator::live(iterators::lookup_all(n, k))
            == lsm_iterator::live(iterators::lookup_all(m, k)),
        !to_bottom ==> iterators::lookup_all(n, k) == iterators::lookup_all(m, k),
        to_bottom ==> iterators::lookup_all(b, k) is None,
    ensures
        lsm_iterator::live(iterators::lookup_all(a + n + b, k))
            == lsm_iterator::live(iterators::lookup_all(a + m + b, k)),
{
    read::lemma_lookup_all_concat(a + n, b, k);
    read::lemma_lookup_all_concat(a, n, k);
    read::lemma_lookup_all_concat(a + m, b, k);
    read::lemma_lookup_all_concat(a, m, k);
}

/// Tables that stand in order hold what they hold one by one.
pub proof fn lemma_run_as_tables(ts: Seq<Arc<SsTable>>, i: int, k: KeyView)
    requires
        0 <= i <= ts.len(),
    ensures
        key::lookup(concat_iterator::tables_from(ts, i), k)
            == iterators::lookup_all(compaction::table_parts(ts).skip(i), k),
    decreases ts.len() - i,
{
    let ps = compaction::table_parts(ts);
    if i < ts.len() {
        lemma_run_as_tables(ts, i + 1, k);
        assert(ps.skip(i).drop_first() =~= ps.skip(i + 1));
        assert(ps.skip(i)[0] == ts[i].entries());
        read::lemma_lookup_concat(ts[i].entries(), concat_iterator::tables_from(ts, i + 1), k);
    } else {
        assert(ps.skip(i) =~= Seq::empty());
    }
}

/// A part that holds nothing is passed over.
pub proof fn lemma_lookup_all_one(p: Seq<Entry>, k: KeyView)
    ensures
        iterators::lookup_all(seq![p], k) == key::lookup(p, k),
{
    let ps = seq![p];
    assert(ps.drop_first() =~= Seq::empty());
    assert(iterators::lookup_all(ps.drop_first(), k) is None);
}

/// Ids that stand in order stay where they are when they are sorted.
proof fn lemma_sorted_ids_same(ids: Seq<usize>, tables: Map<usize, Arc<SsTable>>)
    requires
        compaction::ascending(ids, tables),
    ensures
        compaction::sorted_ids(ids, tables) == ids,
    decreases ids.len(),
{
    if ids.len() > 0 {
        let front = ids.drop_last();
        let id = ids.last();
        assert(compaction::ascending(front, tables)) by {
            assert forall|i: int, j: int| 0 <= i < j < front.len() implies key::key_le(
                tables[#[trigger] front[i]].first_key@,
                tables[#[trigger] front[j]].first_key@,
            ) by {
                assert(front[i] == ids[i]);
                assert(front[j] == ids[j]);
            }
        }
        lemma_sorted_ids_same(front, tables);
        assert forall|i: int| 0 <= i < front.len() implies key::key_le(
            tables[#[trigger] front[i]].first_key@,
            tables[id].first_key@,
        ) by {
            assert(front[i] == ids[i]);
            assert(ids[ids.len() - 1] == id);
        }
        lemma_place_end(front, id, tables);
        assert(front.insert(front.len() as int, id) =~= ids);
    }
}

proof fn lemma_place_end(ids: Seq<usize>, id: usize, tables: Map<usize, Arc<SsTable>>)
    requires
        forall|i: int|
            0 <= i < ids.len() ==> key::key_le(
                tables[#[trigger] ids[i]].first_key@,
                tables[id].first_key@,
            ),
    ensures
        compaction::place_of(ids, id, tables) == ids.len(),
    decreases ids.len(),
{
    if ids.len() > 0 {
        let t = ids.drop_first();
        assert(key::key_le(tables[ids[0]].first_key@, tables[id].first_key@));
        assert forall|i: int| 0 <= i < t.len() implies key::key_le(
            tables[#[trigger] t[i]].first_key@,
            tables[id].first_key@,
        ) by {
            assert(t[i] == ids[i + 1]);
        }
        lemma_place_end(t, id, tables);
    }
}

/// The ids of a run stand in order.
proof fn lemma_run_ascending(ids: Seq<usize>, tables: Map<usize, Arc<SsTable>>)
    requires
        concat_iterator::run_wf(lsm_storage::tables_of(ids, tables)),
    ensures
        compaction::ascending(ids, tables),
{
    broadcast use key::group_key_order;

    let ts = lsm_storage::tables_of(ids, tables);
    assert forall|i: int, j: int| 0 <= i < j < ids.len() implies key::key_le(
        tables[#[trigger] ids[i]].first_key@,
        tables[#[trigger] ids[j]].first_key@,
    ) by {
        assert(ts[i] == tables[ids[i]]);
        assert(ts[j] == tables[ids[j]]);
        read::lemma_run_keys(ts, i, j);
    }
}

/// Where all tables are there, those that are there are all.
pub proof fn lemma_present_all(ids: Seq<usize>, tables: Map<usize, Arc<SsTable>>)
    requires
        forall|i: int| 0 <= i < ids.len() ==> tables.contains_key(#[trigger] ids[i]),
    ensures
        compaction::present(ids, tables) == lsm_storage::tables_of(ids, tables),
    decreases ids.len(),
{
    if ids.len() > 0 {
        let front = ids.drop_last();
        assert forall|i: int| 0 <= i < front.len() implies tables.contains_key(
            #[trigger] front[i],
        ) by {
            assert(front[i] == ids[i]);
        }
        lemma_present_all(front, tables);
        assert(ids[ids.len() - 1] == ids.last());
        assert(
            lsm_storage::tables_of(ids, tables)
                =~= lsm_storage::tables_of(front, tables).push(tables[ids.last()])
        );
    } else {
        assert(lsm_storage::tables_of(ids, tables) =~= Seq::empty());
    }
}

proof fn lemma_without_all(ids: Seq<usize>, gone: Seq<usize>)
    requires
        forall|i: int| 0 <= i < ids.len() ==> gone.contains(#[trigger] ids[i]),
    ensures
        compact::without(ids, gone) == Seq::<usize>::empty(),
    decreases ids.len(),
{
    if ids.len() > 0 {
        let front = ids.drop_last();
        assert(gone.contains(ids[ids.len() - 1]));
        assert forall|i: int| 0 <= i < front.len() implies gone.contains(#[trigger] front[i]) by {
            assert(front[i] == ids[i]);
        }
        lemma_without_all(front, gone);
    } else {
        assert(ids =~= Seq::empty());
    }
}

/// A level none of whose tables was merged is as it was.
pub proof fn lemma_level_same(
    level: (usize, Seq<usize>),
    tables: Map<usize, Arc<SsTable>>,
    after: Map<usize, Arc<SsTable>>,
    gone: Seq<usize>,
)
    requires
        lsm_storage::level_wf(level, tables),
        orderly::share_none(level.1, gone),
        forall|id: usize| #[trigger]
            tables.contains_key(id) && !gone.contains(id) ==> after.contains_key(id) && after[id]
                == tables[id],
    ensures
        lsm_storage::level_wf(level, after),
        lsm_storage::level_entries(level, after) == lsm_storage::level_entries(level, tables),
{
    assert forall|i: int| 0 <= i < level.1.len() implies after.contains_key(#[trigger] level.1[i])
        && after[level.1[i]] == tables[level.1[i]] by {
        assert(tables.contains_key(level.1[i]));
        assert(level.1.contains(level.1[i]));
    }
    assert(lsm_storage::tables_of(level.1, after) =~= lsm_storage::tables_of(level.1, tables));
}

/// The tables that came of a compaction, as a level.
pub proof fn lemma_output_level(
    name: usize,
    ssts: Seq<Arc<SsTable>>,
    after: Map<usize, Arc<SsTable>>,
)
    requires
        concat_iterator::run_wf(ssts),
        forall|i: int|
            0 <= i < ssts.len() ==> after.contains_key((#[trigger] ssts[i]).id)
                && after[ssts[i].id] == ssts[i],
    ensures
        lsm_storage::level_wf((name, compaction::sst_ids(ssts)), after),
        lsm_storage::level_entries((name, compaction::sst_ids(ssts)), after)
            == concat_iterator::tables_from(ssts, 0),
{
    let ids = compaction::sst_ids(ssts);
    assert forall|i: int| 0 <= i < ids.len() implies after.contains_key(#[trigger] ids[i])
        && after[ids[i]] == ssts[i] by {
        assert(ids[i] == ssts[i].id);
    }
    assert(lsm_storage::tables_of(ids, after) =~= ssts);
}

/// Levels that stand in order stay as they are when they are sorted.
proof fn lemma_sorted_levels_same(
    levels: Seq<(usize, Seq<usize>)>,
    tables: Map<usize, Arc<SsTable>>,
)
    requires
        forall|i: int| 0 <= i < levels.len()
            ==> #[trigger] lsm_storage::level_wf(levels[i], tables),
    ensures
        compaction::sorted_levels(levels, tables) == levels,
{
    assert forall|i: int| 0 <= i < levels.len() implies compaction::sorted_levels(levels, tables)[i]
        == levels[i] by {
        assert(lsm_storage::level_wf(levels[i], tables));
        lemma_run_ascending(levels[i].1, tables);
        lemma_sorted_ids_same(levels[i].1, tables);
    }
    assert(compaction::sorted_levels(levels, tables) =~= levels);
}

/// What a task merged and what came of it: the two engines, the tables that were built, and the
/// watermark.
pub open spec fn compacted(
    before: LsmStorageInner,
    after: LsmStorageInner,
    task: TaskView,
    ssts: Seq<Arc<SsTable>>,
    watermark: u64,
) -> bool {
    let tables = before.state.sstables@;
    let groups = compaction::task_output(task, tables, watermark, before.options);
    &&& compaction::all_built(ssts, before.next_sst_id, groups, before.options.block_size)
    &&& output_fits(groups, before.options.block_size)
    &&& before.next_sst_id + ssts.len() <= usize::MAX
    &&& after.next_sst_id == lsm_storage::nth_id(before.next_sst_id, ssts.len())
    &&& after.state.sstables@ == tables_after(tables, ssts, compact::task_ids(task))
    &&& after.state.memtable == before.state.memtable
    &&& after.state.imm_memtables == before.state.imm_memtables
    &&& after.compaction_controller == before.compaction_controller
}

/// What the output of a task holds, where all keys are plain user keys.
pub proof fn lemma_output_lookup(
    before: LsmStorageInner,
    after: LsmStorageInner,
    task: TaskView,
    ssts: Seq<Arc<SsTable>>,
    watermark: u64,
)
    requires
        compacted(before, after, task, ssts, watermark),
        forall|i: int|
            0 <= i < compaction::task_parts(task, before.state.sstables@).len() ==> key::sorted(
                #[trigger] compaction::task_parts(task, before.state.sstables@)[i],
            ),
        forall|i: int|
            0 <= i < compaction::task_parts(task, before.state.sstables@).len() ==> key::plain_keys(
                #[trigger] compaction::task_parts(task, before.state.sstables@)[i],
            ),
    ensures
        concat_iterator::run_wf(ssts),
        concat_iterator::all_filled(ssts),
        key::plain_keys(concat_iterator::tables_from(ssts, 0)),
        forall|i: int| 0 <= i < ssts.len() ==> (#[trigger] ssts[i]).id == before.next_sst_id + i,
        forall|k: Seq<u8>|
            #![trigger key::user_key(k)]
            {
                let m = iterators::lookup_all(
                    compaction::task_parts(task, before.state.sstables@),
                    key::user_key(k),
                );
                let n = key::lookup(concat_iterator::tables_from(ssts, 0), key::user_key(k));
                &&& n is Some ==> m is Some
                &&& lsm_iterator::live(n) == lsm_iterator::live(m)
                &&& !task.to_bottom() ==> n == m
            },
{
    let ps = compaction::task_parts(task, before.state.sstables@);
    let all = iterators::merge_all(ps);
    let s = retention::kept(all, task.to_bottom(), watermark, Seq::empty(), false);
    iterators::law_merge_all(ps, key::user_key(Seq::empty()));
    lemma_merge_all_plain(ps);
    lemma_kept_plain(all, task.to_bottom(), watermark, Seq::empty());
    lemma_output_run(
        ssts,
        before.next_sst_id,
        s,
        before.options.block_size,
        before.options.target_sst_size,
    );
    assert forall|k: Seq<u8>|
        #![trigger key::user_key(k)]
        {
            let m = iterators::lookup_all(ps, key::user_key(k));
            let n = key::lookup(concat_iterator::tables_from(ssts, 0), key::user_key(k));
            &&& n is Some ==> m is Some
            &&& lsm_iterator::live(n) == lsm_iterator::live(m)
            &&& !task.to_bottom() ==> n == m
        } by {
        iterators::law_merge_all(ps, key::user_key(k));
        lemma_kept_plain(all, task.to_bottom(), watermark, k);
    }
}

proof fn lemma_merge_all_plain(ss: Seq<Seq<Entry>>)
    requires
        forall|i: int| 0 <= i < ss.len() ==> key::plain_keys(#[trigger] ss[i]),
    ensures
        key::plain_keys(iterators::merge_all(ss)),
    decreases ss.len(),
{
    if ss.len() > 0 {
        let t = ss.drop_first();
        assert forall|i: int| 0 <= i < t.len() implies key::plain_keys(#[trigger] t[i]) by {
            assert(t[i] == ss[i + 1]);
        }
        lemma_merge_all_plain(t);
        assert(key::plain_keys(ss[0]));
        iterators::lemma_merge2_plain(ss[0], iterators::merge_all(t));
    }
}

pub proof fn lemma_tables_from_plain(ts: Seq<Arc<SsTable>>, i: int)
    requires
        0 <= i <= ts.len(),
        forall|j: int| 0 <= j < ts.len() ==> key::plain_keys((#[trigger] ts[j]).entries()),
    ensures
        key::plain_keys(concat_iterator::tables_from(ts, i)),
    decreases ts.len() - i,
{
    if i < ts.len() {
        lemma_tables_from_plain(ts, i + 1);
        assert(key::plain_keys(ts[i].entries()));
    }
}

/// Tables one by one: sorted and plain parts that hold what the tables hold.
pub proof fn lemma_table_parts(ids: Seq<usize>, tables: Map<usize, Arc<SsTable>>)
    requires
        orderly::tables_plain(tables),
        forall|i: int|
            0 <= i < ids.len() ==> tables.contains_key(#[trigger] ids[i])
                && tables[ids[i]].wf(),
    ensures
        compaction::present(ids, tables) == lsm_storage::tables_of(ids, tables),
        forall|i: int|
            0 <= i < ids.len()
                ==> key::sorted(
                    #[trigger] compaction::table_parts(lsm_storage::tables_of(ids, tables))[i]
                )
                && key::plain_keys(compaction::table_parts(lsm_storage::tables_of(ids, tables))[i]),
        compaction::table_parts(lsm_storage::tables_of(ids, tables))
            == lsm_storage::l0_parts(ids, tables),
{
    lemma_present_all(ids, tables);
    let ts = lsm_storage::tables_of(ids, tables);
    assert forall|i: int| 0 <= i < ids.len()
        implies key::sorted(#[trigger] compaction::table_parts(ts)[i])
        && key::plain_keys(compaction::table_parts(ts)[i]) by {
        assert(tables.contains_key(ids[i]));
        assert(ts[i] == tables[ids[i]]);
    }
    assert(compaction::table_parts(ts) =~= lsm_storage::l0_parts(ids, tables));
}

/// A level as a part: sorted and plain, and it holds what the level holds.
pub proof fn lemma_run_part(level: (usize, Seq<usize>), tables: Map<usize, Arc<SsTable>>)
    requires
        orderly::tables_plain(tables),
        lsm_storage::level_wf(level, tables),
    ensures
        compaction::present(level.1, tables) == lsm_storage::tables_of(level.1, tables),
        forall|i: int|
            0 <= i < compaction::run_part(lsm_storage::tables_of(level.1, tables)).len()
                ==> key::sorted(
                #[trigger] compaction::run_part(lsm_storage::tables_of(level.1, tables))[i],
            ) && key::plain_keys(compaction::run_part(lsm_storage::tables_of(level.1, tables))[i]),
        forall|k: KeyView| #[trigger]
            iterators::lookup_all(compaction::run_part(lsm_storage::tables_of(level.1, tables)), k)
                == key::lookup(
                lsm_storage::level_entries(level, tables),
                k,
            ),
{
    lemma_present_all(level.1, tables);
    let ts = lsm_storage::tables_of(level.1, tables);
    assert forall|j: int| 0 <= j < ts.len()
        implies key::plain_keys((#[trigger] ts[j]).entries()) by {
        assert(tables.contains_key(level.1[j]));
        assert(ts[j] == tables[level.1[j]]);
    }
    lemma_tables_from_plain(ts, 0);
    assert forall|k: KeyView| #[trigger] iterators::lookup_all(compaction::run_part(ts), k)
        == key::lookup(
        lsm_storage::level_entries(level, tables),
        k,
    ) by {
        if ts.len() > 0 {
            lemma_lookup_all_one(concat_iterator::tables_from(ts, 0), k);
        }
    }
}

/// A table after a compaction is one that came of it, or one that was there before.
proof fn lemma_tables_after_only(
    tables: Map<usize, Arc<SsTable>>,
    ssts: Seq<Arc<SsTable>>,
    gone: Seq<usize>,
    first: usize,
    id: usize,
)
    requires
        first + ssts.len() <= usize::MAX,
        forall|i: int| 0 <= i < ssts.len() ==> (#[trigger] ssts[i]).id == first + i,
        tables_after(tables, ssts, gone).contains_key(id),
    ensures
        if first <= id < first + ssts.len() {
            tables_after(tables, ssts, gone)[id] == ssts[id - first]
        } else {
            tables.contains_key(id) && tables_after(tables, ssts, gone)[id] == tables[id]
        },
{
    lemma_with_tables(tables, ssts, first, id);
    lemma_without_tables(compaction::with_tables(tables, ssts), gone, id);
}

proof fn lemma_tables_from_plain_each(ts: Seq<Arc<SsTable>>, i: int, j: int)
    requires
        0 <= i <= j < ts.len(),
        key::plain_keys(concat_iterator::tables_from(ts, i)),
    ensures
        key::plain_keys(ts[j].entries()),
    decreases j - i,
{
    let all = concat_iterator::tables_from(ts, i);
    let es = ts[i].entries();
    let rest = concat_iterator::tables_from(ts, i + 1);
    if i == j {
        assert forall|x: int| 0 <= x < es.len() implies (#[trigger] es[x]).key.ts
            == TS_DEFAULT by {
            assert(all[x] == es[x]);
        }
    } else {
        assert forall|x: int| 0 <= x < rest.len() implies (#[trigger] rest[x]).key.ts
            == TS_DEFAULT by {
            assert(all[es.len() + x] == rest[x]);
        }
        lemma_tables_from_plain_each(ts, i + 1, j);
    }
}

/// A table of a level stood in that level before, or it is new.
pub open spec fn levels_kept(layout: LayoutView, next: LayoutView, first: usize) -> bool {
    &&& next.levels.len() <= layout.levels.len()
    &&& forall|i: int, id: usize|
        0 <= i < next.levels.len() && #[trigger] next.levels[i].1.contains(id)
            ==> layout.levels[i].1.contains(id) || first <= id
}

/// What is left to show of an engine after a compaction, so that it is orderly: it is well-formed,
/// no table stands in two places, and none was put into a level from elsewhere.
pub proof fn lemma_compacted_orderly(
    before: LsmStorageInner,
    after: LsmStorageInner,
    task: TaskView,
    ssts: Seq<Arc<SsTable>>,
    watermark: u64,
)
    requires
        orderly::orderly(before),
        compacted(before, after, task, ssts, watermark),
        forall|i: int| 0 <= i < ssts.len() ==> (#[trigger] ssts[i]).id == before.next_sst_id + i,
        key::plain_keys(concat_iterator::tables_from(ssts, 0)),
        after.state.wf(),
        orderly::places_apart(after.state.layout()),
        concat_iterator::all_filled(ssts),
        after.uses_l0() ==> levels_kept(
            before.state.layout(),
            after.state.layout(),
            before.next_sst_id,
        ),
    ensures
        orderly::orderly(after),
{
    let first = before.next_sst_id;
    let tables = before.state.sstables@;
    let more = after.state.sstables@;
    lemma_nth_id(first, ssts.len());
    assert forall|id: usize| #[trigger] more.contains_key(id) implies id < after.next_sst_id
        && key::plain_keys(more[id].entries()) by {
        lemma_tables_after_only(tables, ssts, compact::task_ids(task), first, id);
        if first <= id < first + ssts.len() {
            lemma_tables_from_plain_each(ssts, 0, id - first);
        }
    }
    if after.uses_l0() {
        let levels = after.state.layout().levels;
        let old = before.state.layout().levels;
        assert forall|i: int| 0 <= i < levels.len() implies orderly::filled(
            (#[trigger] levels[i]).1,
            more,
        ) by {
            assert(lsm_storage::level_wf(levels[i], more));
            assert(orderly::filled(old[i].1, tables));
            assert forall|id: usize| #[trigger] levels[i].1.contains(
                id,
            ) implies more[id].entries().len() > 0 by {
                let j = choose|j: int| 0 <= j < levels[i].1.len() && levels[i].1[j] == id;
                assert(more.contains_key(levels[i].1[j]));
                lemma_tables_after_only(tables, ssts, compact::task_ids(task), first, id);
                if first <= id < first + ssts.len() {
                    assert(ssts[id - first].entries().len() > 0);
                } else {
                    assert(tables.contains_key(id));
                    assert(old[i].1.contains(id));
                }
            }
        }
    }
}

/// The ids of the tables that came of a compaction are new.
pub proof fn lemma_output_ids(ssts: Seq<Arc<SsTable>>, first: usize)
    requires
        forall|i: int| 0 <= i < ssts.len() ==> (#[trigger] ssts[i]).id == first + i,
    ensures
        forall|id: usize| #[trigger] compaction::sst_ids(ssts).contains(id) ==> first <= id,
{
    let ids = compaction::sst_ids(ssts);
    assert forall|id: usize| #[trigger] ids.contains(id) implies first <= id by {
        let i = choose|i: int| 0 <= i < ids.len() && ids[i] == id;
        assert(ssts[i].id == first + i);
    }
}

/// L0 and the first level are merged into the first level: nothing changes of what is read.
#[verifier::rlimit(60)]
proof fn lemma_l0_task_keeps(
    before: LsmStorageInner,
    after: LsmStorageInner,
    task: TaskView,
    t: LevelTaskView,
    ssts: Seq<Arc<SsTable>>,
    watermark: u64,
    next: LayoutView,
)
    requires
        orderly::orderly(before),
        before.uses_l0(),
        before.state.levels@.len() > 0,
        task == TaskView::Simple(t) || task == TaskView::ForceFullCompaction(t.upper, t.lower),
        t.upper_level is None,
        t.upper == before.state.l0_sstables@,
        t.lower == before.state.levels_seq()[0].1,
        task.to_bottom() ==> forall|i: int|
            0 < i < before.state.levels@.len() ==> (#[trigger] before.state.levels_seq()[i]).1.len()
                == 0,
        compacted(before, after, task, ssts, watermark),
        next.l0.len() == 0,
        next.levels.len() == before.state.levels@.len(),
        next.levels[0].1 == compaction::sst_ids(ssts),
        forall|i: int|
            0 < i < before.state.levels@.len() ==> #[trigger] next.levels[i]
                == before.state.levels_seq()[i],
    ensures
        lsm_storage::layout_wf(next, after.state.sstables@),
        orderly::places_apart(next),
        levels_kept(before.state.layout(), next, before.next_sst_id),
        concat_iterator::all_filled(ssts),
        forall|i: int| 0 <= i < ssts.len() ==> (#[trigger] ssts[i]).id == before.next_sst_id + i,
        key::plain_keys(concat_iterator::tables_from(ssts, 0)),
        forall|k: Seq<u8>|
            #![trigger key::user_key(k)]
            lsm_iterator::live(
                iterators::lookup_all(
                    before.state.mem_parts()
                        + lsm_storage::layout_parts(next, true, after.state.sstables@),
                    key::user_key(k),
                ),
            ) == lsm_iterator::live(before.find(key::user_key(k))),
{
    let tables = before.state.sstables@;
    let more = after.state.sstables@;
    let layout = before.state.layout();
    let levels = layout.levels;
    let gone = compact::task_ids(task);
    assert(gone == t.upper + t.lower);
    let l0p = lsm_storage::l0_parts(layout.l0, tables);
    assert(lsm_storage::level_wf(levels[0], tables));
    lemma_table_parts(t.upper, tables);
    lemma_run_part(levels[0], tables);
    assert(forall|i: int| 0 <= i < t.lower.len() ==> tables.contains_key(#[trigger] t.lower[i]));
    let ps = compaction::task_parts(task, tables);
    lemma_l0_task_parts(before, task, t);
    lemma_output_lookup(before, after, task, ssts, watermark);
    assert forall|i: int| 0 <= i < gone.len() implies tables.contains_key(#[trigger] gone[i]) by {
        if i < t.upper.len() {
            assert(gone[i] == t.upper[i]);
        } else {
            assert(gone[i] == t.lower[i - t.upper.len()]);
        }
    }
    lemma_tables_after(tables, ssts, gone, before.next_sst_id);
    lemma_output_level(next.levels[0].0, ssts, more);
    assert forall|i: int| 0 <= i < next.levels.len() implies #[trigger] lsm_storage::level_wf(
        next.levels[i],
        more,
    ) && (
        i > 0
            ==> lsm_storage::level_entries(next.levels[i], more)
                == lsm_storage::level_entries(levels[i], tables)
    ) by {
        if i > 0 {
            assert(next.levels[i] == levels[i]);
            assert(lsm_storage::level_wf(levels[i], tables));
            assert(orderly::share_none(levels[i].1, gone)) by {
                assert(orderly::share_none(levels[i].1, levels[0].1));
                assert(orderly::share_none(levels[i].1, layout.l0));
                assert forall|id: usize| #[trigger] levels[i].1.contains(id) implies !gone.contains(
                    id,
                ) by {
                    if gone.contains(id) {
                        let x = choose|x: int| 0 <= x < gone.len() && gone[x] == id;
                        if x < t.upper.len() {
                            assert(layout.l0[x] == id);
                        } else {
                            assert(levels[0].1[x - t.upper.len()] == id);
                        }
                    }
                }
            }
            lemma_level_same(levels[i], tables, more, gone);
        } else {
            assert(next.levels[0] == (next.levels[0].0, compaction::sst_ids(ssts)));
        }
    }
    lemma_output_ids(ssts, before.next_sst_id);
    orderly::lemma_ids_used(layout, tables, before.next_sst_id);
    assert forall|i: int, id: usize|
        0 <= i < next.levels.len() && #[trigger] next.levels[i].1.contains(
            id,
        ) implies layout.levels[i].1.contains(id) || (i == 0 && before.next_sst_id <= id) by {
        if i != 0 {
            assert(next.levels[i] == levels[i]);
        }
    }
    orderly::lemma_places_apart(layout, next, 0, before.next_sst_id);
    let mems = before.state.mem_parts();
    let runs = lsm_storage::level_parts(levels, tables);
    let rest = runs.skip(1);
    let out = concat_iterator::tables_from(ssts, 0);
    let m = l0p + seq![runs[0]];
    let n = seq![out];
    let after_parts = mems + lsm_storage::layout_parts(next, true, more);
    assert(after_parts =~= mems + n + rest) by {
        let qs = lsm_storage::level_parts(next.levels, more);
        assert(qs =~= n + rest) by {
            assert forall|i: int| 0 <= i < qs.len() implies qs[i] == (n + rest)[i] by {
                assert(lsm_storage::level_wf(next.levels[i], more));
                if i > 0 {
                    assert((n + rest)[i] == runs[i]);
                }
            }
        }
        assert(lsm_storage::l0_parts(next.l0, more) =~= Seq::empty());
    }
    assert(before.state.parts(true) =~= mems + m + rest);
    assert forall|k: Seq<u8>|
        #![trigger key::user_key(k)]
        lsm_iterator::live(iterators::lookup_all(after_parts, key::user_key(k)))
            == lsm_iterator::live(before.find(key::user_key(k))) by {
        let kv = key::user_key(k);
        lemma_lookup_all_one(out, kv);
        read::lemma_lookup_all_concat(l0p, seq![runs[0]], kv);
        lemma_lookup_all_one(runs[0], kv);
        lemma_l0_task_lookup(before, task, t, kv);
        if task.to_bottom() {
            assert forall|i: int| 0 <= i < rest.len() implies (#[trigger] rest[i]).len() == 0 by {
                assert(rest[i] == lsm_storage::level_entries(levels[i + 1], tables));
                assert(before.state.levels_seq()[i + 1].1.len() == 0);
                assert(lsm_storage::tables_of(levels[i + 1].1, tables) =~= Seq::empty());
            }
            read::lemma_no_entries(rest, kv);
        }
        lemma_replace_parts(mems, m, n, rest, task.to_bottom(), kv);
    }
}

/// What is merged of L0 and the first level is sorted and plain.
proof fn lemma_l0_task_parts(before: LsmStorageInner, task: TaskView, t: LevelTaskView)
    requires
        before.state.wf(),
        orderly::tables_plain(before.state.sstables@),
        before.state.levels@.len() > 0,
        task == TaskView::Simple(t) || task == TaskView::ForceFullCompaction(t.upper, t.lower),
        t.upper_level is None,
        t.upper == before.state.l0_sstables@,
        t.lower == before.state.levels_seq()[0].1,
    ensures
        forall|i: int|
            0 <= i < compaction::task_parts(task, before.state.sstables@).len() ==> key::sorted(
                #[trigger] compaction::task_parts(task, before.state.sstables@)[i],
            ) && key::plain_keys(compaction::task_parts(task, before.state.sstables@)[i]),
{
    let tables = before.state.sstables@;
    let layout = before.state.layout();
    let levels = layout.levels;
    assert(layout.l0 == t.upper);
    assert(lsm_storage::level_wf(levels[0], tables));
    lemma_table_parts(t.upper, tables);
    lemma_run_part(levels[0], tables);
    let ps = compaction::task_parts(task, tables);
    if task is Simple {
        let head = compaction::table_parts(lsm_storage::tables_of(t.upper, tables));
        let tail = compaction::run_part(lsm_storage::tables_of(t.lower, tables));
        assert(ps =~= head + tail);
        assert forall|i: int| 0 <= i < ps.len()
            implies key::sorted(#[trigger] ps[i]) && key::plain_keys(
            ps[i],
        ) by {
            if i < head.len() {
                assert(ps[i] == head[i]);
            } else {
                assert(ps[i] == tail[i - head.len()]);
            }
        }
    } else {
        let ids = t.upper + t.lower;
        lemma_chained_tables(t.upper, levels[0], tables);
        lemma_table_parts(ids, tables);
    }
}

/// The tables of L0 and of a level are there.
proof fn lemma_chained_tables(
    l0: Seq<usize>,
    level: (usize, Seq<usize>),
    tables: Map<usize, Arc<SsTable>>,
)
    requires
        forall|i: int|
            0 <= i < l0.len() ==> tables.contains_key(#[trigger] l0[i]) && tables[l0[i]].wf(),
        lsm_storage::level_wf(level, tables),
    ensures
        forall|i: int|
            0 <= i < (l0 + level.1).len() ==> tables.contains_key(#[trigger] (l0 + level.1)[i])
                && tables[(l0 + level.1)[i]].wf(),
{
    let ids = l0 + level.1;
    let ts = lsm_storage::tables_of(level.1, tables);
    assert forall|i: int| 0 <= i < ids.len() implies tables.contains_key(#[trigger] ids[i])
        && tables[ids[i]].wf() by {
        if i < l0.len() {
            assert(ids[i] == l0[i]);
        } else {
            let j = i - l0.len();
            assert(ids[i] == level.1[j]);
            assert(ts[j] == tables[level.1[j]]);
            assert(ts[j].wf());
        }
    }
}

/// What is merged of L0 and the first level holds what they hold.
proof fn lemma_l0_task_lookup(
    before: LsmStorageInner,
    task: TaskView,
    t: LevelTaskView,
    k: KeyView,
)
    requires
        before.state.wf(),
        orderly::tables_plain(before.state.sstables@),
        before.state.levels@.len() > 0,
        task == TaskView::Simple(t) || task == TaskView::ForceFullCompaction(t.upper, t.lower),
        t.upper_level is None,
        t.upper == before.state.l0_sstables@,
        t.lower == before.state.levels_seq()[0].1,
    ensures
        iterators::lookup_all(compaction::task_parts(task, before.state.sstables@), k)
            == match iterators::lookup_all(
            lsm_storage::l0_parts(t.upper, before.state.sstables@),
            k,
        ) {
            Some(v) => Some(v),
            None => key::lookup(
                lsm_storage::level_entries(before.state.levels_seq()[0], before.state.sstables@),
                k,
            ),
        },
{
    let tables = before.state.sstables@;
    let layout = before.state.layout();
    let level = layout.levels[0];
    assert(layout.l0 == t.upper);
    assert(lsm_storage::level_wf(level, tables));
    lemma_table_parts(t.upper, tables);
    lemma_run_part(level, tables);
    let ps = compaction::task_parts(task, tables);
    let head = lsm_storage::l0_parts(t.upper, tables);
    if task is Simple {
        let tail = compaction::run_part(lsm_storage::tables_of(t.lower, tables));
        assert(ps =~= head + tail);
        read::lemma_lookup_all_concat(head, tail, k);
    } else {
        let ids = t.upper + t.lower;
        lemma_chained_tables(t.upper, level, tables);
        lemma_table_parts(ids, tables);
        let ts = lsm_storage::tables_of(level.1, tables);
        let tail = compaction::table_parts(ts);
        assert(ps =~= head + tail) by {
            assert(
                lsm_storage::tables_of(ids, tables) =~= lsm_storage::tables_of(t.upper, tables) + ts
            );
        }
        read::lemma_lookup_all_concat(head, tail, k);
        lemma_run_as_tables(ts, 0, k);
        assert(tail.skip(0) =~= tail);
    }
}

/// Two neighbouring levels are merged into the lower one: nothing changes of what is read.
#[verifier::rlimit(60)]
proof fn lemma_level_task_keeps(
    before: LsmStorageInner,
    after: LsmStorageInner,
    t: LevelTaskView,
    x: int,
    ssts: Seq<Arc<SsTable>>,
    watermark: u64,
    next: LayoutView,
)
    requires
        orderly::orderly(before),
        before.uses_l0(),
        0 <= x < before.state.levels@.len() - 1,
        t.upper_level is Some,
        t.upper == before.state.levels_seq()[x].1,
        t.lower == before.state.levels_seq()[x + 1].1,
        t.bottom ==> before.state.levels@.len() == x + 2,
        compacted(before, after, TaskView::Simple(t), ssts, watermark),
        next.l0 == before.state.l0_sstables@,
        next.levels.len() == before.state.levels@.len(),
        next.levels[x].1.len() == 0,
        next.levels[x + 1].1 == compaction::sst_ids(ssts),
        forall|i: int|
            0 <= i < before.state.levels@.len() && i != x && i != x + 1
                ==> #[trigger] next.levels[i] == before.state.levels_seq()[i],
    ensures
        lsm_storage::layout_wf(next, after.state.sstables@),
        orderly::places_apart(next),
        levels_kept(before.state.layout(), next, before.next_sst_id),
        concat_iterator::all_filled(ssts),
        forall|i: int| 0 <= i < ssts.len() ==> (#[trigger] ssts[i]).id == before.next_sst_id + i,
        key::plain_keys(concat_iterator::tables_from(ssts, 0)),
        forall|k: Seq<u8>|
            #![trigger key::user_key(k)]
            lsm_iterator::live(
                iterators::lookup_all(
                    before.state.mem_parts()
                        + lsm_storage::layout_parts(next, true, after.state.sstables@),
                    key::user_key(k),
                ),
            ) == lsm_iterator::live(before.find(key::user_key(k))),
{
    let task = TaskView::Simple(t);
    let tables = before.state.sstables@;
    let more = after.state.sstables@;
    let layout = before.state.layout();
    let levels = layout.levels;
    let gone = compact::task_ids(task);
    assert(lsm_storage::level_wf(levels[x], tables));
    assert(lsm_storage::level_wf(levels[x + 1], tables));
    lemma_run_part(levels[x], tables);
    lemma_run_part(levels[x + 1], tables);
    let head = compaction::run_part(lsm_storage::tables_of(t.upper, tables));
    let tail = compaction::run_part(lsm_storage::tables_of(t.lower, tables));
    let ps = compaction::task_parts(task, tables);
    assert(ps =~= head + tail);
    assert forall|i: int| 0 <= i < ps.len()
        implies key::sorted(#[trigger] ps[i]) && key::plain_keys(
        ps[i],
    ) by {
        if i < head.len() {
            assert(ps[i] == head[i]);
        } else {
            assert(ps[i] == tail[i - head.len()]);
        }
    }
    lemma_output_lookup(before, after, task, ssts, watermark);
    assert forall|i: int| 0 <= i < gone.len() implies tables.contains_key(#[trigger] gone[i]) by {
        if i < t.upper.len() {
            assert(gone[i] == t.upper[i]);
            assert(gone[i] == levels[x].1[i]);
        } else {
            assert(gone[i] == levels[x + 1].1[i - t.upper.len()]);
        }
    }
    lemma_tables_after(tables, ssts, gone, before.next_sst_id);
    lemma_output_level(next.levels[x + 1].0, ssts, more);
    assert forall|i: int| 0 <= i < next.levels.len() implies #[trigger] lsm_storage::level_wf(
        next.levels[i],
        more,
    ) && (i != x && i != x + 1
        ==> lsm_storage::level_entries(next.levels[i], more) == lsm_storage::level_entries(
        levels[i],
        tables,
    )) by {
        if i == x {
            assert(lsm_storage::tables_of(next.levels[x].1, more) =~= Seq::empty());
        } else if i == x + 1 {
            assert(next.levels[i] == (next.levels[i].0, compaction::sst_ids(ssts)));
        } else {
            assert(next.levels[i] == levels[i]);
            assert(lsm_storage::level_wf(levels[i], tables));
            assert(orderly::share_none(levels[i].1, gone)) by {
                assert(orderly::share_none(levels[i].1, levels[x].1));
                assert(orderly::share_none(levels[i].1, levels[x + 1].1));
                assert forall|id: usize| #[trigger] levels[i].1.contains(id) implies !gone.contains(
                    id,
                ) by {
                    if gone.contains(id) {
                        let y = choose|y: int| 0 <= y < gone.len() && gone[y] == id;
                        if y < t.upper.len() {
                            assert(levels[x].1[y] == id);
                        } else {
                            assert(levels[x + 1].1[y - t.upper.len()] == id);
                        }
                    }
                }
            }
            lemma_level_same(levels[i], tables, more, gone);
        }
    }
    assert forall|i: int| 0 <= i < next.l0.len() implies more.contains_key(#[trigger] next.l0[i])
        && more[next.l0[i]].wf() && more[next.l0[i]] == tables[layout.l0[i]] by {
        let id = layout.l0[i];
        assert(tables.contains_key(id) && tables[id].wf());
        if gone.contains(id) {
            let y = choose|y: int| 0 <= y < gone.len() && gone[y] == id;
            if y < t.upper.len() {
                assert(levels[x].1[y] == id);
                assert(levels[x].1.contains(id));
                assert(orderly::share_none(levels[x].1, layout.l0));
            } else {
                assert(levels[x + 1].1[y - t.upper.len()] == id);
                assert(levels[x + 1].1.contains(id));
                assert(orderly::share_none(levels[x + 1].1, layout.l0));
            }
        }
    }
    lemma_output_ids(ssts, before.next_sst_id);
    orderly::lemma_ids_used(layout, tables, before.next_sst_id);
    assert forall|i: int, id: usize|
        0 <= i < next.levels.len() && #[trigger] next.levels[i].1.contains(
            id,
        ) implies layout.levels[i].1.contains(id) || (i == x + 1 && before.next_sst_id <= id) by {
        if i != x && i != x + 1 {
            assert(next.levels[i] == levels[i]);
        }
    }
    orderly::lemma_places_apart(layout, next, x + 1, before.next_sst_id);
    let mems = before.state.mem_parts();
    let l0p = lsm_storage::l0_parts(layout.l0, tables);
    let runs = lsm_storage::level_parts(levels, tables);
    let a = mems + (l0p + runs.take(x));
    let b = runs.skip(x + 2);
    let out = concat_iterator::tables_from(ssts, 0);
    let m = seq![runs[x], runs[x + 1]];
    let none = Seq::<Entry>::empty();
    let n = seq![none, out];
    assert(before.state.parts(true) =~= a + m + b);
    let after_parts = mems + lsm_storage::layout_parts(next, true, more);
    assert(after_parts =~= a + n + b) by {
        let qs = lsm_storage::level_parts(next.levels, more);
        assert(lsm_storage::l0_parts(next.l0, more) =~= l0p);
        assert(qs =~= runs.take(x) + n + b) by {
            assert forall|i: int| 0 <= i < qs.len() implies qs[i] == (runs.take(x) + n + b)[i] by {
                assert(lsm_storage::level_wf(next.levels[i], more));
                if i == x {
                    assert(lsm_storage::tables_of(next.levels[x].1, more) =~= Seq::empty());
                    assert(qs[x] =~= none);
                }
            }
        }
    }
    assert forall|k: Seq<u8>|
        #![trigger key::user_key(k)]
        lsm_iterator::live(iterators::lookup_all(after_parts, key::user_key(k)))
            == lsm_iterator::live(before.find(key::user_key(k))) by {
        let kv = key::user_key(k);
        read::lemma_lookup_all_concat(head, tail, kv);
        assert(m.drop_first() =~= seq![runs[x + 1]]);
        assert(n.drop_first() =~= seq![out]);
        lemma_lookup_all_one(runs[x + 1], kv);
        lemma_lookup_all_one(out, kv);
        assert(runs[x] == lsm_storage::level_entries(levels[x], tables));
        assert(runs[x + 1] == lsm_storage::level_entries(levels[x + 1], tables));
        if t.bottom {
            assert(b =~= Seq::empty());
        }
        lemma_replace_parts(a, m, n, b, t.bottom, kv);
    }
}

/// A simple leveled compaction does not change what is read, where all keys are plain user keys:
/// the engine stays orderly, and every key has the value that it had. `after` is the engine
/// once the task that the controller asked for has been carried out and its result put into use.
pub proof fn law_simple_compaction_keeps(
    before: LsmStorageInner,
    after: LsmStorageInner,
    ratio_below: Seq<bool>,
    t: LevelTaskView,
    ssts: Seq<Arc<SsTable>>,
    watermark: u64,
)
    requires
        orderly::orderly(before),
        before.compaction_controller is Simple,
        before.state.levels@.len()
            == before.compaction_controller->Simple_0.options.max_levels,
        before.compaction_controller->Simple_0.generates(&before.state, ratio_below, Some(t)),
        before.state.levels@.len() > 0,
        compacted(before, after, TaskView::Simple(t), ssts, watermark),
        compaction::finished_layout(
            before.compaction_controller,
            before.state.layout(),
            TaskView::Simple(t),
            compaction::sst_ids(ssts),
            after.state.sstables@,
        ) == Ok::<LayoutView, LsmError>(after.state.layout()),
    ensures
        orderly::orderly(after),
        forall|k: Seq<u8>|
            lsm_iterator::live(#[trigger] after.find(key::user_key(k)))
                == lsm_iterator::live(before.find(key::user_key(k))),
{
    let ctrl = before.compaction_controller->Simple_0;
    let task = TaskView::Simple(t);
    let tables = before.state.sstables@;
    let more = after.state.sstables@;
    let layout = before.state.layout();
    let levels = layout.levels;
    let output = compaction::sst_ids(ssts);
    let next = simple_leveled::simple_layout_after(layout, t, output);
    assert forall|i: int| 0 <= i < t.upper.len()
        implies t.upper.contains(#[trigger] t.upper[i]) by {}
    assert forall|i: int| 0 <= i < t.lower.len()
        implies t.lower.contains(#[trigger] t.lower[i]) by {}
    lemma_without_all(t.upper, t.upper);
    lemma_without_all(t.lower, t.lower);
    assert(Seq::<usize>::empty() + output =~= output);
    if ctrl.l0_triggers(&before.state) {
        assert(next.levels[0] == (levels[0].0, output));
        assert forall|i: int| 0 < i < levels.len() implies #[trigger] next.levels[i]
            == levels[i] by {}
        lemma_l0_task_keeps(before, after, task, t, ssts, watermark, next);
    } else {
        let x = choose|x: int|
            {
                &&& 0 <= x < ctrl.options.max_levels - 1
                &&& #[trigger] simple_leveled::ratio_triggers(levels, ratio_below, x)
                &&& forall|j: int|
                    0 <= j < x
                        ==> !#[trigger] simple_leveled::ratio_triggers(levels, ratio_below, j)
                &&& t == simple_leveled::ratio_task(levels, ctrl.options.max_levels, x)
            };
        assert(next.levels[x].1 == Seq::<usize>::empty());
        assert(next.levels[x + 1] == (levels[x + 1].0, output));
        assert forall|i: int|
            0 <= i < levels.len() && i != x && i != x + 1 implies #[trigger] next.levels[i]
            == levels[i] by {}
        lemma_level_task_keeps(before, after, t, x, ssts, watermark, next);
    }
    lemma_sorted_levels_same(next.levels, more);
    assert(after.state.layout() =~= next);
    lemma_compacted_orderly(before, after, task, ssts, watermark);
}

/// A full compaction does not change what is read, where all keys are plain user keys and the
/// levels below the first one are empty: the engine stays orderly, and every key has the value
/// that it had.
pub proof fn law_full_compaction_keeps(
    before: LsmStorageInner,
    after: LsmStorageInner,
    ssts: Seq<Arc<SsTable>>,
    watermark: u64,
)
    requires
        orderly::orderly(before),
        before.uses_l0(),
        before.state.levels@.len() > 0,
        forall|i: int|
            0 < i < before.state.levels@.len() ==> (#[trigger] before.state.levels_seq()[i]).1.len()
                == 0,
        ({
            let task = TaskView::ForceFullCompaction(
                before.state.l0_sstables@,
                before.state.levels_seq()[0].1,
            );
            &&& compacted(before, after, task, ssts, watermark)
            &&& after.state.layout()
                == compact::layout_after(before.state.layout(), task, compaction::sst_ids(ssts))
        }),
    ensures
        orderly::orderly(after),
        forall|k: Seq<u8>|
            lsm_iterator::live(#[trigger] after.find(key::user_key(k)))
                == lsm_iterator::live(before.find(key::user_key(k))),
{
    let l0 = before.state.l0_sstables@;
    let t = LevelTaskView {
        upper_level: None,
        upper: l0,
        lower_level: 1,
        lower: before.state.levels_seq()[0].1,
        bottom: true,
    };
    let task = TaskView::ForceFullCompaction(t.upper, t.lower);
    assert forall|i: int| 0 <= i < l0.len() implies l0.contains(#[trigger] l0[i]) by {}
    lemma_without_all(l0, l0);
    let one = after.state.layout();
    let more = after.state.sstables@;
    let deeper = before.state.levels_seq().skip(1);
    assert(one.levels =~= seq![(1usize, compaction::sst_ids(ssts))]);
    let next = LayoutView { l0: one.l0, levels: one.levels + deeper };
    lemma_l0_task_keeps(before, after, task, t, ssts, watermark, next);
    assert(next.levels[0] == one.levels[0]);
    assert(lsm_storage::level_wf(next.levels[0], more));
    assert(orderly::share_none(next.levels[0].1, next.l0));
    assert forall|id: usize| #[trigger] one.levels[0].1.contains(
        id,
    ) implies before.state.layout().levels[0].1.contains(id) || before.next_sst_id <= id by {
        assert(next.levels[0].1.contains(id));
    }
    lemma_compacted_orderly(before, after, task, ssts, watermark);
    let empty = lsm_storage::level_parts(deeper, more);
    assert forall|i: int| 0 <= i < empty.len() implies (#[trigger] empty[i]).len() == 0 by {
        assert(before.state.levels_seq()[i + 1].1.len() == 0);
        assert(lsm_storage::tables_of(deeper[i].1, more) =~= Seq::empty());
    }
    let mems = before.state.mem_parts();
    let parts = lsm_storage::layout_parts(one, true, more);
    assert(lsm_storage::layout_parts(next, true, more) =~= parts + empty);
    assert(after.state.parts(true) =~= mems + parts);
    assert forall|k: Seq<u8>| lsm_iterator::live(#[trigger] after.find(key::user_key(k)))
        == lsm_iterator::live(
        before.find(key::user_key(k)),
    ) by {
        let kv = key::user_key(k);
        read::lemma_no_entries(empty, kv);
        read::lemma_lookup_all_concat(mems + parts, empty, kv);
        assert(mems + lsm_storage::layout_parts(next, true, more) =~= mems + parts + empty);
    }
}

/// A table of a tier is one of the tables of all tiers, and the other way round.
proof fn lemma_tier_member(tiers: Seq<(usize, Seq<usize>)>, id: usize)
    ensures
        tiered::tier_ids(tiers).contains(id) <==> exists|j: int|
            0 <= j < tiers.len() && (#[trigger] tiers[j]).1.contains(id),
    decreases tiers.len(),
{
    if tiers.len() > 0 {
        let front = tiers.drop_last();
        let all = tiered::tier_ids(front);
        let ids = tiers.last().1;
        lemma_tier_member(front, id);
        if tiered::tier_ids(tiers).contains(id) {
            let x = choose|x: int| 0 <= x < tiered::tier_ids(tiers).len()
                && tiered::tier_ids(tiers)[x] == id;
            if x < all.len() {
                assert(all[x] == id);
                let j = choose|j: int| 0 <= j < front.len() && (#[trigger] front[j]).1.contains(id);
                assert(tiers[j].1.contains(id));
            } else {
                assert(ids[x - all.len()] == id);
                assert(tiers[tiers.len() - 1].1.contains(id));
            }
        }
        if exists|j: int| 0 <= j < tiers.len() && (#[trigger] tiers[j]).1.contains(id) {
            let j = choose|j: int| 0 <= j < tiers.len() && (#[trigger] tiers[j]).1.contains(id);
            if j < tiers.len() - 1 {
                assert(front[j].1.contains(id));
                let x = choose|x: int| 0 <= x < all.len() && all[x] == id;
                assert(tiered::tier_ids(tiers)[x] == id);
            } else {
                let x = choose|x: int| 0 <= x < ids.len() && ids[x] == id;
                assert(tiered::tier_ids(tiers)[all.len() + x] == id);
            }
        }
    }
}

/// The tables of tiers one by one hold what the tiers hold.
proof fn lemma_tier_tables(tiers: Seq<(usize, Seq<usize>)>, tables: Map<usize, Arc<SsTable>>)
    requires
        forall|i: int| 0 <= i < tiers.len() ==> #[trigger] lsm_storage::level_wf(tiers[i], tables),
    ensures
        forall|i: int|
            0 <= i < tiered::tier_ids(tiers).len()
                ==> tables.contains_key(#[trigger] tiered::tier_ids(tiers)[i])
                && tables[tiered::tier_ids(tiers)[i]].wf(),
        forall|k: KeyView| #[trigger]
            iterators::lookup_all(lsm_storage::l0_parts(tiered::tier_ids(tiers), tables), k)
                == iterators::lookup_all(
                lsm_storage::level_parts(tiers, tables),
                k,
            ),
    decreases tiers.len(),
{
    if tiers.len() > 0 {
        let front = tiers.drop_last();
        let all = tiered::tier_ids(front);
        let level = tiers.last();
        let ids = tiered::tier_ids(tiers);
        assert forall|i: int| 0 <= i < front.len() implies #[trigger] lsm_storage::level_wf(
            front[i],
            tables,
        ) by {
            assert(lsm_storage::level_wf(tiers[i], tables));
        }
        lemma_tier_tables(front, tables);
        assert(lsm_storage::level_wf(tiers[tiers.len() - 1], tables));
        lemma_chained_tables(all, level, tables);
        assert forall|k: KeyView| #[trigger] iterators::lookup_all(
            lsm_storage::l0_parts(ids, tables),
            k,
        ) == iterators::lookup_all(
            lsm_storage::level_parts(tiers, tables),
            k,
        ) by {
            let ts = lsm_storage::tables_of(level.1, tables);
            let tail = compaction::table_parts(ts);
            assert(
                lsm_storage::l0_parts(ids, tables) =~= lsm_storage::l0_parts(all, tables) + tail
            );
            read::lemma_lookup_all_concat(lsm_storage::l0_parts(all, tables), tail, k);
            lemma_run_as_tables(ts, 0, k);
            assert(tail.skip(0) =~= tail);
            let last = lsm_storage::level_entries(level, tables);
            assert(
                lsm_storage::level_parts(tiers, tables)
                    =~= lsm_storage::level_parts(front, tables) + seq![last]
            );
            read::lemma_lookup_all_concat(lsm_storage::level_parts(front, tables), seq![last], k);
            lemma_lookup_all_one(last, k);
        }
    } else {
        assert(
            lsm_storage::l0_parts(tiered::tier_ids(tiers), tables)
                =~= lsm_storage::level_parts(tiers, tables)
        );
    }
}

/// Where the first levels are the tiers of a task, the levels that stay hold what the levels after
/// the tiers hold.
proof fn lemma_other_levels(
    levels: Seq<(usize, Seq<usize>)>,
    w: int,
    n: int,
    tables: Map<usize, Arc<SsTable>>,
)
    requires
        0 <= w <= levels.len(),
        0 <= n <= levels.len(),
        forall|i: int, j: int|
            0 <= i < levels.len() && 0 <= j < levels.len() && i != j ==> orderly::share_none(
                (#[trigger] levels[i]).1,
                (#[trigger] levels[j]).1,
            ),
        forall|i: int| w <= i < levels.len()
            ==> #[trigger] lsm_storage::level_wf(levels[i], tables),
    ensures
        ({
            let others = tiered::other_levels(levels.take(n), levels.take(w));
            &&& forall|i: int| 0 <= i < others.len()
                ==> #[trigger] lsm_storage::level_wf(others[i], tables)
            &&& forall|i: int|
                0 <= i < others.len() ==> exists|x: int|
                    0 <= x < n && levels[x] == #[trigger] others[i]
            &&& forall|i: int, j: int|
                0 <= i < others.len() && 0 <= j < others.len() && i != j ==> orderly::share_none(
                    (#[trigger] others[i]).1,
                    (#[trigger] others[j]).1,
                )
            &&& n <= w ==> others.len() == 0
            &&& n >= w ==> forall|k: KeyView| #[trigger]
                iterators::lookup_all(lsm_storage::level_parts(others, tables), k)
                    == iterators::lookup_all(
                    lsm_storage::level_parts(levels.subrange(w, n), tables),
                    k,
                )
        }),
    decreases n,
{
    let tiers = levels.take(w);
    let others = tiered::other_levels(levels.take(n), tiers);
    if n == 0 {
        assert(levels.take(n) =~= Seq::empty());
        if w == 0 {
            assert(levels.subrange(w, n) =~= others);
        }
    } else {
        lemma_other_levels(levels, w, n - 1, tables);
        let before = tiered::other_levels(levels.take(n - 1), tiers);
        let level = levels[n - 1];
        assert(levels.take(n).drop_last() =~= levels.take(n - 1));
        assert(levels.take(n).last() == level);
        assert forall|i: int| 0 <= i < others.len() implies exists|x: int|
            0 <= x < n && levels[x] == #[trigger] others[i] by {
            if i < before.len() {
                assert(others[i] == before[i]);
                let x = choose|x: int| 0 <= x < n - 1 && levels[x] == before[i];
                assert(levels[x] == others[i]);
            } else {
                assert(levels[n - 1] == others[i]);
            }
        }
        assert forall|i: int, j: int|
            0 <= i < others.len() && 0 <= j < others.len() && i != j implies orderly::share_none(
            (#[trigger] others[i]).1,
            (#[trigger] others[j]).1,
        ) by {
            if i < before.len() && j < before.len() {
                assert(orderly::share_none(before[i].1, before[j].1));
            } else if i < before.len() {
                let x = choose|x: int| 0 <= x < n - 1 && levels[x] == before[i];
                assert(orderly::share_none(levels[x].1, levels[n - 1].1));
            } else {
                let x = choose|x: int| 0 <= x < n - 1 && levels[x] == before[j];
                assert(orderly::share_none(levels[n - 1].1, levels[x].1));
            }
        }
        if n <= w {
            assert(tiers[n - 1].1 == level.1);
            assert(tiered::holds_tier(tiers, level.1));
            if n == w {
                assert(levels.subrange(w, n) =~= others);
            }
        } else {
            assert(lsm_storage::level_wf(level, tables));
            let last = lsm_storage::level_entries(level, tables);
            let ps = lsm_storage::level_parts(levels.subrange(w, n - 1), tables);
            if tiered::holds_tier(tiers, level.1) {
                let j = choose|j: int| 0 <= j < tiers.len() && (#[trigger] tiers[j]).1 == level.1;
                assert(levels[j].1 == level.1);
                assert(level.1.len() == 0) by {
                    if level.1.len() > 0 {
                        assert(orderly::share_none(levels[j].1, levels[n - 1].1));
                        assert(level.1.contains(level.1[0]));
                    }
                }
                assert(lsm_storage::tables_of(level.1, tables) =~= Seq::empty());
            }
            assert forall|k: KeyView| #[trigger]
                iterators::lookup_all(lsm_storage::level_parts(others, tables), k)
                    == iterators::lookup_all(
                    lsm_storage::level_parts(levels.subrange(w, n), tables),
                    k,
                ) by {
                assert(lsm_storage::level_parts(levels.subrange(w, n), tables) =~= ps + seq![last]);
                read::lemma_lookup_all_concat(ps, seq![last], k);
                lemma_lookup_all_one(last, k);
                if !tiered::holds_tier(tiers, level.1) {
                    let qs = lsm_storage::level_parts(before, tables);
                    assert(lsm_storage::level_parts(others, tables) =~= qs + seq![last]);
                    read::lemma_lookup_all_concat(qs, seq![last], k);
                }
            }
        }
    }
}

/// Where the first level is a tier of a task, it is the first one that is.
proof fn lemma_first_tier(
    levels: Seq<(usize, Seq<usize>)>,
    tiers: Seq<(usize, Seq<usize>)>,
)
    requires
        levels.len() > 0,
        tiered::holds_tier(tiers, levels[0].1),
    ensures
        tiered::first_tier(levels, tiers) == 0,
    decreases levels.len(),
{
    if levels.len() > 1 {
        assert(levels.drop_last()[0] == levels[0]);
        lemma_first_tier(levels.drop_last(), tiers);
    }
}

/// Where levels that stay follow a new level, no table stands in two places.
proof fn lemma_tiers_apart(
    layout: LayoutView,
    others: Seq<(usize, Seq<usize>)>,
    output: Seq<usize>,
    first: usize,
    next: LayoutView,
)
    requires
        orderly::places_apart(layout),
        forall|id: usize| #[trigger] layout.l0.contains(id) ==> id < first,
        forall|i: int, id: usize|
            0 <= i < layout.levels.len() && #[trigger] layout.levels[i].1.contains(id) ==> id
                < first,
        forall|id: usize| #[trigger] output.contains(id) ==> first <= id,
        forall|i: int|
            0 <= i < others.len() ==> exists|x: int|
                0 <= x < layout.levels.len() && layout.levels[x] == #[trigger] others[i],
        forall|i: int, j: int|
            0 <= i < others.len() && 0 <= j < others.len() && i != j ==> orderly::share_none(
                (#[trigger] others[i]).1,
                (#[trigger] others[j]).1,
            ),
        next.l0 == layout.l0,
        next.levels == if output.len() == 0 {
            others
        } else {
            others.insert(0, (output[0], output))
        },
    ensures
        orderly::places_apart(next),
{
    let d = if output.len() == 0 {
        0int
    } else {
        1
    };
    assert forall|i: int| 0 <= i < next.levels.len() implies {
        ||| i == 0 && (#[trigger] next.levels[i]).1 == output
        ||| 0 <= i - d < others.len() && next.levels[i] == others[i - d] && exists|x: int|
            0 <= x < layout.levels.len() && layout.levels[x] == next.levels[i]
    } by {
        if i >= d {
            assert(next.levels[i] == others[i - d]);
        }
    }
    assert forall|i: int, j: int|
        0 <= i < next.levels.len() && 0 <= j < next.levels.len() && i != j
            implies orderly::share_none(
        (#[trigger] next.levels[i]).1,
        (#[trigger] next.levels[j]).1,
    ) by {
        if i >= d && j >= d {
            assert(next.levels[i] == others[i - d] && next.levels[j] == others[j - d]);
            assert(orderly::share_none(others[i - d].1, others[j - d].1));
        } else {
            let k = if i >= d {
                i
            } else {
                j
            };
            assert(next.levels[k] == others[k - d]);
            let x = choose|x: int| 0 <= x < layout.levels.len()
                && layout.levels[x] == others[k - d];
            assert forall|id: usize| #[trigger] next.levels[i].1.contains(
                id,
            ) implies !next.levels[j].1.contains(id) by {
                if next.levels[j].1.contains(id) {
                    assert(layout.levels[x].1.contains(id));
                    assert(output.contains(id));
                }
            }
        }
    }
    assert forall|i: int| 0 <= i < next.levels.len() implies orderly::share_none(
        (#[trigger] next.levels[i]).1,
        next.l0,
    ) by {
        if i >= d {
            assert(next.levels[i] == others[i - d]);
            let x = choose|x: int| 0 <= x < layout.levels.len()
                && layout.levels[x] == others[i - d];
            assert(orderly::share_none(layout.levels[x].1, layout.l0));
        } else {
            assert forall|id: usize| #[trigger] next.levels[i].1.contains(
                id,
            ) implies !next.l0.contains(id) by {
                assert(output.contains(id));
            }
        }
    }
}

/// The tiers that a task does not merge, and L0, are as they were.
#[verifier::spinoff_prover]
#[verifier::rlimit(40)]
proof fn lemma_tiers_stay(
    layout: LayoutView,
    tables: Map<usize, Arc<SsTable>>,
    w: int,
    ssts: Seq<Arc<SsTable>>,
    first: usize,
)
    requires
        lsm_storage::layout_wf(layout, tables),
        orderly::places_apart(layout),
        0 <= w <= layout.levels.len(),
        orderly::unused_from(tables, first),
        first + ssts.len() <= usize::MAX,
        forall|i: int| 0 <= i < ssts.len() ==> (#[trigger] ssts[i]).id == first + i,
    ensures
        ({
            let more = tables_after(tables, ssts, tiered::tier_ids(layout.levels.take(w)));
            &&& forall|i: int|
                w <= i < layout.levels.len()
                    ==> #[trigger] lsm_storage::level_wf(layout.levels[i], more)
                    && lsm_storage::level_entries(layout.levels[i], more)
                        == lsm_storage::level_entries(
                    layout.levels[i],
                    tables,
                )
            &&& forall|i: int|
                0 <= i < layout.l0.len() ==> more.contains_key(#[trigger] layout.l0[i])
                    && more[layout.l0[i]].wf()
            &&& forall|i: int|
                0 <= i < ssts.len() ==> more.contains_key((#[trigger] ssts[i]).id)
                    && more[ssts[i].id] == ssts[i]
        }),
{
    let levels = layout.levels;
    let tiers = levels.take(w);
    let gone = tiered::tier_ids(tiers);
    let more = tables_after(tables, ssts, gone);
    assert forall|i: int| 0 <= i < tiers.len()
        implies #[trigger] lsm_storage::level_wf(tiers[i], tables) by {
        assert(lsm_storage::level_wf(levels[i], tables));
    }
    lemma_tier_tables(tiers, tables);
    lemma_tables_after(tables, ssts, gone, first);
    assert forall|i: int| w <= i < levels.len()
        implies #[trigger] lsm_storage::level_wf(levels[i], more)
        && lsm_storage::level_entries(levels[i], more)
            == lsm_storage::level_entries(levels[i], tables) by {
        assert(lsm_storage::level_wf(levels[i], tables));
        assert forall|id: usize| #[trigger] levels[i].1.contains(id) implies !gone.contains(id) by {
            lemma_tier_member(tiers, id);
            if gone.contains(id) {
                let j = choose|j: int| 0 <= j < tiers.len() && (#[trigger] tiers[j]).1.contains(id);
                assert(orderly::share_none(levels[j].1, levels[i].1));
                assert(levels[j].1.contains(id));
            }
        }
        assert(orderly::share_none(levels[i].1, gone));
        lemma_level_same(levels[i], tables, more, gone);
    }
    assert forall|i: int| 0 <= i < layout.l0.len() implies more.contains_key(
        #[trigger] layout.l0[i],
    ) && more[layout.l0[i]].wf() by {
        let id = layout.l0[i];
        assert(tables.contains_key(id) && tables[id].wf());
        lemma_tier_member(tiers, id);
        if gone.contains(id) {
            let j = choose|j: int| 0 <= j < tiers.len() && (#[trigger] tiers[j]).1.contains(id);
            assert(orderly::share_none(levels[j].1, layout.l0));
            assert(levels[j].1.contains(id));
        }
    }
}

/// The tiers after a task: they are well-formed and apart, and hold what came of the task before
/// what the other tiers hold.
#[verifier::spinoff_prover]
#[verifier::rlimit(40)]
proof fn lemma_tiers_next(
    layout: LayoutView,
    tables: Map<usize, Arc<SsTable>>,
    w: int,
    ssts: Seq<Arc<SsTable>>,
    first: usize,
)
    requires
        lsm_storage::layout_wf(layout, tables),
        orderly::places_apart(layout),
        0 < w <= layout.levels.len(),
        orderly::unused_from(tables, first),
        first + ssts.len() <= usize::MAX,
        forall|i: int| 0 <= i < ssts.len() ==> (#[trigger] ssts[i]).id == first + i,
        concat_iterator::run_wf(ssts),
    ensures
        ({
            let tiers = layout.levels.take(w);
            let more = tables_after(tables, ssts, tiered::tier_ids(tiers));
            let next = tiered::tiered_layout_after(layout, tiers, compaction::sst_ids(ssts));
            &&& lsm_storage::layout_wf(next, more)
            &&& orderly::places_apart(next)
            &&& forall|k: KeyView| #[trigger]
                iterators::lookup_all(lsm_storage::layout_parts(next, false, more), k)
                    == match key::lookup(
                    concat_iterator::tables_from(ssts, 0),
                    k,
                ) {
                    Some(v) => Some(v),
                    None => iterators::lookup_all(
                        lsm_storage::level_parts(layout.levels.skip(w), tables),
                        k,
                    ),
                }
        }),
{
    let levels = layout.levels;
    let n = levels.len() as int;
    let tiers = levels.take(w);
    let output = compaction::sst_ids(ssts);
    let more = tables_after(tables, ssts, tiered::tier_ids(tiers));
    let next = tiered::tiered_layout_after(layout, tiers, output);
    let others = tiered::other_levels(levels, tiers);
    lemma_tiers_stay(layout, tables, w, ssts, first);
    assert(levels.take(n) =~= levels);
    lemma_other_levels(levels, w, n, more);
    assert(levels.subrange(w, n) =~= levels.skip(w));
    assert(tiered::holds_tier(tiers, levels[0].1)) by {
        assert(tiers[0] == levels[0]);
    }
    lemma_first_tier(levels, tiers);
    if output.len() > 0 {
        lemma_output_level(output[0], ssts, more);
    }
    assert forall|i: int| 0 <= i < next.levels.len() implies #[trigger] lsm_storage::level_wf(
        next.levels[i],
        more,
    ) by {
        if output.len() == 0 {
            assert(next.levels[i] == others[i]);
        } else if i > 0 {
            assert(next.levels[i] == others[i - 1]);
        }
    }
    lemma_output_ids(ssts, first);
    orderly::lemma_ids_used(layout, tables, first);
    lemma_tiers_apart(layout, others, output, first, next);
    let b = lsm_storage::level_parts(levels.skip(w), tables);
    assert(b =~= lsm_storage::level_parts(levels.skip(w), more)) by {
        assert forall|i: int| 0 <= i < b.len() implies b[i] == lsm_storage::level_parts(
            levels.skip(w),
            more,
        )[i] by {
            assert(lsm_storage::level_wf(levels[w + i], more));
        }
    }
    let rest = lsm_storage::level_parts(others, more);
    let out = concat_iterator::tables_from(ssts, 0);
    let parts = lsm_storage::layout_parts(next, false, more);
    if output.len() == 0 {
        assert(parts =~= rest);
        assert(out =~= Seq::empty());
    } else {
        assert(parts =~= seq![out] + rest);
    }
    assert forall|k: KeyView| #[trigger] iterators::lookup_all(parts, k)
        == match key::lookup(out, k) {
        Some(v) => Some(v),
        None => iterators::lookup_all(b, k),
    } by {
        lemma_lookup_all_one(out, k);
        read::lemma_lookup_all_concat(seq![out], rest, k);
    }
}

/// A tiered compaction does not change what is read, where all keys are plain user keys: the
/// engine stays well-formed, and every key has the value that it had. `after` is the engine once
/// the task that the controller asked for has been carried out and its result put into use.
#[verifier::spinoff_prover]
#[verifier::rlimit(30)]
pub proof fn law_tiered_compaction_keeps(
    before: LsmStorageInner,
    after: LsmStorageInner,
    amplified: bool,
    ratio_exceeded: Seq<bool>,
    tiers: Seq<(usize, Seq<usize>)>,
    bottom: bool,
    ssts: Seq<Arc<SsTable>>,
    watermark: u64,
)
    requires
        orderly::orderly(before),
        before.compaction_controller is Tiered,
        before.compaction_controller->Tiered_0.generates(
            &before.state,
            amplified,
            ratio_exceeded,
            Some((tiers, bottom)),
        ),
        compacted(before, after, TaskView::Tiered(tiers, bottom), ssts, watermark),
        compaction::finished_layout(
            before.compaction_controller,
            before.state.layout(),
            TaskView::Tiered(tiers, bottom),
            compaction::sst_ids(ssts),
            after.state.sstables@,
        ) == Ok::<LayoutView, LsmError>(after.state.layout()),
    ensures
        orderly::orderly(after),
        forall|k: Seq<u8>|
            lsm_iterator::live(#[trigger] after.find(key::user_key(k)))
                == lsm_iterator::live(before.find(key::user_key(k))),
{
    let task = TaskView::Tiered(tiers, bottom);
    let tables = before.state.sstables@;
    let more = after.state.sstables@;
    let layout = before.state.layout();
    let levels = layout.levels;
    let n = levels.len() as int;
    let w = tiers.len() as int;
    let gone = tiered::tier_ids(tiers);
    let next = after.state.layout();
    assert(0 < w <= n && tiers =~= levels.take(w) && (bottom ==> w == n));
    assert forall|i: int| 0 <= i < tiers.len()
        implies #[trigger] lsm_storage::level_wf(tiers[i], tables) by {
        assert(lsm_storage::level_wf(levels[i], tables));
    }
    lemma_tier_tables(tiers, tables);
    lemma_table_parts(gone, tables);
    assert(compaction::task_parts(task, tables) == lsm_storage::l0_parts(gone, tables));
    lemma_output_lookup(before, after, task, ssts, watermark);
    lemma_tiers_next(layout, tables, w, ssts, before.next_sst_id);
    lemma_compacted_orderly(before, after, task, ssts, watermark);
    let mems = before.state.mem_parts();
    let m = lsm_storage::level_parts(tiers, tables);
    let b = lsm_storage::level_parts(levels.skip(w), tables);
    let parts = lsm_storage::layout_parts(next, false, more);
    assert(before.state.parts(false) =~= mems + (m + b));
    assert(after.state.parts(false) =~= mems + parts);
    assert forall|k: Seq<u8>| lsm_iterator::live(#[trigger] after.find(key::user_key(k)))
        == lsm_iterator::live(
        before.find(key::user_key(k)),
    ) by {
        let kv = key::user_key(k);
        read::lemma_lookup_all_concat(mems, m + b, kv);
        read::lemma_lookup_all_concat(m, b, kv);
        read::lemma_lookup_all_concat(mems, parts, kv);
        if bottom {
            assert(b =~= Seq::empty());
        }
    }
}

/// The tables that come of a compaction show a reader at or above the watermark what was merged:
/// of every user key the value that the reader saw, or none. Where something lies below them, they
/// also keep the deletions that such a reader meets. `es` are the entries that were merged.
pub proof fn law_output_keeps_snapshots(
    es: Seq<Entry>,
    to_bottom: bool,
    watermark: u64,
    ssts: Seq<Arc<SsTable>>,
    first: usize,
    block_size: usize,
    target: usize,
    k: Seq<u8>,
    ts: u64,
)
    requires
        key::sorted(es),
        watermark <= ts,
        first + ssts.len() <= usize::MAX,
        ({
            let groups = retention::split_tables(
                retention::kept(es, to_bottom, watermark, Seq::empty(), false),
                Seq::empty(),
                block_size,
                target,
            );
            compaction::all_built(ssts, first, groups, block_size)
                && output_fits(groups, block_size)
        }),
    ensures
        concat_iterator::run_wf(ssts),
        lsm_iterator::live(lsm_iterator::snapshot(concat_iterator::tables_from(ssts, 0), k, ts))
            == lsm_iterator::live(lsm_iterator::snapshot(es, k, ts)),
        !to_bottom
            ==> lsm_iterator::snapshot(concat_iterator::tables_from(ssts, 0), k, ts)
                == lsm_iterator::snapshot(es, k, ts),
{
    retention::law_compaction_keeps_snapshots(es, to_bottom, watermark, k, ts);
    lemma_output_run(
        ssts,
        first,
        retention::kept(es, to_bottom, watermark, Seq::empty(), false),
        block_size,
        target,
    );
}

} // verus!
