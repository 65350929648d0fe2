//! That leveled compaction does not change what is read.
use crate::compact::{self, LevelTaskView, TaskView};
use crate::compact::leveled;
use crate::error::LsmError;
use crate::iterators;
use crate::iterators::concat_iterator;
use crate::key::{self, Entry, KeyView, TS_DEFAULT};
use crate::lsm_iterator;
use crate::lsm_storage::{self, LayoutView, LsmStorageInner};
use crate::lsm_storage::compaction;
use crate::lsm_storage::compaction_laws;
use crate::lsm_storage::orderly;
use crate::lsm_storage::read;
use crate::table::SsTable;
use std::sync::Arc;
use vstd::prelude::*;

verus! {

/// The key ranges of two tables do not touch.
pub open spec fn apart(a: &SsTable, b: &SsTable) -> bool {
    key::key_lt(a.last_key@, b.first_key@) || key::key_lt(b.last_key@, a.first_key@)
}

/// The tables are there and well-formed, none occurs twice, and no two have key ranges that touch.
/// If there are several, each holds an entry.
pub open spec fn spread(ids: Seq<usize>, tables: Map<usize, Arc<SsTable>>) -> bool {
    &&& ids.no_duplicates()
    &&& forall|id: usize| #[trigger] ids.contains(id) ==> tables.contains_key(id) && tables[id].wf()
    &&& forall|a: usize, b: usize| #[trigger]
        ids.contains(a) && #[trigger] ids.contains(b) && a != b ==> apart(&*tables[a], &*tables[b])
    &&& ids.len() > 1 ==> orderly::filled(ids, tables)
}

/// The value that tables, looked at one by one, hold for a key.
pub open spec fn found(ids: Seq<usize>, tables: Map<usize, Arc<SsTable>>, k: KeyView) -> Option<
    Seq<u8>,
> {
    iterators::lookup_all(lsm_storage::l0_parts(ids, tables), k)
}

/// A key that a table holds lies in its key range; its first and its last key are such keys.
proof fn lemma_key_range(t: &SsTable, k: KeyView)
    requires
        t.wf(),
    ensures
        key::lookup(t.entries(), k) is Some
            ==> key::key_le(t.first_key@, k) && key::key_le(k, t.last_key@),
        t.entries().len() > 0 && (k == t.first_key@ || k == t.last_key@) ==> key::lookup(
            t.entries(),
            k,
        ) is Some,
        key::key_le(t.first_key@, t.last_key@),
{
    broadcast use key::group_key_order;

    let es = t.entries();
    key::lemma_lookup(es, k);
    let n = es.len() as int;
    if n > 0 {
        assert(es[n - 1] == es.last());
    }
    if key::lookup(es, k) is Some {
        let i = choose|i: int| 0 <= i < es.len() && #[trigger] es[i].key == k;
        if i > 0 {
            assert(key::key_lt(es[0].key, es[i].key));
        }
        if i < n - 1 {
            assert(key::key_lt(es[i].key, es[n - 1].key));
        }
    }
    if n > 1 {
        assert(key::key_lt(es[0].key, es[n - 1].key));
    }
}

/// What is found is found in one of the tables.
proof fn lemma_found_where(ids: Seq<usize>, tables: Map<usize, Arc<SsTable>>, k: KeyView)
    ensures
        found(ids, tables, k) is Some ==> exists|id: usize| #[trigger]
            ids.contains(id) && key::lookup(tables[id].entries(), k) == found(ids, tables, k),
        found(ids, tables, k) is None ==> forall|id: usize| #[trigger]
            ids.contains(id) ==> key::lookup(tables[id].entries(), k) is None,
    decreases ids.len(),
{
    let ps = lsm_storage::l0_parts(ids, tables);
    if ids.len() > 0 {
        let t = ids.drop_first();
        assert(ps.drop_first() =~= lsm_storage::l0_parts(t, tables));
        lemma_found_where(t, tables, k);
        assert(ids.contains(ids[0]));
        if key::lookup(ps[0], k) is None {
            if found(ids, tables, k) is Some {
                let id = choose|id: usize| #[trigger]
                    t.contains(id) && key::lookup(tables[id].entries(), k) == found(t, tables, k);
                let i = choose|i: int| 0 <= i < t.len() && t[i] == id;
                assert(ids[i + 1] == id);
                assert(ids.contains(id));
            } else {
                assert forall|id: usize| #[trigger] ids.contains(id) implies key::lookup(
                    tables[id].entries(),
                    k,
                ) is None by {
                    let i = choose|i: int| 0 <= i < ids.len() && ids[i] == id;
                    if i > 0 {
                        assert(t[i - 1] == id);
                        assert(t.contains(id));
                    }
                }
            }
        }
    }
}

/// Of tables that are apart, one alone can hold a key, and there it is found.
proof fn lemma_found_in(ids: Seq<usize>, tables: Map<usize, Arc<SsTable>>, id: usize, k: KeyView)
    requires
        spread(ids, tables),
        ids.contains(id),
        key::lookup(tables[id].entries(), k) is Some,
    ensures
        found(ids, tables, k) == key::lookup(tables[id].entries(), k),
        forall|other: usize| #[trigger]
            ids.contains(other) && other != id ==> key::lookup(tables[other].entries(), k) is None,
{
    broadcast use key::group_key_order;

    lemma_key_range(&*tables[id], k);
    assert forall|other: usize| #[trigger] ids.contains(other) && other != id implies key::lookup(
        tables[other].entries(),
        k,
    ) is None by {
        lemma_key_range(&*tables[other], k);
        assert(apart(&*tables[id], &*tables[other]));
    }
    lemma_found_where(ids, tables, k);
    if found(ids, tables, k) is Some {
        let other = choose|other: usize| #[trigger]
            ids.contains(other) && key::lookup(tables[other].entries(), k) == found(ids, tables, k);
        assert(other == id);
    }
}

/// Taking out tables that do not hold a key does not change what is found for it.
proof fn lemma_found_without(
    ids: Seq<usize>,
    gone: Seq<usize>,
    tables: Map<usize, Arc<SsTable>>,
    k: KeyView,
)
    requires
        found(gone, tables, k) is None,
    ensures
        found(compact::without(ids, gone), tables, k) == found(ids, tables, k),
    decreases ids.len(),
{
    if ids.len() > 0 {
        let front = ids.drop_last();
        let id = ids.last();
        let last = seq![tables[id].entries()];
        lemma_found_without(front, gone, tables, k);
        compaction_laws::lemma_lookup_all_one(tables[id].entries(), k);
        assert(lsm_storage::l0_parts(ids, tables) =~= lsm_storage::l0_parts(front, tables) + last);
        read::lemma_lookup_all_concat(lsm_storage::l0_parts(front, tables), last, k);
        if gone.contains(id) {
            lemma_found_where(gone, tables, k);
        } else {
            let r = compact::without(front, gone);
            assert(
                lsm_storage::l0_parts(r.push(id), tables)
                    =~= lsm_storage::l0_parts(r, tables) + last
            );
            read::lemma_lookup_all_concat(lsm_storage::l0_parts(r, tables), last, k);
        }
    }
}

/// The tables of a level are apart, and hold one by one what the level holds.
pub proof fn lemma_level_spread(level: (usize, Seq<usize>), tables: Map<usize, Arc<SsTable>>)
    requires
        lsm_storage::level_wf(level, tables),
    ensures
        spread(level.1, tables),
        compaction::ascending(level.1, tables),
        forall|k: KeyView| #[trigger]
            key::lookup(lsm_storage::level_entries(level, tables), k) == found(level.1, tables, k),
{
    broadcast use key::group_key_order;

    let ids = level.1;
    let ts = lsm_storage::tables_of(ids, tables);
    assert forall|i: int, j: int| 0 <= i < j < ids.len() implies #[trigger] ids[i]
        != #[trigger] ids[j] && apart(&*tables[ids[i]], &*tables[ids[j]]) by {
        assert(ts[i] == tables[ids[i]]);
        assert(ts[j] == tables[ids[j]]);
        read::lemma_run_keys(ts, i, j);
    }
    assert forall|id: usize| #[trigger] ids.contains(id) implies tables.contains_key(id)
        && tables[id].wf() by {
        let i = choose|i: int| 0 <= i < ids.len() && ids[i] == id;
        assert(ts[i].wf());
    }
    if ids.len() > 1 {
        assert forall|id: usize| #[trigger] ids.contains(id) implies tables[id].entries().len()
            > 0 by {
            let i = choose|i: int| 0 <= i < ids.len() && ids[i] == id;
            assert(ts[i].entries().len() > 0);
        }
    }
    assert forall|a: usize, b: usize| #[trigger]
        ids.contains(a) && #[trigger] ids.contains(b) && a != b implies apart(
        &*tables[a],
        &*tables[b],
    ) by {
        let i = choose|i: int| 0 <= i < ids.len() && ids[i] == a;
        let j = choose|j: int| 0 <= j < ids.len() && ids[j] == b;
        if i < j {
            assert(apart(&*tables[ids[i]], &*tables[ids[j]]));
        } else {
            assert(apart(&*tables[ids[j]], &*tables[ids[i]]));
        }
    }
    assert forall|i: int, j: int| 0 <= i < j < ids.len() implies key::key_le(
        tables[#[trigger] ids[i]].first_key@,
        tables[#[trigger] ids[j]].first_key@,
    ) by {
        assert(ts[i] == tables[ids[i]]);
        assert(ts[j] == tables[ids[j]]);
        read::lemma_run_keys(ts, i, j);
    }
    assert forall|k: KeyView| #[trigger] key::lookup(lsm_storage::level_entries(level, tables), k)
        == found(
        ids,
        tables,
        k,
    ) by {
        compaction_laws::lemma_run_as_tables(ts, 0, k);
        assert(compaction::table_parts(ts).skip(0) =~= lsm_storage::l0_parts(ids, tables));
    }
}

/// Tables that are apart and stand in the order of their first keys form a run.
proof fn lemma_spread_run(ids: Seq<usize>, tables: Map<usize, Arc<SsTable>>)
    requires
        spread(ids, tables),
        compaction::ascending(ids, tables),
    ensures
        concat_iterator::run_wf(lsm_storage::tables_of(ids, tables)),
{
    broadcast use key::group_key_order;

    let ts = lsm_storage::tables_of(ids, tables);
    assert forall|j: int| 0 <= j < ts.len() implies (#[trigger] ts[j]).wf() && (ts.len() > 1
        ==> ts[j].entries().len() > 0) by {
        assert(ids.contains(ids[j]));
    }
    assert forall|j: int| 0 < j < ts.len() implies key::key_lt(
        ts[j - 1].last_key@,
        (#[trigger] ts[j]).first_key@,
    ) by {
        assert(ids.contains(ids[j - 1]) && ids.contains(ids[j]));
        assert(ids[j - 1] != ids[j]);
        assert(key::key_le(tables[ids[j - 1]].first_key@, tables[ids[j]].first_key@));
        assert(apart(&*tables[ids[j - 1]], &*tables[ids[j]]));
        lemma_key_range(&*ts[j], ts[j].first_key@);
    }
    read::lemma_chain_run(ts, 0);
}

/// Tables that are apart form a level once they are sorted; it holds what they hold.
pub proof fn lemma_sorted_spread(name: usize, ids: Seq<usize>, tables: Map<usize, Arc<SsTable>>)
    requires
        spread(ids, tables),
    ensures
        lsm_storage::level_wf((name, compaction::sorted_ids(ids, tables)), tables),
        forall|k: KeyView| #[trigger]
            key::lookup(
                lsm_storage::level_entries((name, compaction::sorted_ids(ids, tables)), tables),
                k,
            ) == found(
                ids,
                tables,
                k,
            ),
{
    let s = compaction::sorted_ids(ids, tables);
    compaction::law_sorted_ids(ids, tables);
    assert forall|id: usize| #[trigger] s.contains(id) <==> ids.contains(id) by {
        vstd::seq_lib::to_multiset_contains(s, id);
        vstd::seq_lib::to_multiset_contains(ids, id);
    }
    ids.lemma_multiset_has_no_duplicates();
    s.lemma_multiset_has_no_duplicates_conv();
    assert(spread(s, tables));
    lemma_spread_run(s, tables);
    assert forall|i: int| 0 <= i < s.len() implies tables.contains_key(#[trigger] s[i]) by {
        assert(s.contains(s[i]));
    }
    let level = (name, s);
    assert(lsm_storage::level_wf(level, tables));
    lemma_level_spread(level, tables);
    assert forall|k: KeyView| #[trigger] key::lookup(lsm_storage::level_entries(level, tables), k)
        == found(
        ids,
        tables,
        k,
    ) by {
        lemma_found_where(ids, tables, k);
        lemma_found_where(s, tables, k);
        if found(ids, tables, k) is Some {
            let id = choose|id: usize| #[trigger]
                ids.contains(id) && key::lookup(tables[id].entries(), k) == found(ids, tables, k);
            assert(s.contains(id));
            lemma_found_in(s, tables, id, k);
        } else if found(s, tables, k) is Some {
            let id = choose|id: usize| #[trigger]
                s.contains(id) && key::lookup(tables[id].entries(), k) == found(s, tables, k);
            assert(ids.contains(id));
        }
    }
}

/// The key range of a table touches the range from `min` to `max`.
pub open spec fn touches(t: &SsTable, min: KeyView, max: KeyView) -> bool {
    key::key_le(min, t.last_key@) && key::key_le(t.first_key@, max)
}

/// Those tables of a level that touch a range are apart and stand in order.
proof fn lemma_touching(
    ids: Seq<usize>,
    tables: Map<usize, Arc<SsTable>>,
    min: KeyView,
    max: KeyView,
)
    requires
        spread(ids, tables),
        compaction::ascending(ids, tables),
    ensures
        forall|id: usize| #[trigger]
            leveled::touching(ids, tables, min, max).contains(id) <==> ids.contains(id) && touches(
                &*tables[id],
                min,
                max,
            ),
        spread(leveled::touching(ids, tables, min, max), tables),
        compaction::ascending(leveled::touching(ids, tables, min, max), tables),
    decreases ids.len(),
{
    let r = leveled::touching(ids, tables, min, max);
    if ids.len() > 0 {
        let front = ids.drop_last();
        let id = ids.last();
        let n = front.len() as int;
        assert(ids[n] == id);
        assert forall|x: usize| #[trigger] front.contains(x) implies ids.contains(x) && x
            != id by {
            let i = choose|i: int| 0 <= i < front.len() && front[i] == x;
            assert(ids[i] == x);
        }
        assert forall|x: usize| #[trigger] ids.contains(x) implies front.contains(x) || x
            == id by {
            let i = choose|i: int| 0 <= i < ids.len() && ids[i] == x;
            if i < n {
                assert(front[i] == x);
            }
        }
        assert(ids.contains(id));
        assert(compaction::ascending(front, tables)) by {
            assert forall|i: int, j: int| 0 <= i < j < front.len() implies key::key_le(
                tables[#[trigger] front[i]].first_key@,
                tables[#[trigger] front[j]].first_key@,
            ) by {
                assert(front[i] == ids[i] && front[j] == ids[j]);
            }
        }
        lemma_touching(front, tables, min, max);
        let t = leveled::touching(front, tables, min, max);
        if touches(&*tables[id], min, max) {
            assert forall|x: usize| #[trigger] r.contains(x) <==> t.contains(x) || x == id by {
                if t.contains(x) {
                    let i = choose|i: int| 0 <= i < t.len() && t[i] == x;
                    assert(r[i] == x);
                }
                assert(r[t.len() as int] == id);
                if r.contains(x) && x != id {
                    let i = choose|i: int| 0 <= i < r.len() && r[i] == x;
                    assert(t[i] == x);
                }
            }
            assert forall|i: int, j: int| 0 <= i < j < r.len() implies #[trigger] r[i]
                != #[trigger] r[j] && key::key_le(
                tables[r[i]].first_key@,
                tables[r[j]].first_key@,
            ) by {
                assert(r[i] == t[i]);
                assert(t.contains(t[i]));
                if j < t.len() {
                    assert(r[j] == t[j]);
                } else {
                    assert(front.contains(t[i]));
                    let x = choose|x: int| 0 <= x < front.len() && front[x] == t[i];
                    assert(ids[x] == t[i]);
                }
            }
        }
        assert forall|a: usize, b: usize| #[trigger]
            r.contains(a) && #[trigger] r.contains(b) && a != b implies apart(
            &*tables[a],
            &*tables[b],
        ) by {
            assert(ids.contains(a) && ids.contains(b));
        }
    }
}

/// Tables lie within their span.
proof fn lemma_key_span(ids: Seq<usize>, tables: Map<usize, Arc<SsTable>>, id: usize)
    requires
        ids.contains(id),
        tables.contains_key(id),
    ensures
        leveled::key_span(ids, tables) matches Some((min, max))
            && key::key_le(min, tables[id].first_key@)
            && key::key_le(tables[id].last_key@, max),
    decreases ids.len(),
{
    broadcast use key::group_key_order;

    let front = ids.drop_last();
    if id != ids.last() {
        let i = choose|i: int| 0 <= i < ids.len() && ids[i] == id;
        assert(front[i] == id);
        lemma_key_span(front, tables, id);
    }
}

pub proof fn lemma_first_of_before(ids: Seq<usize>, gone: Seq<usize>)
    ensures
        0 <= leveled::first_of(ids, gone) <= ids.len(),
        forall|j: int| 0 <= j < leveled::first_of(ids, gone) ==> !gone.contains(#[trigger] ids[j]),
    decreases ids.len(),
{
    if ids.len() > 0 && !gone.contains(ids[0]) {
        let t = ids.drop_first();
        lemma_first_of_before(t, gone);
        assert forall|j: int| 0 <= j < leveled::first_of(ids, gone) implies !gone.contains(
            #[trigger] ids[j],
        ) by {
            if j > 0 {
                assert(t[j - 1] == ids[j]);
            }
        }
    }
}

proof fn lemma_without_distinct(ids: Seq<usize>, gone: Seq<usize>)
    requires
        ids.no_duplicates(),
    ensures
        compact::without(ids, gone).no_duplicates(),
    decreases ids.len(),
{
    if ids.len() > 0 {
        let front = ids.drop_last();
        let id = ids.last();
        lemma_without_distinct(front, gone);
        compact::lemma_without(front, gone, id);
        if front.contains(id) {
            let i = choose|i: int| 0 <= i < front.len() && front[i] == id;
            assert(ids[i] == ids[ids.len() - 1]);
        }
        let r = compact::without(front, gone);
        if !gone.contains(id) {
            assert forall|i: int, j: int| 0 <= i < r.len() + 1 && 0 <= j < r.len() + 1 && i
                != j implies r.push(id)[i] != r.push(id)[j] by {
                if i == r.len() {
                    assert(r.contains(r[j]));
                } else if j == r.len() {
                    assert(r.contains(r[i]));
                }
            }
        }
    }
}

/// The tables of a level once a task has put its output there: those that were not merged, and the
/// output. None occurs twice.
proof fn lemma_lower_ids(ids: Seq<usize>, gone: Seq<usize>, output: Seq<usize>)
    requires
        ids.no_duplicates(),
        output.no_duplicates(),
        orderly::share_none(ids, output),
    ensures
        ({
            let p = leveled::first_of(ids, gone);
            let r = ids.take(p) + output + compact::without(ids.skip(p), gone);
            &&& r.no_duplicates()
            &&& forall|id: usize| #[trigger]
                r.contains(id) <==> output.contains(id) || (ids.contains(id) && !gone.contains(id))
        }),
{
    let p = leveled::first_of(ids, gone);
    lemma_first_of_before(ids, gone);
    let a = ids.take(p);
    let rest = ids.skip(p);
    let c = compact::without(rest, gone);
    let r = a + output + c;
    let m = (p + output.len()) as int;
    lemma_without_distinct(rest, gone);
    assert forall|id: usize| #[trigger] c.contains(id) implies exists|x: int|
        p <= x < ids.len() && ids[x] == id && !gone.contains(id) by {
        compact::lemma_without(rest, gone, id);
        let x = choose|x: int| 0 <= x < rest.len() && rest[x] == id;
        assert(ids[p + x] == id);
    }
    assert forall|i: int, j: int| 0 <= i < j < r.len() implies r[i] != r[j] by {
        if i < p {
            assert(r[i] == ids[i]);
            assert(ids.contains(ids[i]));
            if j < p {
                assert(r[j] == ids[j]);
            } else if j < m {
                assert(r[j] == output[j - p]);
                assert(output.contains(output[j - p]));
            } else {
                assert(r[j] == c[j - m]);
                assert(c.contains(c[j - m]));
            }
        } else if i < m {
            assert(r[i] == output[i - p]);
            assert(output.contains(output[i - p]));
            if j < m {
                assert(r[j] == output[j - p]);
            } else {
                assert(r[j] == c[j - m]);
                assert(c.contains(c[j - m]));
                let x = choose|x: int| p <= x < ids.len() && ids[x] == c[j - m];
                assert(ids.contains(c[j - m]));
            }
        } else {
            assert(r[i] == c[i - m] && r[j] == c[j - m]);
        }
    }
    assert forall|id: usize| #[trigger] r.contains(id) <==> output.contains(id) || (ids.contains(id)
        && !gone.contains(id)) by {
        if r.contains(id) {
            let i = choose|i: int| 0 <= i < r.len() && r[i] == id;
            if i < p {
                assert(ids[i] == id);
            } else if i < m {
                assert(output[i - p] == id);
            } else {
                assert(c[i - m] == id);
                assert(c.contains(id));
                let x = choose|x: int| p <= x < ids.len() && ids[x] == id;
                assert(ids.contains(id));
            }
        }
        if output.contains(id) {
            let x = choose|x: int| 0 <= x < output.len() && output[x] == id;
            assert(r[p + x] == id);
        }
        if ids.contains(id) && !gone.contains(id) {
            let x = choose|x: int| 0 <= x < ids.len() && ids[x] == id;
            if x < p {
                assert(r[x] == id);
            } else {
                assert(rest[x - p] == id);
                compact::lemma_without(rest, gone, id);
                let y = choose|y: int| 0 <= y < c.len() && c[y] == id;
                assert(r[m + y] == id);
            }
        }
    }
}

/// A table of the lower level that the merged tables do not touch lies before or after all that
/// was merged.
proof fn lemma_untouched(
    ids: Seq<usize>,
    upper: Seq<usize>,
    tables: Map<usize, Arc<SsTable>>,
    min: KeyView,
    max: KeyView,
    id: usize,
)
    requires
        spread(ids, tables),
        compaction::ascending(ids, tables),
        forall|x: usize| #[trigger]
            upper.contains(x) ==> tables.contains_key(x) && tables[x].wf(),
        leveled::key_span(upper, tables) == Some((min, max)),
        ids.contains(id),
        !leveled::touching(ids, tables, min, max).contains(id),
    ensures
        ({
            let merged = |k: KeyView|
                found(upper, tables, k) is Some || found(
                    leveled::touching(ids, tables, min, max),
                    tables,
                    k,
                ) is Some;
            ||| forall|k: KeyView| #[trigger] merged(k) ==> key::key_lt(tables[id].last_key@, k)
            ||| forall|k: KeyView| #[trigger] merged(k) ==> key::key_lt(k, tables[id].first_key@)
        }),
{
    broadcast use key::group_key_order;

    let lower = leveled::touching(ids, tables, min, max);
    let merged = |k: KeyView|
        found(upper, tables, k) is Some || found(lower, tables, k) is Some;
    let t = tables[id];
    lemma_touching(ids, tables, min, max);
    lemma_key_range(&*t, t.first_key@);
    assert(!touches(&*t, min, max));
    let before = key::key_lt(t.last_key@, min);
    assert(before || key::key_lt(max, t.first_key@));
    assert forall|k: KeyView| #[trigger] merged(k) implies if before {
        key::key_lt(t.last_key@, k)
    } else {
        key::key_lt(k, t.first_key@)
    } by {
        if found(upper, tables, k) is Some {
            lemma_found_where(upper, tables, k);
            let x = choose|x: usize| #[trigger]
                upper.contains(x) && key::lookup(tables[x].entries(), k) == found(upper, tables, k);
            lemma_key_range(&*tables[x], k);
            lemma_key_span(upper, tables, x);
        } else {
            lemma_found_where(lower, tables, k);
            let x = choose|x: usize| #[trigger]
                lower.contains(x) && key::lookup(tables[x].entries(), k) == found(lower, tables, k);
            lemma_key_range(&*tables[x], k);
            assert(touches(&*tables[x], min, max));
            assert(x != id);
            assert(apart(&*tables[x], &*t));
        }
    }
    if before {
        assert forall|k: KeyView| #[trigger] merged(k) implies key::key_lt(t.last_key@, k) by {}
    } else {
        assert forall|k: KeyView| #[trigger] merged(k) implies key::key_lt(k, t.first_key@) by {}
    }
}

/// The level into which a task merges: the tables that stay and those that came of the task are
/// apart, and hold what the level is to hold.
#[verifier::spinoff_prover]
#[verifier::rlimit(60)]
proof fn lemma_lower_level(
    level: (usize, Seq<usize>),
    upper: Seq<usize>,
    tables: Map<usize, Arc<SsTable>>,
    min: KeyView,
    max: KeyView,
    ssts: Seq<Arc<SsTable>>,
    more: Map<usize, Arc<SsTable>>,
)
    requires
        lsm_storage::level_wf(level, tables),
        orderly::filled(level.1, tables),
        orderly::tables_plain(tables),
        forall|x: usize| #[trigger]
            upper.contains(x) ==> tables.contains_key(x) && tables[x].wf(),
        leveled::key_span(upper, tables) == Some((min, max)),
        concat_iterator::run_wf(ssts),
        concat_iterator::all_filled(ssts),
        key::plain_keys(concat_iterator::tables_from(ssts, 0)),
        forall|i: int|
            0 <= i < ssts.len() ==> more.contains_key((#[trigger] ssts[i]).id)
                && more[ssts[i].id] == ssts[i],
        orderly::share_none(level.1, compaction::sst_ids(ssts)),
        ({
            let lower = leveled::touching(level.1, tables, min, max);
            &&& forall|id: usize| #[trigger]
                level.1.contains(id) && !lower.contains(id) ==> more.contains_key(id) && more[id]
                    == tables[id]
            &&& forall|k: Seq<u8>|
                #![trigger key::user_key(k)]
                key::lookup(concat_iterator::tables_from(ssts, 0), key::user_key(k)) is Some
                    ==> found(
                    upper,
                    tables,
                    key::user_key(k),
                ) is Some || found(lower, tables, key::user_key(k)) is Some
        }),
    ensures
        ({
            let lower = leveled::touching(level.1, tables, min, max);
            let p = leveled::first_of(level.1, lower);
            let ids = level.1.take(p) + compaction::sst_ids(ssts)
                + compact::without(level.1.skip(p), lower);
            &&& spread(ids, more)
            &&& forall|k: Seq<u8>|
                #![trigger key::user_key(k)]
                {
                    let r = found(compact::without(level.1, lower), tables, key::user_key(k));
                    let t = found(lower, tables, key::user_key(k));
                    &&& r is Some ==> t is None && found(upper, tables, key::user_key(k)) is None
                    &&& found(level.1, tables, key::user_key(k)) == if r is Some {
                        r
                    } else {
                        t
                    }
                    &&& found(ids, more, key::user_key(k)) == if r is Some {
                        r
                    } else {
                        key::lookup(concat_iterator::tables_from(ssts, 0), key::user_key(k))
                    }
                }
        }),
{
    broadcast use key::group_key_order;

    let old_ids = level.1;
    let lower = leveled::touching(old_ids, tables, min, max);
    let output = compaction::sst_ids(ssts);
    let p = leveled::first_of(old_ids, lower);
    let ids = old_ids.take(p) + output + compact::without(old_ids.skip(p), lower);
    let stay = compact::without(old_ids, lower);
    let merged = |k: KeyView|
        found(upper, tables, k) is Some || found(lower, tables, k) is Some;
    lemma_level_spread(level, tables);
    lemma_touching(old_ids, tables, min, max);
    compaction_laws::lemma_output_level(0, ssts, more);
    lemma_level_spread((0, output), more);
    lemma_lower_ids(old_ids, lower, output);
    assert forall|o: usize| #[trigger] output.contains(o) implies more[o].entries().len() > 0 by {
        let i = choose|i: int| 0 <= i < output.len() && output[i] == o;
        assert(more[ssts[i].id] == ssts[i]);
        assert(ssts[i].entries().len() > 0);
    }
    assert forall|o: usize, r: usize| #[trigger]
        output.contains(o) && #[trigger] old_ids.contains(r) && !lower.contains(r) implies apart(
        &*more[o],
        &*more[r],
    ) by {
        let t = more[o];
        lemma_untouched(old_ids, upper, tables, min, max, r);
        lemma_key_range(&*t, t.first_key@);
        lemma_key_range(&*t, t.last_key@);
        lemma_found_in(output, more, o, t.first_key@);
        lemma_found_in(output, more, o, t.last_key@);
        lemma_plain_key(concat_iterator::tables_from(ssts, 0), t.first_key@);
        lemma_plain_key(concat_iterator::tables_from(ssts, 0), t.last_key@);
        assert(merged(key::user_key(t.first_key@.key)));
        assert(merged(key::user_key(t.last_key@.key)));
    }
    assert forall|id: usize| #[trigger] ids.contains(id) implies more.contains_key(id)
        && more[id].wf() && more[id].entries().len() > 0 by {}
    assert(orderly::filled(ids, more));
    assert forall|a: usize, b: usize| #[trigger]
        ids.contains(a) && #[trigger] ids.contains(b) && a != b implies apart(
        &*more[a],
        &*more[b],
    ) by {
        if output.contains(a) {
            if !output.contains(b) {
                assert(apart(&*more[a], &*more[b]));
            }
        } else if output.contains(b) {
            assert(apart(&*more[b], &*more[a]));
        }
    }
    assert(spread(ids, more));
    assert forall|id: usize| #[trigger] stay.contains(id) <==> old_ids.contains(id)
        && !lower.contains(id) by {
        compact::lemma_without(old_ids, lower, id);
    }
    assert forall|k: Seq<u8>|
        #![trigger key::user_key(k)]
        {
            let r = found(stay, tables, key::user_key(k));
            let t = found(lower, tables, key::user_key(k));
            &&& r is Some ==> t is None && found(upper, tables, key::user_key(k)) is None
            &&& found(old_ids, tables, key::user_key(k)) == if r is Some {
                r
            } else {
                t
            }
            &&& found(ids, more, key::user_key(k)) == if r is Some {
                r
            } else {
                key::lookup(concat_iterator::tables_from(ssts, 0), key::user_key(k))
            }
        } by {
        let kv = key::user_key(k);
        let r = found(stay, tables, kv);
        let t = found(lower, tables, kv);
        let n = key::lookup(concat_iterator::tables_from(ssts, 0), kv);
        lemma_found_where(stay, tables, kv);
        lemma_found_where(lower, tables, kv);
        lemma_found_where(output, more, kv);
        lemma_found_where(ids, more, kv);
        lemma_found_where(old_ids, tables, kv);
        assert(n == found(output, more, kv));
        if r is Some {
            let id = choose|id: usize| #[trigger]
                stay.contains(id) && key::lookup(tables[id].entries(), kv) == r;
            assert(old_ids.contains(id));
            lemma_found_in(old_ids, tables, id, kv);
            assert(ids.contains(id));
            lemma_found_in(ids, more, id, kv);
            lemma_untouched(old_ids, upper, tables, min, max, id);
            lemma_key_range(&*tables[id], kv);
            assert(!merged(kv));
        } else {
            if t is Some {
                let id = choose|id: usize| #[trigger]
                    lower.contains(id) && key::lookup(tables[id].entries(), kv) == t;
                assert(old_ids.contains(id));
                lemma_found_in(old_ids, tables, id, kv);
            } else if found(old_ids, tables, kv) is Some {
                let id = choose|id: usize| #[trigger]
                    old_ids.contains(id) && key::lookup(tables[id].entries(), kv) == found(
                        old_ids,
                        tables,
                        kv,
                    );
                assert(stay.contains(id) || lower.contains(id));
            }
            if n is Some {
                let id = choose|id: usize| #[trigger]
                    output.contains(id) && key::lookup(more[id].entries(), kv) == n;
                assert(ids.contains(id));
                lemma_found_in(ids, more, id, kv);
            } else if found(ids, more, kv) is Some {
                let id = choose|id: usize| #[trigger]
                    ids.contains(id) && key::lookup(more[id].entries(), kv) == found(ids, more, kv);
                assert(output.contains(id) || stay.contains(id));
            }
        }
    }
}

/// A key that plain entries hold is a plain user key.
proof fn lemma_plain_key(s: Seq<Entry>, k: KeyView)
    requires
        key::plain_keys(s),
        key::lookup(s, k) is Some,
    ensures
        k == key::user_key(k.key),
{
    key::lemma_lookup(s, k);
    let i = choose|i: int| 0 <= i < s.len() && #[trigger] s[i].key == k;
    assert(s[i].key.ts == TS_DEFAULT);
}

/// Parts that hold the same for a key, one by one, hold the same together.
proof fn lemma_same_parts(ps: Seq<Seq<Entry>>, qs: Seq<Seq<Entry>>, k: KeyView)
    requires
        ps.len() == qs.len(),
        forall|i: int| 0 <= i < ps.len()
            ==> key::lookup(#[trigger] ps[i], k) == key::lookup(qs[i], k),
    ensures
        iterators::lookup_all(ps, k) == iterators::lookup_all(qs, k),
    decreases ps.len(),
{
    if ps.len() > 0 {
        let a = ps.drop_first();
        let b = qs.drop_first();
        assert forall|i: int| 0 <= i < a.len()
            implies key::lookup(#[trigger] a[i], k) == key::lookup(
            b[i],
            k,
        ) by {
            assert(a[i] == ps[i + 1] && b[i] == qs[i + 1]);
        }
        lemma_same_parts(a, b, k);
        assert(key::lookup(ps[0], k) == key::lookup(qs[0], k));
    }
}

/// The first value, or else the second one.
pub open spec fn or_else(a: Option<Seq<u8>>, b: Option<Seq<u8>>) -> Option<Seq<u8>> {
    if a is Some {
        a
    } else {
        b
    }
}

/// The tables that a leveled task merges, where all keys are plain user keys: sorted and plain
/// parts that hold what the tables hold.
proof fn lemma_leveled_parts(
    t: LevelTaskView,
    level: (usize, Seq<usize>),
    tables: Map<usize, Arc<SsTable>>,
    min: KeyView,
    max: KeyView,
)
    requires
        orderly::tables_plain(tables),
        lsm_storage::level_wf(level, tables),
        forall|i: int|
            0 <= i < t.upper.len() ==> tables.contains_key(#[trigger] t.upper[i])
                && tables[t.upper[i]].wf(),
        t.upper_level is Some ==> t.upper.len() == 1,
        t.lower == leveled::touching(level.1, tables, min, max),
    ensures
        ({
            let ps = compaction::task_parts(TaskView::Leveled(t), tables);
            &&& forall|i: int|
                0 <= i < ps.len() ==> key::sorted(#[trigger] ps[i]) && key::plain_keys(ps[i])
            &&& forall|k: KeyView| #[trigger]
                iterators::lookup_all(ps, k)
                    == or_else(found(t.upper, tables, k), found(t.lower, tables, k))
        }),
{
    let ps = compaction::task_parts(TaskView::Leveled(t), tables);
    lemma_level_spread(level, tables);
    lemma_touching(level.1, tables, min, max);
    lemma_spread_run(t.lower, tables);
    let low = (0usize, t.lower);
    assert forall|i: int| 0 <= i < t.lower.len() implies tables.contains_key(
        #[trigger] t.lower[i],
    ) by {
        assert(t.lower.contains(t.lower[i]));
    }
    assert(lsm_storage::level_wf(low, tables));
    lemma_level_spread(low, tables);
    compaction_laws::lemma_run_part(low, tables);
    compaction_laws::lemma_table_parts(t.upper, tables);
    let tail = compaction::run_part(lsm_storage::tables_of(t.lower, tables));
    let head = if t.upper_level is None {
        compaction::table_parts(lsm_storage::tables_of(t.upper, tables))
    } else {
        compaction::run_part(lsm_storage::tables_of(t.upper, tables))
    };
    if t.upper_level is Some {
        let ts = lsm_storage::tables_of(t.upper, tables);
        assert(concat_iterator::tables_from(ts, 1) =~= Seq::empty());
        assert(concat_iterator::tables_from(ts, 0) =~= ts[0].entries());
        assert(head =~= compaction::table_parts(ts));
    }
    assert(ps =~= head + tail);
    assert forall|i: int| 0 <= i < ps.len()
        implies key::sorted(#[trigger] ps[i]) && key::plain_keys(
        ps[i],
    ) by {
        if i < head.len() {
            assert(ps[i] == head[i]);
            assert(head[i] == compaction::table_parts(lsm_storage::tables_of(t.upper, tables))[i]);
        } else {
            assert(ps[i] == tail[i - head.len()]);
        }
    }
    assert forall|k: KeyView| #[trigger] iterators::lookup_all(ps, k) == or_else(
        found(t.upper, tables, k),
        found(t.lower, tables, k),
    ) by {
        read::lemma_lookup_all_concat(head, tail, k);
    }
}

/// No key that merged tables of L0 hold is held by a table that stays in L0, or by a level above
/// the one into which they are merged.
pub open spec fn way_clear(
    layout: LayoutView,
    tables: Map<usize, Arc<SsTable>>,
    t: LevelTaskView,
) -> bool {
    t.upper_level is None ==> forall|k: KeyView| #[trigger]
        found(t.upper, tables, k) is Some ==> {
            &&& found(compact::without(layout.l0, t.upper), tables, k) is None
            &&& iterators::lookup_all(
                lsm_storage::level_parts(layout.levels.take(t.lower_level - 1), tables),
                k,
            ) is None
        }
}

/// Tables that a task leaves alone hold what they held.
proof fn lemma_found_same(
    ids: Seq<usize>,
    tables: Map<usize, Arc<SsTable>>,
    more: Map<usize, Arc<SsTable>>,
    k: KeyView,
)
    requires
        forall|i: int| 0 <= i < ids.len() ==> more[#[trigger] ids[i]] == tables[ids[i]],
    ensures
        found(ids, more, k) == found(ids, tables, k),
{
    assert(lsm_storage::l0_parts(ids, more) =~= lsm_storage::l0_parts(ids, tables));
}

/// A level other than the lower one, as a task leaves it: its tables are apart, and hold what they
/// held.
proof fn lemma_kept_level(
    level: (usize, Seq<usize>),
    gone: Seq<usize>,
    tables: Map<usize, Arc<SsTable>>,
    more: Map<usize, Arc<SsTable>>,
)
    requires
        lsm_storage::level_wf(level, tables),
        forall|id: usize| #[trigger]
            level.1.contains(id) && !gone.contains(id) ==> more.contains_key(id) && more[id]
                == tables[id],
    ensures
        spread(compact::without(level.1, gone), more),
        forall|k: KeyView| #[trigger]
            found(compact::without(level.1, gone), more, k)
                == found(compact::without(level.1, gone), tables, k),
{
    let ids = compact::without(level.1, gone);
    lemma_level_spread(level, tables);
    lemma_without_distinct(level.1, gone);
    assert forall|id: usize| #[trigger] ids.contains(id) implies level.1.contains(id)
        && !gone.contains(id) by {
        compact::lemma_without(level.1, gone, id);
    }
    if ids.len() > 1 {
        assert(ids.contains(ids[0]) && ids.contains(ids[1]));
        let a = choose|a: int| 0 <= a < level.1.len() && level.1[a] == ids[0];
        let b = choose|b: int| 0 <= b < level.1.len() && level.1[b] == ids[1];
        assert(a != b);
        assert(orderly::filled(level.1, tables));
        assert(orderly::filled(ids, more));
    }
    assert forall|k: KeyView| #[trigger] found(ids, more, k) == found(ids, tables, k) by {
        assert forall|i: int| 0 <= i < ids.len() implies more[#[trigger] ids[i]]
            == tables[ids[i]] by {
            assert(ids.contains(ids[i]));
        }
        lemma_found_same(ids, tables, more, k);
    }
}

proof fn lemma_without_none(ids: Seq<usize>, gone: Seq<usize>)
    requires
        orderly::share_none(ids, gone),
    ensures
        compact::without(ids, gone) == ids,
    decreases ids.len(),
{
    if ids.len() > 0 {
        let front = ids.drop_last();
        assert(ids.contains(ids[ids.len() - 1]));
        assert forall|id: usize| #[trigger] front.contains(id) implies !gone.contains(id) by {
            let i = choose|i: int| 0 <= i < front.len() && front[i] == id;
            assert(ids[i] == id);
            assert(ids.contains(id));
        }
        lemma_without_none(front, gone);
        assert(front.push(ids.last()) =~= ids);
    }
}

/// How values follow from what lies where: `p` above the lower level, `r` in its tables that stay,
/// `t` in those that are merged, `u` in the upper tables that are merged, `n` in what came of
/// them, `b` below.
proof fn lemma_moved_down(
    p: Option<Seq<u8>>,
    after: Option<Seq<u8>>,
    u: Option<Seq<u8>>,
    r: Option<Seq<u8>>,
    t: Option<Seq<u8>>,
    n: Option<Seq<u8>>,
    b: Option<Seq<u8>>,
    bottom: bool,
)
    requires
        u is None ==> p == after,
        u is Some ==> (p == after && p is Some) || (p == u && after is None),
        r is Some ==> t is None && u is None,
        lsm_iterator::live(n) == lsm_iterator::live(or_else(u, t)),
        !bottom ==> n == or_else(u, t),
        bottom ==> b is None,
    ensures
        lsm_iterator::live(or_else(or_else(p, or_else(r, t)), b)) == lsm_iterator::live(
            or_else(or_else(after, or_else(r, n)), b),
        ),
{
}

/// The upper tables of a task are those of the level `i + 1`.
pub open spec fn takes_from(t: LevelTaskView, i: int) -> bool {
    t.upper_level matches Some(u) && u == i + 1
}

/// The upper tables and the level of a leveled task, as the controller picks them.
pub open spec fn leveled_task(layout: LayoutView, tables: Map<usize, Arc<SsTable>>, t: LevelTaskView) -> bool {
    &&& 1 <= t.lower_level <= layout.levels.len()
    &&& t.upper.len() > 0
    &&& match t.upper_level {
        None => exists|w: int| 0 <= w <= layout.l0.len() && t.upper == #[trigger] layout.l0.take(w),
        Some(u) => {
            &&& 1 <= u
            &&& t.lower_level == u + 1
            &&& t.upper.len() == 1
            &&& layout.levels[u - 1].1.contains(t.upper[0])
        },
    }
    &&& t.lower == leveled::overlapping(t.upper, layout.levels, tables, t.lower_level as int)
    &&& t.bottom ==> t.lower_level == layout.levels.len()
}

/// The tables that a leveled task merges: those of the upper level are there and well-formed, and
/// occur in no level but their own; those of the lower level are those that touch their range.
proof fn lemma_leveled_task(layout: LayoutView, tables: Map<usize, Arc<SsTable>>, t: LevelTaskView)
    requires
        lsm_storage::layout_wf(layout, tables),
        orderly::places_apart(layout),
        leveled_task(layout, tables, t),
    ensures
        forall|i: int|
            0 <= i < t.upper.len() ==> tables.contains_key(#[trigger] t.upper[i])
                && tables[t.upper[i]].wf(),
        forall|x: usize| #[trigger]
            t.upper.contains(x) ==> tables.contains_key(x) && tables[x].wf(),
        forall|i: int|
            0 <= i < layout.levels.len() && !takes_from(t, i)
                ==> orderly::share_none((#[trigger] layout.levels[i]).1, t.upper),
        t.upper_level is Some ==> orderly::share_none(layout.l0, t.upper),
        leveled::key_span(t.upper, tables) matches Some((min, max)) && t.lower == leveled::touching(
            layout.levels[t.lower_level - 1].1,
            tables,
            min,
            max,
        ),
{
    let levels = layout.levels;
    match t.upper_level {
        None => {
            let w = choose|w: int|
                0 <= w <= layout.l0.len() && t.upper == #[trigger] layout.l0.take(w);
            assert forall|i: int| 0 <= i < t.upper.len() implies tables.contains_key(
                #[trigger] t.upper[i],
            ) && tables[t.upper[i]].wf() by {
                assert(t.upper[i] == layout.l0[i]);
            }
            assert forall|i: int| 0 <= i < levels.len() implies orderly::share_none(
                (#[trigger] levels[i]).1,
                t.upper,
            ) by {
                assert(orderly::share_none(levels[i].1, layout.l0));
                assert forall|id: usize| #[trigger] levels[i].1.contains(
                    id,
                ) implies !t.upper.contains(id) by {
                    if t.upper.contains(id) {
                        let x = choose|x: int| 0 <= x < t.upper.len() && t.upper[x] == id;
                        assert(layout.l0[x] == id);
                    }
                }
            }
        },
        Some(u) => {
            let level = levels[u - 1];
            assert(lsm_storage::level_wf(level, tables));
            lemma_level_spread(level, tables);
            assert forall|x: usize| #[trigger] t.upper.contains(x) implies level.1.contains(x) by {
                let i = choose|i: int| 0 <= i < t.upper.len() && t.upper[i] == x;
                assert(i == 0);
            }
            assert forall|i: int| 0 <= i < t.upper.len() implies tables.contains_key(
                #[trigger] t.upper[i],
            ) && tables[t.upper[i]].wf() by {
                assert(t.upper.contains(t.upper[i]));
            }
            assert forall|i: int|
                0 <= i < levels.len() && !takes_from(t, i) implies orderly::share_none(
                (#[trigger] levels[i]).1,
                t.upper,
            ) by {
                assert(orderly::share_none(levels[i].1, level.1));
            }
            assert(orderly::share_none(level.1, layout.l0));
            assert forall|id: usize| #[trigger] layout.l0.contains(id) implies !t.upper.contains(
                id,
            ) by {}
        },
    }
    assert forall|x: usize| #[trigger] t.upper.contains(x) implies tables.contains_key(x)
        && tables[x].wf() by {
        let i = choose|i: int| 0 <= i < t.upper.len() && t.upper[i] == x;
        assert(tables.contains_key(t.upper[i]));
    }
    assert(t.upper.contains(t.upper[0]));
    lemma_key_span(t.upper, tables, t.upper[0]);
}

/// What lies above the lower level, before and after a leveled task: a key that the merged tables
/// hold is looked up there no more, any other as before.
#[verifier::spinoff_prover]
#[verifier::rlimit(60)]
proof fn lemma_above(
    mems: Seq<Seq<Entry>>,
    layout: LayoutView,
    tables: Map<usize, Arc<SsTable>>,
    t: LevelTaskView,
    next: LayoutView,
    more: Map<usize, Arc<SsTable>>,
    k: KeyView,
)
    requires
        lsm_storage::layout_wf(layout, tables),
        leveled_task(layout, tables, t),
        way_clear(layout, tables, t),
        next.levels.len() == layout.levels.len(),
        found(next.l0, more, k) == if t.upper_level is None {
            found(compact::without(layout.l0, t.upper), tables, k)
        } else {
            found(layout.l0, tables, k)
        },
        forall|i: int|
            0 <= i < t.lower_level - 1 ==> key::lookup(
                lsm_storage::level_entries(#[trigger] next.levels[i], more),
                k,
            ) == if takes_from(t, i) {
                found(compact::without(layout.levels[i].1, t.upper), tables, k)
            } else {
                key::lookup(lsm_storage::level_entries(layout.levels[i], tables), k)
            },
    ensures
        ({
            let x = t.lower_level - 1;
            let before = mems
                + (lsm_storage::l0_parts(layout.l0, tables) + lsm_storage::level_parts(
                layout.levels.take(x),
                tables,
            ));
            let after = mems
                + (
                    lsm_storage::l0_parts(next.l0, more)
                        + lsm_storage::level_parts(next.levels.take(x), more)
                );
            let u = found(t.upper, tables, k);
            let p = iterators::lookup_all(before, k);
            let q = iterators::lookup_all(after, k);
            &&& u is None ==> p == q
            &&& u is Some ==> (p == q && p is Some) || (p == u && q is None)
        }),
{
    let x = t.lower_level - 1;
    let levels = layout.levels;
    let a = lsm_storage::l0_parts(layout.l0, tables);
    let b = lsm_storage::level_parts(levels.take(x), tables);
    let c = lsm_storage::l0_parts(next.l0, more);
    let d = lsm_storage::level_parts(next.levels.take(x), more);
    let u = found(t.upper, tables, k);
    read::lemma_lookup_all_concat(mems, a + b, k);
    read::lemma_lookup_all_concat(a, b, k);
    read::lemma_lookup_all_concat(mems, c + d, k);
    read::lemma_lookup_all_concat(c, d, k);
    match t.upper_level {
        None => {
            assert forall|i: int| 0 <= i < b.len()
                implies key::lookup(#[trigger] b[i], k) == key::lookup(
                d[i],
                k,
            ) by {
                assert(b[i] == lsm_storage::level_entries(levels[i], tables));
                assert(d[i] == lsm_storage::level_entries(next.levels[i], more));
            }
            lemma_same_parts(b, d, k);
            let w = choose|w: int|
                0 <= w <= layout.l0.len() && t.upper == #[trigger] layout.l0.take(w);
            let rest = layout.l0.skip(w);
            assert(
                a =~= lsm_storage::l0_parts(t.upper, tables) + lsm_storage::l0_parts(rest, tables)
            );
            read::lemma_lookup_all_concat(
                lsm_storage::l0_parts(t.upper, tables),
                lsm_storage::l0_parts(rest, tables),
                k,
            );
            if u is None {
                lemma_found_without(layout.l0, t.upper, tables, k);
            }
        },
        Some(number) => {
            let y = number - 1;
            assert(y == x - 1);
            let e = lsm_storage::level_parts(levels.take(y), tables);
            let f = lsm_storage::level_parts(next.levels.take(y), more);
            let old_top = lsm_storage::level_entries(levels[y], tables);
            let new_top = lsm_storage::level_entries(next.levels[y], more);
            assert forall|i: int| 0 <= i < e.len()
                implies key::lookup(#[trigger] e[i], k) == key::lookup(
                f[i],
                k,
            ) by {
                assert(e[i] == lsm_storage::level_entries(levels[i], tables));
                assert(f[i] == lsm_storage::level_entries(next.levels[i], more));
            }
            lemma_same_parts(e, f, k);
            assert(b =~= e + seq![old_top]);
            assert(d =~= f + seq![new_top]);
            read::lemma_lookup_all_concat(e, seq![old_top], k);
            read::lemma_lookup_all_concat(f, seq![new_top], k);
            compaction_laws::lemma_lookup_all_one(old_top, k);
            compaction_laws::lemma_lookup_all_one(new_top, k);
            let level = levels[y];
            let stay = compact::without(level.1, t.upper);
            assert(lsm_storage::level_wf(level, tables));
            lemma_level_spread(level, tables);
            assert(key::lookup(new_top, k) == found(stay, tables, k));
            assert(key::lookup(old_top, k) == found(level.1, tables, k));
            if u is None {
                lemma_found_without(level.1, t.upper, tables, k);
            } else {
                lemma_found_where(t.upper, tables, k);
                let id = choose|id: usize| #[trigger]
                    t.upper.contains(id) && key::lookup(tables[id].entries(), k) == u;
                assert(id == t.upper[0]);
                lemma_found_in(level.1, tables, id, k);
                lemma_found_where(stay, tables, k);
                if found(stay, tables, k) is Some {
                    let other = choose|other: usize| #[trigger]
                        stay.contains(other) && key::lookup(tables[other].entries(), k) == found(
                            stay,
                            tables,
                            k,
                        );
                    compact::lemma_without(level.1, t.upper, other);
                    assert(level.1.contains(other));
                }
            }
        },
    }
}

/// What is known of the tables that came of a leveled task.
pub open spec fn leveled_output(
    tables: Map<usize, Arc<SsTable>>,
    t: LevelTaskView,
    ssts: Seq<Arc<SsTable>>,
    first: usize,
) -> bool {
    &&& orderly::unused_from(tables, first)
    &&& first + ssts.len() <= usize::MAX
    &&& concat_iterator::run_wf(ssts)
    &&& concat_iterator::all_filled(ssts)
    &&& key::plain_keys(concat_iterator::tables_from(ssts, 0))
    &&& forall|i: int| 0 <= i < ssts.len() ==> (#[trigger] ssts[i]).id == first + i
    &&& forall|k: Seq<u8>|
        #![trigger key::user_key(k)]
        key::lookup(concat_iterator::tables_from(ssts, 0), key::user_key(k)) is Some
            ==> found(t.upper, tables, key::user_key(k)) is Some
            || found(t.lower, tables, key::user_key(k)) is Some
}

/// The tables after a leveled task: those that were not merged are as they were, and those that
/// came of it are there.
proof fn lemma_leveled_tables(
    layout: LayoutView,
    tables: Map<usize, Arc<SsTable>>,
    t: LevelTaskView,
    ssts: Seq<Arc<SsTable>>,
    first: usize,
)
    requires
        lsm_storage::layout_wf(layout, tables),
        orderly::places_apart(layout),
        leveled_task(layout, tables, t),
        leveled_output(tables, t, ssts, first),
    ensures
        ({
            let more = compaction_laws::tables_after(tables, ssts, t.upper + t.lower);
            &&& forall|id: usize| #[trigger]
                tables.contains_key(id) && !t.upper.contains(id) && !t.lower.contains(id)
                    ==> more.contains_key(id) && more[id] == tables[id]
            &&& forall|i: int|
                0 <= i < ssts.len() ==> more.contains_key((#[trigger] ssts[i]).id)
                    && more[ssts[i].id] == ssts[i]
        }),
        forall|id: usize| #[trigger]
            t.lower.contains(id) ==> layout.levels[t.lower_level - 1].1.contains(id),
{
    let gone = t.upper + t.lower;
    let level = layout.levels[t.lower_level - 1];
    lemma_leveled_task(layout, tables, t);
    let (min, max) = leveled::key_span(t.upper, tables)->Some_0;
    assert(lsm_storage::level_wf(level, tables));
    lemma_level_spread(level, tables);
    lemma_touching(level.1, tables, min, max);
    assert forall|id: usize| #[trigger] gone.contains(id) <==> t.upper.contains(id)
        || t.lower.contains(id) by {
        compact::lemma_concat_contains(t.upper, t.lower, id);
    }
    assert forall|i: int| 0 <= i < gone.len() implies tables.contains_key(#[trigger] gone[i]) by {
        assert(gone.contains(gone[i]));
    }
    compaction_laws::lemma_tables_after(tables, ssts, gone, first);
    assert forall|id: usize| #[trigger]
        tables.contains_key(id) && !t.upper.contains(id) && !t.lower.contains(
            id,
        ) implies compaction_laws::tables_after(tables, ssts, gone).contains_key(id)
            && compaction_laws::tables_after(
        tables,
        ssts,
        gone,
    )[id] == tables[id] by {
        assert(!gone.contains(id));
    }
}

/// A level other than the lower one after a leveled task: well-formed once sorted, and without the
/// upper tables that were merged.
proof fn lemma_leveled_other(
    layout: LayoutView,
    tables: Map<usize, Arc<SsTable>>,
    t: LevelTaskView,
    ssts: Seq<Arc<SsTable>>,
    first: usize,
    i: int,
)
    requires
        lsm_storage::layout_wf(layout, tables),
        orderly::places_apart(layout),
        leveled_task(layout, tables, t),
        leveled_output(tables, t, ssts, first),
        0 <= i < layout.levels.len(),
        i != t.lower_level - 1,
    ensures
        ({
            let more = compaction_laws::tables_after(tables, ssts, t.upper + t.lower);
            let next = leveled::leveled_layout_after(layout, t, compaction::sst_ids(ssts));
            let level = (next.levels[i].0, compaction::sorted_ids(next.levels[i].1, more));
            &&& lsm_storage::level_wf(level, more)
            &&& forall|k: KeyView| #[trigger]
                key::lookup(lsm_storage::level_entries(level, more), k) == if takes_from(t, i) {
                    found(compact::without(layout.levels[i].1, t.upper), tables, k)
                } else {
                    key::lookup(lsm_storage::level_entries(layout.levels[i], tables), k)
                }
        }),
{
    let more = compaction_laws::tables_after(tables, ssts, t.upper + t.lower);
    let next = leveled::leveled_layout_after(layout, t, compaction::sst_ids(ssts));
    let x = t.lower_level - 1;
    let level = layout.levels[i];
    let ids = next.levels[i].1;
    lemma_leveled_task(layout, tables, t);
    lemma_leveled_tables(layout, tables, t, ssts, first);
    assert(lsm_storage::level_wf(level, tables));
    lemma_level_spread(level, tables);
    assert(orderly::share_none(level.1, layout.levels[x].1));
    assert forall|id: usize| #[trigger] level.1.contains(id) && !t.upper.contains(
        id,
    ) implies more.contains_key(id) && more[id] == tables[id] by {
        assert(tables.contains_key(id));
    }
    lemma_kept_level(level, t.upper, tables, more);
    if !takes_from(t, i) {
        assert(orderly::share_none(level.1, t.upper));
        lemma_without_none(level.1, t.upper);
    }
    assert(ids == compact::without(level.1, t.upper));
    lemma_sorted_spread(level.0, ids, more);
}

/// The lower level after a leveled task: well-formed once sorted, and it holds what it held and
/// what came of the task.
proof fn lemma_leveled_lower(
    layout: LayoutView,
    tables: Map<usize, Arc<SsTable>>,
    t: LevelTaskView,
    ssts: Seq<Arc<SsTable>>,
    first: usize,
)
    requires
        orderly::levels_filled(layout.levels, tables),
        lsm_storage::layout_wf(layout, tables),
        orderly::places_apart(layout),
        orderly::tables_plain(tables),
        leveled_task(layout, tables, t),
        leveled_output(tables, t, ssts, first),
    ensures
        ({
            let more = compaction_laws::tables_after(tables, ssts, t.upper + t.lower);
            let next = leveled::leveled_layout_after(layout, t, compaction::sst_ids(ssts));
            let x = t.lower_level - 1;
            let level = (next.levels[x].0, compaction::sorted_ids(next.levels[x].1, more));
            &&& lsm_storage::level_wf(level, more)
            &&& forall|k: Seq<u8>|
                #![trigger key::user_key(k)]
                {
                    let r = found(
                        compact::without(layout.levels[x].1, t.lower),
                        tables,
                        key::user_key(k),
                    );
                    let l = found(t.lower, tables, key::user_key(k));
                    &&& r is Some ==> l is None && found(t.upper, tables, key::user_key(k)) is None
                    &&& key::lookup(
                        lsm_storage::level_entries(layout.levels[x], tables),
                        key::user_key(k),
                    ) == or_else(
                        r,
                        l,
                    )
                    &&& key::lookup(lsm_storage::level_entries(level, more), key::user_key(k))
                        == or_else(
                        r,
                        key::lookup(concat_iterator::tables_from(ssts, 0), key::user_key(k)),
                    )
                }
        }),
{
    let more = compaction_laws::tables_after(tables, ssts, t.upper + t.lower);
    let output = compaction::sst_ids(ssts);
    let next = leveled::leveled_layout_after(layout, t, output);
    let x = t.lower_level - 1;
    let level = layout.levels[x];
    lemma_leveled_task(layout, tables, t);
    lemma_leveled_tables(layout, tables, t, ssts, first);
    let (min, max) = leveled::key_span(t.upper, tables)->Some_0;
    assert(lsm_storage::level_wf(level, tables));
    lemma_level_spread(level, tables);
    assert(orderly::share_none(level.1, output)) by {
        assert forall|id: usize| #[trigger] level.1.contains(id) implies !output.contains(id) by {
            if output.contains(id) {
                let i = choose|i: int| 0 <= i < output.len() && output[i] == id;
                assert(ssts[i].id == first + i);
                assert(tables.contains_key(id));
            }
        }
    }
    assert(orderly::share_none(level.1, t.upper));
    assert forall|id: usize| #[trigger] level.1.contains(id) && !t.lower.contains(
        id,
    ) implies more.contains_key(id) && more[id] == tables[id] by {
        assert(tables.contains_key(id));
    }
    assert(orderly::filled(level.1, tables));
    lemma_lower_level(level, t.upper, tables, min, max, ssts, more);
    let ids = next.levels[x].1;
    lemma_sorted_spread(level.0, ids, more);
}

/// L0 after a leveled task: its tables are there, and it holds what is due.
proof fn lemma_leveled_l0(
    layout: LayoutView,
    tables: Map<usize, Arc<SsTable>>,
    t: LevelTaskView,
    ssts: Seq<Arc<SsTable>>,
    first: usize,
)
    requires
        lsm_storage::layout_wf(layout, tables),
        orderly::places_apart(layout),
        leveled_task(layout, tables, t),
        leveled_output(tables, t, ssts, first),
    ensures
        ({
            let more = compaction_laws::tables_after(tables, ssts, t.upper + t.lower);
            let next = leveled::leveled_layout_after(layout, t, compaction::sst_ids(ssts));
            &&& forall|i: int|
                0 <= i < next.l0.len() ==> more.contains_key(#[trigger] next.l0[i])
                    && more[next.l0[i]].wf()
            &&& forall|k: KeyView| #[trigger]
                found(next.l0, more, k) == found(next.l0, tables, k)
        }),
{
    let more = compaction_laws::tables_after(tables, ssts, t.upper + t.lower);
    let next = leveled::leveled_layout_after(layout, t, compaction::sst_ids(ssts));
    let x = t.lower_level - 1;
    lemma_leveled_task(layout, tables, t);
    lemma_leveled_tables(layout, tables, t, ssts, first);
    assert forall|i: int| 0 <= i < next.l0.len() implies more.contains_key(#[trigger] next.l0[i])
        && more[next.l0[i]].wf() && more[next.l0[i]] == tables[next.l0[i]] by {
        let id = next.l0[i];
        assert(next.l0.contains(id));
        if t.upper_level is None {
            compact::lemma_without(layout.l0, t.upper, id);
        }
        assert(layout.l0.contains(id) && !t.upper.contains(id));
        let j = choose|j: int| 0 <= j < layout.l0.len() && layout.l0[j] == id;
        assert(tables.contains_key(layout.l0[j]) && tables[layout.l0[j]].wf());
        assert(orderly::share_none(layout.levels[x].1, layout.l0));
    }
    assert forall|k: KeyView| #[trigger] found(next.l0, more, k) == found(next.l0, tables, k) by {
        lemma_found_same(next.l0, tables, more, k);
    }
}

/// No table stands in two places after a leveled task.
proof fn lemma_leveled_apart(
    layout: LayoutView,
    tables: Map<usize, Arc<SsTable>>,
    t: LevelTaskView,
    ssts: Seq<Arc<SsTable>>,
    first: usize,
)
    requires
        lsm_storage::layout_wf(layout, tables),
        orderly::places_apart(layout),
        leveled_task(layout, tables, t),
        leveled_output(tables, t, ssts, first),
    ensures
        ({
            let more = compaction_laws::tables_after(tables, ssts, t.upper + t.lower);
            let unsorted = leveled::leveled_layout_after(layout, t, compaction::sst_ids(ssts));
            let next = LayoutView {
                l0: unsorted.l0,
                levels: compaction::sorted_levels(unsorted.levels, more),
            };
            &&& orderly::places_apart(next)
            &&& compaction_laws::levels_kept(layout, next, first)
        }),
{
    let more = compaction_laws::tables_after(tables, ssts, t.upper + t.lower);
    let output = compaction::sst_ids(ssts);
    let unsorted = leveled::leveled_layout_after(layout, t, output);
    let next = LayoutView { l0: unsorted.l0, levels: compaction::sorted_levels(
        unsorted.levels,
        more,
    ) };
    let x = t.lower_level - 1;
    compaction_laws::lemma_output_ids(ssts, first);
    orderly::lemma_ids_used(layout, tables, first);
    lemma_leveled_task(layout, tables, t);
    assert forall|id: usize| #[trigger] next.l0.contains(id) implies layout.l0.contains(id) by {
        if t.upper_level is None {
            compact::lemma_without(layout.l0, t.upper, id);
        }
    }
    assert forall|i: int, id: usize|
        0 <= i < next.levels.len() && #[trigger] next.levels[i].1.contains(
            id,
        ) implies layout.levels[i].1.contains(id) || (i == x && first <= id) by {
        let old_ids = layout.levels[i].1;
        let ids = unsorted.levels[i].1;
        compaction::law_sorted_ids(ids, more);
        vstd::seq_lib::to_multiset_contains(next.levels[i].1, id);
        vstd::seq_lib::to_multiset_contains(ids, id);
        assert(ids.contains(id));
        if i == x {
            let p = leveled::first_of(old_ids, t.lower);
            lemma_first_of_before(old_ids, t.lower);
            let rest = old_ids.skip(p);
            compact::lemma_concat_contains(
                old_ids.take(p) + output,
                compact::without(rest, t.lower),
                id,
            );
            compact::lemma_concat_contains(old_ids.take(p), output, id);
            compact::lemma_without(rest, t.lower, id);
            if old_ids.take(p).contains(id) {
                let j = choose|j: int| 0 <= j < p && old_ids.take(p)[j] == id;
                assert(old_ids[j] == id);
            }
            if rest.contains(id) {
                let j = choose|j: int| 0 <= j < rest.len() && rest[j] == id;
                assert(old_ids[p + j] == id);
            }
        } else {
            compact::lemma_without(old_ids, t.upper, id);
        }
    }
    orderly::lemma_places_apart(layout, next, x, first);
}

/// A leveled compaction does not change what is read, where all keys are plain user keys and no
/// merged table of L0 is put below a table that holds one of its keys: the engine stays
/// orderly, and every key has the value that it had. `after` is the engine once the task that
/// the controller asked for has been carried out and its result put into use.
pub proof fn law_leveled_compaction_keeps(
    before: LsmStorageInner,
    after: LsmStorageInner,
    priorities: Seq<u64>,
    t: LevelTaskView,
    ssts: Seq<Arc<SsTable>>,
    watermark: u64,
)
    requires
        orderly::orderly(before),
        before.compaction_controller is Leveled,
        before.state.levels@.len()
            == before.compaction_controller->Leveled_0.options.max_levels,
        before.compaction_controller->Leveled_0.generates(&before.state, priorities, Some(t)),
        way_clear(before.state.layout(), before.state.sstables@, t),
        compaction_laws::compacted(before, after, TaskView::Leveled(t), ssts, watermark),
        compaction::finished_layout(
            before.compaction_controller,
            before.state.layout(),
            TaskView::Leveled(t),
            compaction::sst_ids(ssts),
            after.state.sstables@,
        ) == Ok::<LayoutView, LsmError>(after.state.layout()),
    ensures
        orderly::orderly(after),
        forall|k: Seq<u8>|
            lsm_iterator::live(#[trigger] after.find(key::user_key(k)))
                == lsm_iterator::live(before.find(key::user_key(k))),
{
    let ctrl = before.compaction_controller->Leveled_0;
    let task = TaskView::Leveled(t);
    let tables = before.state.sstables@;
    let more = after.state.sstables@;
    let layout = before.state.layout();
    let next = after.state.layout();
    let pair = choose|pair: Option<(usize, usize)>| #[trigger]
        ctrl.levels_to_compact(&before.state, priorities, pair) && match pair {
            None => false,
            Some((upper, lower)) => ctrl.task_for(&before.state, upper, lower, Some(t)),
        };
    let (upper, lower) = pair->Some_0;
    assert(leveled_task(layout, tables, t)) by {
        if upper == 0 {
            let w = ctrl.options.level0_file_num_compaction_trigger as int;
            assert(layout.l0.take(layout.l0.len() as int) =~= layout.l0);
            if w <= layout.l0.len() {
                assert(t.upper == layout.l0.take(w));
            } else {
                assert(t.upper == layout.l0.take(layout.l0.len() as int));
            }
        } else {
            assert(ctrl.oversized(&before.state, priorities, upper as int));
        }
    }
    let x = t.lower_level - 1;
    lemma_leveled_task(layout, tables, t);
    let (min, max) = leveled::key_span(t.upper, tables)->Some_0;
    assert(lsm_storage::level_wf(layout.levels[x], tables));
    lemma_leveled_parts(t, layout.levels[x], tables, min, max);
    compaction_laws::lemma_output_lookup(before, after, task, ssts, watermark);
    let first = before.next_sst_id;
    assert(leveled_output(tables, t, ssts, first));
    let unsorted = leveled::leveled_layout_after(layout, t, compaction::sst_ids(ssts));
    assert(next.levels == compaction::sorted_levels(unsorted.levels, more));
    lemma_leveled_lower(layout, tables, t, ssts, first);
    lemma_leveled_l0(layout, tables, t, ssts, first);
    assert forall|i: int| 0 <= i < next.levels.len() implies #[trigger] lsm_storage::level_wf(
        next.levels[i],
        more,
    ) by {
        if i != x {
            lemma_leveled_other(layout, tables, t, ssts, first, i);
        }
    }
    assert(lsm_storage::layout_wf(next, more));
    lemma_leveled_apart(layout, tables, t, ssts, first);
    assert(
        next =~= LayoutView { l0: unsorted.l0, levels: compaction::sorted_levels(
            unsorted.levels,
            more,
        ) }
    );
    compaction_laws::lemma_compacted_orderly(before, after, task, ssts, watermark);
    assert(forall|k: Seq<u8>|
        #![trigger key::user_key(k)]
        {
            let m = or_else(
                found(t.upper, tables, key::user_key(k)),
                found(t.lower, tables, key::user_key(k)),
            );
            let n = key::lookup(concat_iterator::tables_from(ssts, 0), key::user_key(k));
            lsm_iterator::live(n) == lsm_iterator::live(m) && (!t.bottom ==> n == m)
        });
    assert forall|k: Seq<u8>| lsm_iterator::live(#[trigger] after.find(key::user_key(k)))
        == lsm_iterator::live(
        before.find(key::user_key(k)),
    ) by {
        lemma_leveled_key(before.state.mem_parts(), layout, tables, t, ssts, first, k);
        assert(next =~= LayoutView { l0: unsorted.l0, levels: next.levels });
        assert(after.state.mem_parts() =~= before.state.mem_parts());
    }
}

/// What a layout holds: what lies above a level, what lies in it, and what lies below.
proof fn lemma_around_level(
    mems: Seq<Seq<Entry>>,
    layout: LayoutView,
    tables: Map<usize, Arc<SsTable>>,
    x: int,
    k: KeyView,
)
    requires
        0 <= x < layout.levels.len(),
    ensures
        iterators::lookup_all(mems + lsm_storage::layout_parts(layout, true, tables), k) == or_else(
            or_else(
                iterators::lookup_all(
                    mems + (lsm_storage::l0_parts(layout.l0, tables) + lsm_storage::level_parts(
                        layout.levels.take(x),
                        tables,
                    )),
                    k,
                ),
                key::lookup(lsm_storage::level_entries(layout.levels[x], tables), k),
            ),
            iterators::lookup_all(lsm_storage::level_parts(layout.levels.skip(x + 1), tables), k),
        ),
{
    let a = mems
        + (
            lsm_storage::l0_parts(layout.l0, tables)
                + lsm_storage::level_parts(layout.levels.take(x), tables)
        );
    let low = lsm_storage::level_entries(layout.levels[x], tables);
    let b = lsm_storage::level_parts(layout.levels.skip(x + 1), tables);
    assert(mems + lsm_storage::layout_parts(layout, true, tables) =~= a + seq![low] + b);
    read::lemma_lookup_all_concat(a + seq![low], b, k);
    read::lemma_lookup_all_concat(a, seq![low], k);
    compaction_laws::lemma_lookup_all_one(low, k);
}

/// What is read of a key before and after a leveled task.
#[verifier::rlimit(40)]
proof fn lemma_leveled_key(
    mems: Seq<Seq<Entry>>,
    layout: LayoutView,
    tables: Map<usize, Arc<SsTable>>,
    t: LevelTaskView,
    ssts: Seq<Arc<SsTable>>,
    first: usize,
    k: Seq<u8>,
)
    requires
        orderly::levels_filled(layout.levels, tables),
        lsm_storage::layout_wf(layout, tables),
        orderly::places_apart(layout),
        orderly::tables_plain(tables),
        leveled_task(layout, tables, t),
        way_clear(layout, tables, t),
        leveled_output(tables, t, ssts, first),
        ({
            let m = or_else(
                found(t.upper, tables, key::user_key(k)),
                found(t.lower, tables, key::user_key(k)),
            );
            let n = key::lookup(concat_iterator::tables_from(ssts, 0), key::user_key(k));
            lsm_iterator::live(n) == lsm_iterator::live(m) && (!t.bottom ==> n == m)
        }),
    ensures
        ({
            let more = compaction_laws::tables_after(tables, ssts, t.upper + t.lower);
            let unsorted = leveled::leveled_layout_after(layout, t, compaction::sst_ids(ssts));
            let next = LayoutView {
                l0: unsorted.l0,
                levels: compaction::sorted_levels(unsorted.levels, more),
            };
            lsm_iterator::live(
                iterators::lookup_all(
                    mems + lsm_storage::layout_parts(next, true, more),
                    key::user_key(k),
                )
            ) == lsm_iterator::live(
                iterators::lookup_all(
                    mems + lsm_storage::layout_parts(layout, true, tables),
                    key::user_key(k),
                ),
            )
        }),
{
    let kv = key::user_key(k);
    let x = t.lower_level - 1;
    let more = compaction_laws::tables_after(tables, ssts, t.upper + t.lower);
    let unsorted = leveled::leveled_layout_after(layout, t, compaction::sst_ids(ssts));
    let levels = compaction::sorted_levels(unsorted.levels, more);
    let next = LayoutView { l0: unsorted.l0, levels };
    lemma_leveled_task(layout, tables, t);
    lemma_leveled_lower(layout, tables, t, ssts, first);
    lemma_leveled_l0(layout, tables, t, ssts, first);
    let a = mems
        + (
            lsm_storage::l0_parts(layout.l0, tables)
                + lsm_storage::level_parts(layout.levels.take(x), tables)
        );
    let c = mems
        + (lsm_storage::l0_parts(next.l0, more) + lsm_storage::level_parts(levels.take(x), more));
    let b = lsm_storage::level_parts(layout.levels.skip(x + 1), tables);
    let d = lsm_storage::level_parts(levels.skip(x + 1), more);
    lemma_around_level(mems, layout, tables, x, kv);
    lemma_around_level(mems, next, more, x, kv);
    assert forall|i: int| 0 <= i < b.len() implies key::lookup(#[trigger] b[i], kv) == key::lookup(
        d[i],
        kv,
    ) by {
        lemma_leveled_other(layout, tables, t, ssts, first, x + 1 + i);
        assert(b[i] == lsm_storage::level_entries(layout.levels[x + 1 + i], tables));
        assert(d[i] == lsm_storage::level_entries(levels[x + 1 + i], more));
    }
    lemma_same_parts(b, d, kv);
    assert forall|i: int| 0 <= i < x implies key::lookup(
        lsm_storage::level_entries(#[trigger] next.levels[i], more),
        kv,
    ) == if takes_from(t, i) {
        found(compact::without(layout.levels[i].1, t.upper), tables, kv)
    } else {
        key::lookup(lsm_storage::level_entries(layout.levels[i], tables), kv)
    } by {
        lemma_leveled_other(layout, tables, t, ssts, first, i);
    }
    lemma_above(mems, layout, tables, t, next, more, kv);
    if t.bottom {
        assert(b =~= Seq::empty());
    }
    lemma_moved_down(
        iterators::lookup_all(a, kv),
        iterators::lookup_all(c, kv),
        found(t.upper, tables, kv),
        found(compact::without(layout.levels[x].1, t.lower), tables, kv),
        found(t.lower, tables, kv),
        key::lookup(concat_iterator::tables_from(ssts, 0), kv),
        iterators::lookup_all(b, kv),
        t.bottom,
    );
}

} // verus!
