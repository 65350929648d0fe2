//! An invariant of the storage engine that every operation keeps.
use crate::iterators;
use crate::key::{self, Entry, KeyView, TS_DEFAULT};
use crate::lsm_storage::{self, LayoutView, LsmStorageInner, LsmStorageState};
use crate::lsm_storage::laws;
use crate::lsm_storage::writes;
use crate::table::SsTable;
use std::sync::Arc;
use vstd::prelude::*;

verus! {

/// No id occurs in both.
pub open spec fn share_none(a: Seq<usize>, b: Seq<usize>) -> bool {
    forall|id: usize| #[trigger] a.contains(id) ==> !b.contains(id)
}

/// No table stands in two levels, or in L0 and in a level.
pub open spec fn places_apart(layout: LayoutView) -> bool {
    &&& forall|i: int, j: int|
        0 <= i < layout.levels.len() && 0 <= j < layout.levels.len() && i != j ==> share_none(
            (#[trigger] layout.levels[i]).1,
            (#[trigger] layout.levels[j]).1,
        )
    &&& forall|i: int|
        0 <= i < layout.levels.len() ==> share_none((#[trigger] layout.levels[i]).1, layout.l0)
}

/// Each of the tables with these ids holds an entry.
pub open spec fn filled(ids: Seq<usize>, tables: Map<usize, Arc<SsTable>>) -> bool {
    forall|id: usize| #[trigger] ids.contains(id) ==> tables[id].entries().len() > 0
}

/// Each table of a level holds an entry.
pub open spec fn levels_filled(
    levels: Seq<(usize, Seq<usize>)>,
    tables: Map<usize, Arc<SsTable>>,
) -> bool {
    forall|i: int| 0 <= i < levels.len() ==> filled((#[trigger] levels[i]).1, tables)
}

/// All keys of all tables are plain user keys.
pub open spec fn tables_plain(tables: Map<usize, Arc<SsTable>>) -> bool {
    forall|id: usize| #[trigger] tables.contains_key(id) ==> key::plain_keys(tables[id].entries())
}

/// The ids from `first` on are not in use.
pub open spec fn unused_from(tables: Map<usize, Arc<SsTable>>, first: usize) -> bool {
    forall|id: usize| #[trigger] tables.contains_key(id) ==> id < first
}

/// All keys of all memtables are plain user keys.
pub open spec fn mems_plain(state: LsmStorageState) -> bool {
    &&& key::plain_keys(state.memtable.entries())
    &&& forall|i: int|
        0 <= i < state.imm_memtables@.len() ==> key::plain_keys(
            (#[trigger] state.imm_memtables@[i]).entries(),
        )
}

/// The engine is well-formed, it holds plain user keys only, no table stands in two places, and
/// the ids that are yet to be handed out are not in use. Where flushed tables go to L0, the tables
/// of the levels hold entries.
pub open spec fn orderly(e: LsmStorageInner) -> bool {
    &&& e.state.wf()
    &&& mems_plain(e.state)
    &&& tables_plain(e.state.sstables@)
    &&& places_apart(e.state.layout())
    &&& unused_from(e.state.sstables@, e.next_sst_id)
    &&& e.uses_l0() ==> levels_filled(e.state.layout().levels, e.state.sstables@)
}

/// The tables of an orderly engine have ids that were handed out.
pub proof fn lemma_ids_used(layout: LayoutView, tables: Map<usize, Arc<SsTable>>, first: usize)
    requires
        lsm_storage::layout_wf(layout, tables),
        unused_from(tables, first),
    ensures
        forall|id: usize| #[trigger] layout.l0.contains(id) ==> id < first,
        forall|i: int, id: usize|
            0 <= i < layout.levels.len() && #[trigger] layout.levels[i].1.contains(id) ==> id
                < first,
{
    assert forall|id: usize| #[trigger] layout.l0.contains(id) implies id < first by {
        let x = choose|x: int| 0 <= x < layout.l0.len() && layout.l0[x] == id;
        assert(tables.contains_key(layout.l0[x]));
    }
    assert forall|i: int, id: usize|
        0 <= i < layout.levels.len() && #[trigger] layout.levels[i].1.contains(id) implies id
        < first by {
        assert(lsm_storage::level_wf(layout.levels[i], tables));
        let x = choose|x: int| 0 <= x < layout.levels[i].1.len() && layout.levels[i].1[x] == id;
        assert(tables.contains_key(layout.levels[i].1[x]));
    }
}

/// Where every level keeps some of its tables, and one level gets new tables, no table stands in
/// two places.
pub proof fn lemma_places_apart(layout: LayoutView, next: LayoutView, x: int, first: usize)
    requires
        places_apart(layout),
        next.levels.len() == layout.levels.len(),
        forall|id: usize| #[trigger] layout.l0.contains(id) ==> id < first,
        forall|i: int, id: usize|
            0 <= i < layout.levels.len() && #[trigger] layout.levels[i].1.contains(id) ==> id
                < first,
        forall|id: usize| #[trigger] next.l0.contains(id) ==> layout.l0.contains(id),
        forall|i: int, id: usize|
            0 <= i < next.levels.len() && #[trigger] next.levels[i].1.contains(id)
                ==> layout.levels[i].1.contains(id) || (i == x && first <= id),
    ensures
        places_apart(next),
{
    assert forall|i: int, j: int|
        0 <= i < next.levels.len() && 0 <= j < next.levels.len() && i != j implies share_none(
        (#[trigger] next.levels[i]).1,
        (#[trigger] next.levels[j]).1,
    ) by {
        assert(share_none(layout.levels[i].1, layout.levels[j].1));
        assert forall|id: usize| #[trigger] next.levels[i].1.contains(
            id,
        ) implies !next.levels[j].1.contains(id) by {}
    }
    assert forall|i: int| 0 <= i < next.levels.len() implies share_none(
        (#[trigger] next.levels[i]).1,
        next.l0,
    ) by {
        assert(share_none(layout.levels[i].1, layout.l0));
        assert forall|id: usize| #[trigger] next.levels[i].1.contains(id) implies !next.l0.contains(
            id,
        ) by {}
    }
}

/// An engine without tables and entries is orderly.
pub proof fn law_new_engine_is_orderly(e: LsmStorageInner)
    requires
        e.state.mems_wf(),
        e.state.memtable.entries().len() == 0,
        e.state.imm_memtables@.len() == 0,
        e.state.l0_sstables@.len() == 0,
        forall|i: int| 0 <= i < e.state.levels@.len()
            ==> (#[trigger] e.state.levels@[i]).1@.len() == 0,
        e.state.sstables@.is_empty(),
    ensures
        orderly(e),
{
    let layout = e.state.layout();
    let tables = e.state.sstables@;
    assert forall|i: int| 0 <= i < layout.levels.len() implies #[trigger] lsm_storage::level_wf(
        layout.levels[i],
        tables,
    ) && layout.levels[i].1.len() == 0 by {
        assert(layout.levels[i].1 == e.state.levels@[i].1@);
        assert(lsm_storage::tables_of(layout.levels[i].1, tables) =~= Seq::empty());
    }
    assert forall|i: int, j: int|
        0 <= i < layout.levels.len() && 0 <= j < layout.levels.len() && i != j implies share_none(
        (#[trigger] layout.levels[i]).1,
        (#[trigger] layout.levels[j]).1,
    ) by {
        assert(lsm_storage::level_wf(layout.levels[i], tables));
    }
    assert forall|i: int| 0 <= i < layout.levels.len() implies share_none(
        (#[trigger] layout.levels[i]).1,
        layout.l0,
    ) by {
        assert(lsm_storage::level_wf(layout.levels[i], tables));
    }
}

/// Freezing a memtable keeps an engine orderly.
pub proof fn law_freeze_keeps_order(before: LsmStorageInner, after: LsmStorageInner, id: usize)
    requires
        orderly(before),
        after.froze(before, id),
        after.next_sst_id >= before.next_sst_id,
    ensures
        orderly(after),
{
    laws::law_freeze_keeps(before, after, id);
    let imm = after.state.imm_memtables@;
    assert forall|i: int| 0 <= i < imm.len()
        implies key::plain_keys((#[trigger] imm[i]).entries()) by {
        if i > 0 {
            assert(imm[i] == before.state.imm_memtables@[i - 1]);
        } else {
            assert(imm[0] == Arc::new(before.state.memtable));
        }
    }
}

proof fn lemma_wrote_keeps_order(before: LsmStorageInner, after: LsmStorageInner, e: Entry)
    requires
        orderly(before),
        after.wrote(before, e),
        e.key.ts == TS_DEFAULT,
    ensures
        orderly(after),
{
    let one = seq![e];
    assert(key::plain_keys(one));
    iterators::lemma_merge2_plain(one, before.state.memtable.entries());
}

/// Writing a plain user key keeps an engine orderly, as long as there are ids left.
pub proof fn law_put_keeps_order(before: LsmStorageInner, after: LsmStorageInner, e: Entry)
    requires
        orderly(before),
        after.put_from(before, e),
        e.key.ts == TS_DEFAULT,
        before.next_sst_id < usize::MAX,
    ensures
        orderly(after),
{
    if before.full_for(e.key.key.len(), e.value.len()) {
        let mid = choose|mid: LsmStorageInner|
            {
                &&& #[trigger] mid.froze(before, before.next_sst_id)
                &&& mid.next_sst_id == lsm_storage::id_after(before.next_sst_id)
                &&& after.wrote(mid, e)
            };
        law_freeze_keeps_order(before, mid, before.next_sst_id);
        lemma_wrote_keeps_order(mid, after, e);
    } else {
        lemma_wrote_keeps_order(before, after, e);
    }
}

/// Writing a batch of plain user keys keeps an engine orderly, as long as there are ids left.
pub proof fn law_batch_keeps_order(steps: Seq<LsmStorageInner>, es: Seq<Entry>)
    requires
        writes::put_steps(steps, es),
        key::plain_keys(es),
        orderly(steps[0]),
        forall|i: int| 0 <= i < es.len() ==> (#[trigger] steps[i]).next_sst_id < usize::MAX,
    ensures
        orderly(steps.last()),
    decreases es.len(),
{
    if es.len() > 0 {
        let front = steps.drop_last();
        let n = es.len() - 1;
        let fewer = es.drop_last();
        assert forall|i: int| 0 <= i < fewer.len() implies (#[trigger] front[i + 1]).put_from(
            front[i],
            fewer[i],
        ) by {
            assert(steps[i + 1].put_from(steps[i], es[i]));
        }
        assert forall|i: int| 0 <= i < fewer.len() implies (#[trigger] front[i]).next_sst_id
            < usize::MAX by {
            assert(front[i] == steps[i]);
        }
        law_batch_keeps_order(front, fewer);
        assert(front.last() == steps[n]);
        assert(steps[n + 1].put_from(steps[n], es[n]));
        assert(es[n].key.ts == TS_DEFAULT);
        law_put_keeps_order(steps[n], steps[n + 1], es[n]);
    }
}

/// Flushing a memtable keeps an engine orderly, where the table is one that can be read: it holds
/// the entries of the memtable under an id that was just handed out.
pub proof fn law_flush_keeps_order(before: LsmStorageInner, after: LsmStorageInner, table: SsTable)
    requires
        orderly(before),
        before.state.imm_memtables@.len() > 0,
        before.next_sst_id < usize::MAX,
        table.wf(),
        table.id == before.next_sst_id,
        table.entries() == before.state.imm_memtables@.last().entries(),
        ({
            let mid = LsmStorageInner { next_sst_id: lsm_storage::id_after(before.next_sst_id), ..before };
            after.flushed_from(mid, table)
        }),
    ensures
        orderly(after),
        forall|k: KeyView| #[trigger] after.find(k) == before.find(k),
{
    let mid = LsmStorageInner { next_sst_id: lsm_storage::id_after(before.next_sst_id), ..before };
    let id = table.id;
    let layout = before.state.layout();
    let next = after.state.layout();
    let first = before.next_sst_id;
    assert(mid.state == before.state);
    assert forall|k: KeyView| #[trigger] mid.find(k) == before.find(k) by {}
    assert(!before.state.sstables@.contains_key(id));
    laws::law_flush_keeps(mid, after, table);
    lemma_ids_used(layout, before.state.sstables@, first);
    assert(places_apart(next)) by {
        if before.uses_l0() {
            assert forall|x: usize| #[trigger] next.l0.contains(x) implies x == id
                || layout.l0.contains(x) by {
                let i = choose|i: int| 0 <= i < next.l0.len() && next.l0[i] == x;
                if i > 0 {
                    assert(layout.l0[i - 1] == x);
                }
            }
            assert forall|i: int| 0 <= i < next.levels.len() implies share_none(
                (#[trigger] next.levels[i]).1,
                next.l0,
            ) by {
                assert(share_none(layout.levels[i].1, layout.l0));
                assert forall|x: usize| #[trigger] next.levels[i].1.contains(
                    x,
                ) implies !next.l0.contains(x) by {
                    assert(layout.levels[i].1.contains(x));
                }
            }
        } else {
            assert forall|x: usize| #[trigger] next.levels[0].1.contains(x) implies x == id by {}
            assert forall|i: int, j: int|
                0 <= i < next.levels.len() && 0 <= j < next.levels.len() && i
                    != j implies share_none(
                (#[trigger] next.levels[i]).1,
                (#[trigger] next.levels[j]).1,
            ) by {
                if i > 0 {
                    assert(next.levels[i] == layout.levels[i - 1]);
                }
                if j > 0 {
                    assert(next.levels[j] == layout.levels[j - 1]);
                }
                if i > 0 && j > 0 {
                    assert(share_none(layout.levels[i - 1].1, layout.levels[j - 1].1));
                } else {
                    assert forall|x: usize| #[trigger] next.levels[i].1.contains(
                        x,
                    ) implies !next.levels[j].1.contains(x) by {
                        if next.levels[j].1.contains(x) {
                            if i > 0 {
                                assert(layout.levels[i - 1].1.contains(x));
                            } else {
                                assert(layout.levels[j - 1].1.contains(x));
                            }
                        }
                    }
                }
            }
            assert forall|i: int| 0 <= i < next.levels.len() implies share_none(
                (#[trigger] next.levels[i]).1,
                next.l0,
            ) by {
                if i > 0 {
                    assert(next.levels[i] == layout.levels[i - 1]);
                    assert(share_none(layout.levels[i - 1].1, layout.l0));
                }
            }
        }
    }
    assert forall|i: int| 0 <= i < after.state.imm_memtables@.len() implies key::plain_keys(
        (#[trigger] after.state.imm_memtables@[i]).entries(),
    ) by {
        assert(after.state.imm_memtables@[i] == before.state.imm_memtables@[i]);
    }
}

} // verus!
