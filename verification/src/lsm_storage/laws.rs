//! What holds of the storage engine as a whole.
use crate::bound::{self, Bound};
use crate::iterators::{self, StorageIterator};
use crate::iterators::concat_iterator;
use crate::key::{self, Entry, KeyView, TS_DEFAULT};
use crate::lsm_iterator::{self, FusedIterator, LsmIterator};
use crate::lsm_storage::{self, LayoutView, LsmStorageInner};
use crate::lsm_storage::flush;
use crate::lsm_storage::scan;
use crate::lsm_storage::writes;
use crate::mem_table;
use crate::table::SsTable;
use std::sync::Arc;
use vstd::prelude::*;

verus! {

/// A part without entries is passed over.
proof fn lemma_lookup_all_empty_front(ps: Seq<Seq<Entry>>, k: KeyView)
    requires
        ps.len() > 0,
        ps[0].len() == 0,
    ensures
        iterators::lookup_all(ps, k) == iterators::lookup_all(ps.drop_first(), k),
{
}

/// Two engines in which every key is found with the same value have the same merged contents.
proof fn lemma_same_contents(a: LsmStorageInner, b: LsmStorageInner)
    requires
        a.state.wf(),
        b.state.wf(),
        forall|k: KeyView| #[trigger] a.find(k) == b.find(k),
    ensures
        a.contents() == b.contents(),
{
    a.state.lemma_parts_sorted(a.uses_l0());
    b.state.lemma_parts_sorted(b.uses_l0());
    assert forall|k: KeyView| #[trigger] key::lookup(a.contents(), k)
        == key::lookup(b.contents(), k) by {
        iterators::law_merge_all(a.state.parts(a.uses_l0()), k);
        iterators::law_merge_all(b.state.parts(b.uses_l0()), k);
        assert(a.find(k) == b.find(k));
    }
    key::lemma_same_lookups(a.contents(), b.contents());
}

/// Freezing a memtable keeps the engine well-formed and changes nothing of what is found. The next
/// step towards a table is to flush.
pub proof fn law_freeze_keeps(before: LsmStorageInner, after: LsmStorageInner, id: usize)
    requires
        before.state.wf(),
        after.froze(before, id),
    ensures
        after.state.wf(),
        forall|k: KeyView| #[trigger] after.find(k) == before.find(k),
        after.contents() == before.contents(),
        after.left_to_flush() is Flush,
{
    let imm = after.state.imm_memtables@;
    assert forall|i: int| 0 <= i < imm.len() implies (#[trigger] imm[i]).wf() by {
        if i > 0 {
            assert(imm[i] == before.state.imm_memtables@[i - 1]);
        } else {
            assert(imm[0] == Arc::new(before.state.memtable));
        }
    }
    let l0 = before.uses_l0();
    assert forall|k: KeyView| #[trigger] after.find(k) == before.find(k) by {
        let ps = after.state.parts(l0);
        let qs = before.state.parts(l0);
        lemma_lookup_all_empty_front(ps, k);
        assert(ps.drop_first() =~= qs) by {
            assert forall|i: int| 0 <= i < qs.len() implies ps[i + 1] == qs[i] by {
                let n = before.state.imm_memtables@.len();
                if i == 0 {
                    assert(ps[1] == imm[0].entries());
                } else if i <= n {
                    assert(ps[i + 1] == imm[i].entries());
                    assert(imm[i] == before.state.imm_memtables@[i - 1]);
                }
            }
        }
    }
    lemma_same_contents(after, before);
}

/// Writing an entry into the current memtable changes its key alone.
proof fn lemma_wrote(before: LsmStorageInner, after: LsmStorageInner, e: Entry)
    requires
        before.state.wf(),
        after.wrote(before, e),
    ensures
        after.state.wf(),
        forall|k: KeyView| #[trigger]
            after.find(k) == if k == e.key {
                Some(e.value)
            } else {
                before.find(k)
            },
{
    let l0 = before.uses_l0();
    assert forall|k: KeyView| #[trigger]
        after.find(k) == if k == e.key {
            Some(e.value)
        } else {
            before.find(k)
        } by {
        mem_table::law_put_then_get(before.state.memtable, after.state.memtable, e, k);
        let ps = after.state.parts(l0);
        let qs = before.state.parts(l0);
        assert(ps.drop_first() =~= qs.drop_first());
        assert(ps[0] == after.state.memtable.entries());
        assert(qs[0] == before.state.memtable.entries());
    }
}

/// What was put in last under a key is what is found there, and other keys keep their values. So
/// the engine gives back what was written, and a deleted key is not found.
pub proof fn law_put_then_find(before: LsmStorageInner, after: LsmStorageInner, e: Entry)
    requires
        before.state.wf(),
        after.put_from(before, e),
    ensures
        after.state.wf(),
        forall|k: KeyView| #[trigger]
            after.find(k) == if k == e.key {
                Some(e.value)
            } else {
                before.find(k)
            },
{
    if before.full_for(e.key.key.len(), e.value.len()) {
        let mid = choose|mid: LsmStorageInner|
            {
                &&& #[trigger] mid.froze(before, before.next_sst_id)
                &&& mid.next_sst_id == lsm_storage::id_after(before.next_sst_id)
                &&& after.wrote(mid, e)
            };
        law_freeze_keeps(before, mid, before.next_sst_id);
        lemma_wrote(mid, after, e);
    } else {
        lemma_wrote(before, after, e);
    }
}

/// After a batch, a key that it wrote has the value of its last write, and other keys keep theirs.
pub proof fn law_batch_then_find(steps: Seq<LsmStorageInner>, es: Seq<Entry>)
    requires
        writes::put_steps(steps, es),
        steps[0].state.wf(),
    ensures
        steps.last().state.wf(),
        forall|k: KeyView| #[trigger]
            steps.last().find(k) == match writes::last_write(es, k) {
                Some(v) => Some(v),
                None => steps[0].find(k),
            },
    decreases es.len(),
{
    if es.len() > 0 {
        let front = steps.drop_last();
        let n = es.len() - 1;
        assert forall|i: int| 0 <= i < es.drop_last().len() implies (
        #[trigger] front[i + 1]).put_from(front[i], es.drop_last()[i]) by {
            assert(steps[i + 1].put_from(steps[i], es[i]));
        }
        law_batch_then_find(front, es.drop_last());
        assert(steps[n + 1].put_from(steps[n], es[n]));
        law_put_then_find(steps[n], steps[n + 1], es[n]);
        assert(front.last() == steps[n]);
        assert forall|k: KeyView| #[trigger]
            steps.last().find(k) == match writes::last_write(es, k) {
                Some(v) => Some(v),
                None => steps[0].find(k),
            } by {
            assert(steps[n].find(k) == match writes::last_write(es.drop_last(), k) {
                Some(v) => Some(v),
                None => steps[0].find(k),
            });
        }
    }
}

/// Flushing a memtable, be it one without entries, to a table that holds its entries keeps the
/// engine well-formed and changes nothing of what is found.
pub proof fn law_flush_keeps(before: LsmStorageInner, after: LsmStorageInner, table: SsTable)
    requires
        before.state.wf(),
        before.state.imm_memtables@.len() > 0,
        after.flushed_from(before, table),
        table.wf(),
        table.entries() == before.state.imm_memtables@.last().entries(),
        !before.state.sstables@.contains_key(table.id),
    ensures
        after.state.wf(),
        forall|k: KeyView| #[trigger] after.find(k) == before.find(k),
        after.contents() == before.contents(),
{
    let with_l0 = before.uses_l0();
    let tables = before.state.sstables@;
    let more = after.state.sstables@;
    let layout = before.state.layout();
    let next = after.state.layout();
    let id = table.id;
    lemma_layout_insert(layout, tables, Arc::new(table));
    assert(lsm_storage::layout_wf(layout, more));
    if with_l0 {
        assert forall|i: int| 0 <= i < next.l0.len() implies more.contains_key(
            #[trigger] next.l0[i],
        ) && more[next.l0[i]].wf() by {
            if i > 0 {
                assert(next.l0[i] == layout.l0[i - 1]);
            }
        }
    } else {
        let ts = lsm_storage::tables_of(seq![id], more);
        assert(ts =~= seq![Arc::new(table)]);
        assert(concat_iterator::tables_from(ts, 1) =~= Seq::empty());
        assert(concat_iterator::tables_from(ts, 0) =~= table.entries());
        assert forall|i: int| 0 <= i < next.levels.len() implies #[trigger] lsm_storage::level_wf(
            next.levels[i],
            more,
        ) by {
            if i > 0 {
                assert(next.levels[i] == layout.levels[i - 1]);
                assert(lsm_storage::level_wf(layout.levels[i - 1], more));
            } else {
                assert(next.levels[0] == (id, seq![id]));
            }
        }
    }
    let imm = before.state.imm_memtables@;
    assert forall|i: int| 0 <= i < after.state.imm_memtables@.len() implies (
    #[trigger] after.state.imm_memtables@[i]).wf() by {
        assert(after.state.imm_memtables@[i] == imm[i]);
    }
    assert forall|k: KeyView| #[trigger] after.find(k) == before.find(k) by {
        let mems = before.state.mem_parts();
        let fewer = after.state.mem_parts();
        let rest = lsm_storage::layout_parts(layout, with_l0, tables);
        let parts = lsm_storage::layout_parts(next, with_l0, more);
        assert(lsm_storage::layout_parts(layout, with_l0, more) =~= rest);
        assert(mems =~= fewer.push(table.entries())) by {
            assert forall|i: int| 0 <= i < mems.len() implies mems[i] == fewer.push(
                table.entries(),
            )[i] by {
                if 0 < i < mems.len() - 1 {
                    assert(mems[i] == imm[i - 1].entries());
                    assert(fewer[i] == after.state.imm_memtables@[i - 1].entries());
                }
            }
        }
        assert(parts =~= seq![table.entries()] + rest) by {
            lemma_flushed_parts(layout, with_l0, tables, Arc::new(table));
        }
        assert(after.state.parts(with_l0) =~= before.state.parts(with_l0));
    }
    lemma_same_contents(after, before);
}

/// A new table under an id that is not in use changes nothing of a layout.
proof fn lemma_layout_insert(
    layout: LayoutView,
    tables: Map<usize, Arc<SsTable>>,
    table: Arc<SsTable>,
)
    requires
        lsm_storage::layout_wf(layout, tables),
        !tables.contains_key(table.id),
    ensures
        lsm_storage::layout_wf(layout, tables.insert(table.id, table)),
        lsm_storage::l0_parts(layout.l0, tables.insert(table.id, table))
            == lsm_storage::l0_parts(layout.l0, tables),
        lsm_storage::level_parts(layout.levels, tables.insert(table.id, table))
            == lsm_storage::level_parts(
            layout.levels,
            tables,
        ),
{
    let more = tables.insert(table.id, table);
    assert forall|i: int| 0 <= i < layout.l0.len() implies more.contains_key(
        #[trigger] layout.l0[i],
    ) && more[layout.l0[i]].wf() && more[layout.l0[i]] == tables[layout.l0[i]] by {
        assert(tables.contains_key(layout.l0[i]));
    }
    assert forall|i: int| 0 <= i < layout.levels.len() implies #[trigger] lsm_storage::level_wf(
        layout.levels[i],
        more,
    ) && lsm_storage::level_entries(layout.levels[i], more)
        == lsm_storage::level_entries(layout.levels[i], tables) by {
        let level = layout.levels[i];
        assert(lsm_storage::level_wf(level, tables));
        assert forall|j: int| 0 <= j < level.1.len() implies more.contains_key(
            #[trigger] level.1[j],
        ) && more[level.1[j]] == tables[level.1[j]] by {
            assert(tables.contains_key(level.1[j]));
        }
        assert(lsm_storage::tables_of(level.1, more) =~= lsm_storage::tables_of(level.1, tables));
    }
    assert(lsm_storage::l0_parts(layout.l0, more) =~= lsm_storage::l0_parts(layout.l0, tables));
    assert(
        lsm_storage::level_parts(layout.levels, more)
            =~= lsm_storage::level_parts(layout.levels, tables)
    ) by {
        assert forall|i: int| 0 <= i < layout.levels.len() implies lsm_storage::level_entries(
            layout.levels[i],
            more,
        ) == lsm_storage::level_entries(layout.levels[i], tables) by {
            assert(lsm_storage::level_wf(layout.levels[i], more));
        }
    }
}

/// A flushed table stands before all other tables.
proof fn lemma_flushed_parts(
    layout: LayoutView,
    with_l0: bool,
    tables: Map<usize, Arc<SsTable>>,
    table: Arc<SsTable>,
)
    requires
        lsm_storage::layout_wf(layout, tables),
        !tables.contains_key(table.id),
    ensures
        lsm_storage::layout_parts(
            flush::flushed_layout(layout, table.id, with_l0),
            with_l0,
            tables.insert(table.id, table),
        ) == seq![table.entries()] + lsm_storage::layout_parts(layout, with_l0, tables),
{
    let more = tables.insert(table.id, table);
    let next = flush::flushed_layout(layout, table.id, with_l0);
    lemma_layout_insert(layout, tables, table);
    let l0 = if with_l0 {
        lsm_storage::l0_parts(layout.l0, more)
    } else {
        Seq::empty()
    };
    let runs = lsm_storage::level_parts(layout.levels, more);
    let parts = lsm_storage::layout_parts(next, with_l0, more);
    if with_l0 {
        assert(lsm_storage::l0_parts(next.l0, more) =~= seq![table.entries()] + l0);
        assert(parts =~= seq![table.entries()] + (l0 + runs));
    } else {
        let ts = lsm_storage::tables_of(seq![table.id], more);
        assert(ts =~= seq![table]);
        assert(concat_iterator::tables_from(ts, 1) =~= Seq::empty());
        assert(concat_iterator::tables_from(ts, 0) =~= table.entries());
        assert(lsm_storage::level_parts(next.levels, more) =~= seq![table.entries()] + runs) by {
            assert forall|i: int| 0 < i < next.levels.len() implies lsm_storage::level_parts(
                next.levels,
                more,
            )[i] == runs[i - 1] by {
                assert(next.levels[i] == layout.levels[i - 1]);
            }
        }
        assert(parts =~= seq![table.entries()] + (l0 + runs));
    }
}

/// Where all keys are plain user keys, a scan at the newest timestamp shows a key exactly with the
/// value that getting it gives.
pub proof fn law_scan_agrees_with_get(inner: LsmStorageInner, k: Seq<u8>)
    requires
        inner.state.wf(),
        key::plain_keys(inner.contents()),
    ensures
        key::lookup(
            lsm_iterator::visible(inner.contents(), Bound::Unbounded, u64::MAX, None),
            key::user_key(k),
        ) == lsm_iterator::live(
            inner.find(key::user_key(k)),
        ),
{
    let all = inner.contents();
    inner.state.lemma_parts_sorted(inner.uses_l0());
    iterators::law_merge_all(inner.state.parts(inner.uses_l0()), key::user_key(k));
    lsm_iterator::law_visible(all, Bound::Unbounded, u64::MAX, k);
    lemma_plain_snapshot(all, k);
}

/// Of plain user keys, what is seen at the newest timestamp is what is found.
pub proof fn lemma_plain_snapshot(s: Seq<Entry>, k: Seq<u8>)
    requires
        key::plain_keys(s),
    ensures
        lsm_iterator::snapshot(s, k, u64::MAX) == key::lookup(s, key::user_key(k)),
    decreases s.len(),
{
    if s.len() > 0 {
        let t = s.drop_first();
        assert(key::plain_keys(t)) by {
            assert forall|i: int| 0 <= i < t.len() implies (#[trigger] t[i]).key.ts
                == TS_DEFAULT by {
                assert(t[i] == s[i + 1]);
            }
        }
        assert(s[0].key.ts == TS_DEFAULT);
        if s[0].key.key == k {
            assert(s[0].key =~= key::user_key(k));
        }
        lemma_plain_snapshot(t, k);
    }
}

/// A scan shows the user keys in its range in order, each with the newest version that the reader
/// may see, and no deleted key.
pub proof fn law_scan_shows(
    inner: LsmStorageInner,
    lower: Bound<Seq<u8>>,
    upper: Bound<Seq<u8>>,
    read_ts: u64,
    k: Seq<u8>,
)
    requires
        inner.state.wf(),
    ensures
        ({
            let shown = lsm_iterator::visible(
                bound::clip(inner.contents(), lower, upper),
                Bound::Unbounded,
                read_ts,
                None,
            );
            &&& key::sorted(shown)
            &&& key::lookup(shown, key::user_key(k)) == if bound::in_range(k, lower, upper) {
                lsm_iterator::live(lsm_iterator::snapshot(inner.contents(), k, read_ts))
            } else {
                None
            }
        }),
{
    let all = inner.contents();
    inner.state.lemma_parts_sorted(inner.uses_l0());
    let c = bound::clip(all, lower, upper);
    bound::lemma_clip(all, lower, upper);
    lsm_iterator::law_visible(c, Bound::Unbounded, read_ts, k);
    if bound::in_range(k, lower, upper) {
        assert forall|x: KeyView| x.key == k
            implies #[trigger] key::lookup(c, x) == key::lookup(all, x) by {
            assert(key::lookup(c, x) == if bound::in_range(x.key, lower, upper) {
                key::lookup(all, x)
            } else {
                None
            });
        }
        scan::lemma_snapshot_same(c, all, k, read_ts);
    } else {
        assert forall|i: int| 0 <= i < c.len() implies #[trigger] c[i].key.key != k by {
            let x = c[i].key;
            key::lemma_lookup(c, x);
            assert(key::lookup(c, x) == if bound::in_range(x.key, lower, upper) {
                key::lookup(all, x)
            } else {
                None
            });
        }
        lsm_iterator::lemma_snapshot_none(c, k, read_ts);
    }
}

/// Stepping a scan to its end shows user keys in order: exactly those in its range that a reader
/// at its timestamp sees, each with the value that it sees.
pub proof fn law_scan_walk(
    inner: LsmStorageInner,
    lower: Bound<Seq<u8>>,
    upper: Bound<Seq<u8>>,
    read_ts: u64,
    steps: Seq<FusedIterator<LsmIterator>>,
    k: Seq<u8>,
)
    requires
        inner.state.wf(),
        iterators::walked(steps),
        StorageIterator::remaining(&steps[0]) == lsm_iterator::visible(
            bound::clip(inner.contents(), lower, upper),
            Bound::Unbounded,
            read_ts,
            None,
        ),
    ensures
        key::sorted(iterators::shown(steps)),
        key::lookup(iterators::shown(steps), key::user_key(k))
            == if bound::in_range(k, lower, upper) {
            lsm_iterator::live(lsm_iterator::snapshot(inner.contents(), k, read_ts))
        } else {
            None
        },
        key::plain_keys(inner.contents()) && read_ts == u64::MAX
            ==> key::lookup(iterators::shown(steps), key::user_key(k))
            == if bound::in_range(k, lower, upper) {
            lsm_iterator::live(inner.find(key::user_key(k)))
        } else {
            None
        },
{
    iterators::law_walk_shows(steps);
    law_scan_shows(inner, lower, upper, read_ts, k);
    if key::plain_keys(inner.contents()) && read_ts == u64::MAX {
        inner.state.lemma_parts_sorted(inner.uses_l0());
        iterators::law_merge_all(inner.state.parts(inner.uses_l0()), key::user_key(k));
        lemma_plain_snapshot(inner.contents(), k);
    }
}

/// A write goes into the current memtable, unless that would reach the target size of a table with
/// it; then the memtable is frozen first, and a new one with the next id holds the write alone. The
/// size of a memtable is that of the keys and values that were put into it.
pub proof fn law_write_freezes(before: LsmStorageInner, after: LsmStorageInner, e: Entry)
    requires
        before.state.memtable.wf(),
        after.put_from(before, e),
        before.state.memtable.approximate_size + e.key.key.len() + e.value.len() <= usize::MAX,
    ensures
        before.state.memtable.approximate_size + e.key.key.len() + e.value.len()
            >= before.options.target_sst_size ==> {
            &&& after.state.imm_memtables@.len() == before.state.imm_memtables@.len() + 1
            &&& *after.state.imm_memtables@[0] == before.state.memtable
            &&& after.state.imm_memtables@.drop_first() == before.state.imm_memtables@
            &&& after.state.memtable.id == before.next_sst_id
            &&& after.state.memtable.entries() == seq![e]
            &&& after.state.memtable.approximate_size == e.key.key.len() + e.value.len()
        },
        before.state.memtable.approximate_size + e.key.key.len() + e.value.len()
            < before.options.target_sst_size ==> {
            &&& after.state.imm_memtables@ == before.state.imm_memtables@
            &&& after.state.memtable.id == before.state.memtable.id
            &&& after.next_sst_id == before.next_sst_id
            &&& after.state.memtable.approximate_size == before.state.memtable.approximate_size
                + e.key.key.len() + e.value.len()
        },
{
    if before.full_for(e.key.key.len(), e.value.len()) {
        let mid = choose|mid: LsmStorageInner|
            {
                &&& #[trigger] mid.froze(before, before.next_sst_id)
                &&& mid.next_sst_id == lsm_storage::id_after(before.next_sst_id)
                &&& after.wrote(mid, e)
            };
        assert(after.state.imm_memtables@.drop_first() =~= before.state.imm_memtables@);
        assert(iterators::merge2(seq![e], Seq::empty()) =~= seq![e]);
    }
}

/// A memtable is flushed to the first place of L0, or with tiers to a tier of its own before all
/// others, which is named after its table; it is the earliest immutable one that goes.
pub proof fn law_flush_place(before: LsmStorageInner, after: LsmStorageInner, table: SsTable)
    requires
        after.flushed_from(before, table),
        before.state.imm_memtables@.len() > 0,
    ensures
        !(before.compaction_controller is Tiered) ==> {
            &&& after.state.l0_sstables@ == seq![table.id] + before.state.l0_sstables@
            &&& after.state.levels_seq() == before.state.levels_seq()
        },
        before.compaction_controller is Tiered ==> {
            &&& after.state.l0_sstables@ == before.state.l0_sstables@
            &&& after.state.levels_seq() == seq![(table.id, seq![table.id])]
                + before.state.levels_seq()
        },
        after.state.imm_memtables@.push(before.state.imm_memtables@.last())
            == before.state.imm_memtables@,
        after.state.sstables@.contains_key(table.id),
        *after.state.sstables@[table.id] == table,
{
    assert(after.state.layout().l0 == after.state.l0_sstables@);
    assert(after.state.layout().levels == after.state.levels_seq());
    let id = table.id;
    assert(before.state.l0_sstables@.insert(0, id) =~= seq![id] + before.state.l0_sstables@);
    assert(before.state.levels_seq().insert(0, (id, seq![id])) =~= seq![(id, seq![id])]
        + before.state.levels_seq());
    assert(after.state.imm_memtables@.push(before.state.imm_memtables@.last())
        =~= before.state.imm_memtables@);
}

} // verus!
