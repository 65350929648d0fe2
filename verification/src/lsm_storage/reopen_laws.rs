//! That an engine which is opened again tells what it told.
use crate::iterators;
use crate::iterators::concat_iterator;
use crate::key::{self, Entry, KeyView};
use crate::lsm_iterator;
use crate::lsm_storage::{self, LayoutView, LsmStorageInner};
use crate::lsm_storage::laws;
use crate::lsm_storage::orderly;
use crate::lsm_storage::read;
use crate::lsm_storage::recovery::{self, Recovery};
use crate::lsm_storage::replay_laws;
use crate::lsm_storage::writes;
use crate::manifest::ManifestRecord;
use crate::mem_table::{self, MemTable};
use crate::table::SsTable;
use crate::table::builder;
use crate::versions;
use crate::wal;
use std::sync::Arc;
use vstd::prelude::*;

verus! {

/// A log is made of these batches, and `es` is what they leave: under each key its last write.
pub open spec fn log_batches(log: Seq<u8>, batches: Seq<Seq<Entry>>, es: Seq<Entry>) -> bool {
    &&& log == wal::log_bytes(batches)
    &&& forall|i: int| 0 <= i < batches.len() ==> wal::batch_fits(#[trigger] batches[i])
    &&& key::sorted(es)
    &&& forall|k: KeyView| #[trigger] key::lookup(es, k)
        == writes::last_write(wal::batch_records(batches), k)
}

/// A log of whole batches, which leave `es`.
pub open spec fn log_of(log: Seq<u8>, es: Seq<Entry>) -> bool {
    exists|batches: Seq<Seq<Entry>>| #[trigger] log_batches(log, batches, es)
}

/// `log` and what is yet to be written to it is the log of the memtable.
pub open spec fn logged(m: MemTable, log: Seq<u8>) -> bool {
    &&& m.wf()
    &&& m.wal is Some
    &&& log_of(log + m.wal->Some_0.pending@, m.entries())
}

/// A new memtable has an empty log.
pub proof fn law_new_memtable_logged(m: MemTable)
    requires
        m.wf(),
        m.wal is Some,
        m.wal->Some_0.pending@.len() == 0,
        m.entries() == Seq::<Entry>::empty(),
    ensures
        logged(m, Seq::empty()),
{
    let none = Seq::<Seq<Entry>>::empty();
    assert(Seq::<u8>::empty() + m.wal->Some_0.pending@ =~= wal::log_bytes(none));
    assert(log_batches(Seq::<u8>::empty() + m.wal->Some_0.pending@, none, m.entries()));
}

/// One more batch at the end of a log.
proof fn lemma_log_push(batches: Seq<Seq<Entry>>, es: Seq<Entry>)
    ensures
        wal::log_bytes(batches.push(es)) == wal::log_bytes(batches) + wal::batch_bytes(es),
        wal::batch_records(batches.push(es)) == wal::batch_records(batches) + es,
    decreases batches.len(),
{
    let more = batches.push(es);
    if batches.len() == 0 {
        assert(more.drop_first() =~= batches);
        assert(wal::log_bytes(more) =~= wal::log_bytes(batches) + wal::batch_bytes(es));
        assert(wal::batch_records(more) =~= wal::batch_records(batches) + es);
    } else {
        assert(more.drop_first() =~= batches.drop_first().push(es));
        lemma_log_push(batches.drop_first(), es);
        assert(wal::log_bytes(more) =~= wal::log_bytes(batches) + wal::batch_bytes(es));
        assert(wal::batch_records(more) =~= wal::batch_records(batches) + es);
    }
}

/// What is put into a memtable is put into its log: the log stays that of the memtable.
pub proof fn law_put_logged(before: MemTable, after: MemTable, e: Entry, log: Seq<u8>)
    requires
        logged(before, log),
        after.put_from(before, e),
        wal::record_fits(e),
    ensures
        logged(after, log),
{
    broadcast use crate::codec::lemma_be_bytes_len;

    let s = log + before.wal->Some_0.pending@;
    let batches = choose|batches: Seq<Seq<Entry>>| #[trigger]
        log_batches(s, batches, before.entries());
    let one = seq![e];
    let more = batches.push(one);
    lemma_log_push(batches, one);
    let t = log + after.wal->Some_0.pending@;
    assert(t =~= s + wal::batch_bytes(one));
    assert(wal::batch_fits(one)) by {
        assert(one.drop_last() =~= Seq::empty());
        reveal_with_fuel(wal::records_bytes, 2);
    }
    assert forall|i: int| 0 <= i < more.len() implies wal::batch_fits(#[trigger] more[i]) by {
        if i < batches.len() {
            assert(more[i] == batches[i]);
        }
    }
    let rs = wal::batch_records(batches);
    versions::lemma_listing(versions::contents(after.map));
    assert forall|k: KeyView| #[trigger] key::lookup(after.entries(), k)
        == writes::last_write(rs + one, k) by {
        mem_table::law_put_then_get(before, after, e, k);
        assert((rs + one).drop_last() =~= rs);
        assert(key::lookup(before.entries(), k) == writes::last_write(rs, k));
    }
    assert(log_batches(t, more, after.entries()));
}

/// Writing out what was logged leaves the log that of the memtable.
pub proof fn law_sync_logged(before: MemTable, after: MemTable, bytes: Seq<u8>, log: Seq<u8>)
    requires
        logged(before, log),
        bytes == before.wal->Some_0.pending@,
        after.map == before.map,
        after.wal is Some,
        after.wal->Some_0.pending@.len() == 0,
    ensures
        logged(after, log + bytes),
{
    assert((log + bytes) + after.wal->Some_0.pending@ =~= log + before.wal->Some_0.pending@);
}

/// A memtable that is recovered from a log holds what the log leaves, and the log is its log.
pub proof fn law_recovered_holds(m: MemTable, id: usize, log: Seq<u8>, es: Seq<Entry>)
    requires
        log_of(log, es),
        recovery::recovered(m, id, log),
    ensures
        wal::scan_log(log).1 is None,
        m.entries() == es,
        logged(m, log),
{
    let batches = choose|batches: Seq<Seq<Entry>>| #[trigger] log_batches(log, batches, es);
    wal::law_recover_logged(batches, Seq::empty());
    versions::lemma_listing(versions::contents(m.map));
    assert forall|k: KeyView| #[trigger] key::lookup(m.entries(), k) == key::lookup(es, k) by {
        recovery::law_recovered_memtable(m, id, batches, k);
    }
    key::lemma_same_lookups(m.entries(), es);
    assert(log + m.wal->Some_0.pending@ =~= log);
}

/// What the memtables tell of a key, the flushed ones included, is what the engine tells of it.
/// `flushed` holds the entries of the memtables that were flushed, from latest to earliest.
pub open spec fn logs_agree(e: LsmStorageInner, flushed: Seq<Seq<Entry>>) -> bool {
    forall|k: Seq<u8>|
        iterators::lookup_all(e.state.mem_parts() + flushed, key::user_key(k)) is Some
            ==> lsm_iterator::live(
            #[trigger] e.find(key::user_key(k)),
        ) == lsm_iterator::live(
            iterators::lookup_all(e.state.mem_parts() + flushed, key::user_key(k))
        )
}

/// The memtables that an engine has agree with it.
pub proof fn law_memtables_agree(e: LsmStorageInner)
    ensures
        logs_agree(e, Seq::empty()),
{
    let mems = e.state.mem_parts();
    assert(mems + Seq::<Seq<Entry>>::empty() =~= mems);
    assert forall|k: Seq<u8>| iterators::lookup_all(mems, key::user_key(k)) is Some
        implies lsm_iterator::live(
        #[trigger] e.find(key::user_key(k)),
    ) == lsm_iterator::live(iterators::lookup_all(mems, key::user_key(k))) by {
        read::lemma_lookup_all_concat(
            mems,
            lsm_storage::layout_parts(e.state.layout(), e.uses_l0(), e.state.sstables@),
            key::user_key(k),
        );
    }
}

/// What a write leaves of the memtables, the flushed ones included.
proof fn lemma_put_mems(before: LsmStorageInner, after: LsmStorageInner, e: Entry, k: KeyView)
    requires
        before.state.wf(),
        after.put_from(before, e),
    ensures
        iterators::lookup_all(after.state.mem_parts(), k) == if k == e.key {
            Some(e.value)
        } else {
            iterators::lookup_all(before.state.mem_parts(), k)
        },
{
    if before.full_for(e.key.key.len(), e.value.len()) {
        let mid = choose|mid: LsmStorageInner|
            {
                &&& #[trigger] mid.froze(before, before.next_sst_id)
                &&& mid.next_sst_id == lsm_storage::id_after(before.next_sst_id)
                &&& after.wrote(mid, e)
            };
        laws::law_freeze_keeps(before, mid, before.next_sst_id);
        lemma_froze_mems(before, mid, before.next_sst_id);
        lemma_wrote_mems(mid, after, e, k);
    } else {
        lemma_wrote_mems(before, after, e, k);
    }
}

proof fn lemma_wrote_mems(before: LsmStorageInner, after: LsmStorageInner, e: Entry, k: KeyView)
    requires
        before.state.wf(),
        after.wrote(before, e),
    ensures
        iterators::lookup_all(after.state.mem_parts(), k) == if k == e.key {
            Some(e.value)
        } else {
            iterators::lookup_all(before.state.mem_parts(), k)
        },
{
    mem_table::law_put_then_get(before.state.memtable, after.state.memtable, e, k);
    assert(after.state.mem_parts().drop_first() =~= before.state.mem_parts().drop_first());
}

/// A freeze puts a memtable without entries before the others.
proof fn lemma_froze_mems(before: LsmStorageInner, after: LsmStorageInner, id: usize)
    requires
        after.froze(before, id),
    ensures
        after.state.mem_parts() == seq![Seq::<Entry>::empty()] + before.state.mem_parts(),
        forall|k: KeyView| #[trigger]
            iterators::lookup_all(after.state.mem_parts(), k)
                == iterators::lookup_all(before.state.mem_parts(), k),
{
    let ps = after.state.mem_parts();
    let qs = before.state.mem_parts();
    let imm = after.state.imm_memtables@;
    assert forall|i: int| 0 <= i < qs.len() implies ps[i + 1] == qs[i] by {
        if i == 0 {
            assert(imm[0] == Arc::new(before.state.memtable));
        } else {
            assert(imm[i] == before.state.imm_memtables@[i - 1]);
        }
    }
    assert(ps =~= seq![Seq::<Entry>::empty()] + qs);
    assert(ps.drop_first() =~= qs);
}

/// Freezing a memtable keeps the memtables in agreement with the engine.
pub proof fn law_freeze_agrees(
    before: LsmStorageInner,
    after: LsmStorageInner,
    id: usize,
    flushed: Seq<Seq<Entry>>,
)
    requires
        before.state.wf(),
        logs_agree(before, flushed),
        after.froze(before, id),
    ensures
        logs_agree(after, flushed),
{
    laws::law_freeze_keeps(before, after, id);
    lemma_froze_mems(before, after, id);
    assert forall|k: Seq<u8>|
        iterators::lookup_all(after.state.mem_parts() + flushed, key::user_key(k)) is Some
            implies lsm_iterator::live(
        #[trigger] after.find(key::user_key(k)),
    ) == lsm_iterator::live(
        iterators::lookup_all(after.state.mem_parts() + flushed, key::user_key(k))
    ) by {
        read::lemma_lookup_all_concat(after.state.mem_parts(), flushed, key::user_key(k));
        read::lemma_lookup_all_concat(before.state.mem_parts(), flushed, key::user_key(k));
        assert(after.find(key::user_key(k)) == before.find(key::user_key(k)));
    }
}

/// A write keeps the memtables in agreement with the engine.
pub proof fn law_put_agrees(
    before: LsmStorageInner,
    after: LsmStorageInner,
    e: Entry,
    flushed: Seq<Seq<Entry>>,
)
    requires
        before.state.wf(),
        logs_agree(before, flushed),
        after.put_from(before, e),
    ensures
        logs_agree(after, flushed),
{
    laws::law_put_then_find(before, after, e);
    assert forall|k: Seq<u8>|
        iterators::lookup_all(after.state.mem_parts() + flushed, key::user_key(k)) is Some
            implies lsm_iterator::live(
        #[trigger] after.find(key::user_key(k)),
    ) == lsm_iterator::live(
        iterators::lookup_all(after.state.mem_parts() + flushed, key::user_key(k))
    ) by {
        read::lemma_lookup_all_concat(after.state.mem_parts(), flushed, key::user_key(k));
        read::lemma_lookup_all_concat(before.state.mem_parts(), flushed, key::user_key(k));
        lemma_put_mems(before, after, e, key::user_key(k));
        assert(
            key::user_key(k) != e.key
                ==> after.find(key::user_key(k)) == before.find(key::user_key(k))
        );
    }
}

/// A flush keeps the memtables in agreement with the engine: the memtable that was flushed is now
/// the latest of those.
pub proof fn law_flush_agrees(
    before: LsmStorageInner,
    after: LsmStorageInner,
    table: SsTable,
    flushed: Seq<Seq<Entry>>,
)
    requires
        before.state.wf(),
        logs_agree(before, flushed),
        before.state.imm_memtables@.len() > 0,
        after.flushed_from(before, table),
        table.wf(),
        table.entries() == before.state.imm_memtables@.last().entries(),
        !before.state.sstables@.contains_key(table.id),
    ensures
        logs_agree(after, seq![table.entries()] + flushed),
{
    laws::law_flush_keeps(before, after, table);
    let ps = after.state.mem_parts();
    let qs = before.state.mem_parts();
    let imm = before.state.imm_memtables@;
    assert forall|i: int| 0 < i < ps.len() implies ps[i] == qs[i] by {
        assert(after.state.imm_memtables@[i - 1] == imm[i - 1]);
    }
    assert(qs.last() == imm.last().entries());
    assert(ps + (seq![table.entries()] + flushed) =~= qs + flushed);
    assert forall|k: Seq<u8>| iterators::lookup_all(qs + flushed, key::user_key(k)) is Some
        implies lsm_iterator::live(
        #[trigger] after.find(key::user_key(k)),
    ) == lsm_iterator::live(iterators::lookup_all(qs + flushed, key::user_key(k))) by {
        assert(after.find(key::user_key(k)) == before.find(key::user_key(k)));
    }
}

/// A compaction that changes nothing of what is told keeps the memtables in agreement with the
/// engine.
pub proof fn law_compaction_agrees(
    before: LsmStorageInner,
    after: LsmStorageInner,
    flushed: Seq<Seq<Entry>>,
)
    requires
        logs_agree(before, flushed),
        after.state.memtable == before.state.memtable,
        after.state.imm_memtables == before.state.imm_memtables,
        forall|k: Seq<u8>|
            lsm_iterator::live(#[trigger] after.find(key::user_key(k)))
                == lsm_iterator::live(before.find(key::user_key(k))),
    ensures
        logs_agree(after, flushed),
{
    assert forall|k: Seq<u8>|
        iterators::lookup_all(after.state.mem_parts() + flushed, key::user_key(k)) is Some
            implies lsm_iterator::live(
        #[trigger] after.find(key::user_key(k)),
    ) == lsm_iterator::live(
        iterators::lookup_all(after.state.mem_parts() + flushed, key::user_key(k))
    ) by {
        assert(
            lsm_iterator::live(before.find(key::user_key(k)))
                == lsm_iterator::live(after.find(key::user_key(k)))
        );
    }
}

/// The tables of `after` were opened from the files of those of `before`, which hold plain user
/// keys.
pub open spec fn tables_reopened(
    layout: LayoutView,
    before: Map<usize, Arc<SsTable>>,
    after: Map<usize, Arc<SsTable>>,
) -> bool {
    forall|id: usize| #[trigger]
        lsm_storage::in_layout(layout, id) ==> {
            &&& builder::stored(&*before[id])
            &&& key::plain_keys(before[id].entries())
            &&& after.contains_key(id)
            &&& after[id].file.present()
            &&& after[id].file.content() == before[id].file.content()
            &&& after[id].opened()
        }
}

/// Tables that were opened again hold what they held, each in its place.
pub proof fn law_reopened_tables(
    layout: LayoutView,
    before: Map<usize, Arc<SsTable>>,
    after: Map<usize, Arc<SsTable>>,
    with_l0: bool,
)
    requires
        lsm_storage::layout_wf(layout, before),
        tables_reopened(layout, before, after),
    ensures
        lsm_storage::layout_wf(layout, after),
        lsm_storage::layout_parts(layout, with_l0, after)
            == lsm_storage::layout_parts(layout, with_l0, before),
{
    let l0 = layout.l0;
    let levels = layout.levels;
    assert forall|i: int| 0 <= i < l0.len() implies after.contains_key(#[trigger] l0[i])
        && after[l0[i]].wf() && after[l0[i]].entries() == before[l0[i]].entries() by {
        assert(l0.contains(l0[i]));
        assert(lsm_storage::in_layout(layout, l0[i]));
        builder::law_reopened_holds(&*before[l0[i]], &*after[l0[i]]);
    }
    assert forall|i: int| 0 <= i < levels.len()
        implies #[trigger] lsm_storage::level_wf(levels[i], after)
        && lsm_storage::level_entries(levels[i], after)
            == lsm_storage::level_entries(levels[i], before) by {
        let ids = levels[i].1;
        let old = lsm_storage::tables_of(ids, before);
        let new = lsm_storage::tables_of(ids, after);
        assert(lsm_storage::level_wf(levels[i], before));
        assert forall|j: int| 0 <= j < ids.len() implies after.contains_key(#[trigger] ids[j])
            && new[j].wf() && new[j].entries() == old[j].entries() by {
            assert(levels[i].1.contains(ids[j]));
            assert(lsm_storage::in_layout(layout, ids[j]));
            assert(old[j].wf());
            builder::law_reopened_holds(&*before[ids[j]], &*after[ids[j]]);
        }
        lemma_same_run(old, new, 0);
    }
    assert(lsm_storage::l0_parts(l0, after) =~= lsm_storage::l0_parts(l0, before));
    assert(lsm_storage::level_parts(levels, after) =~= lsm_storage::level_parts(levels, before)) by {
        assert forall|i: int| 0 <= i < levels.len()
            implies lsm_storage::level_entries(levels[i], after)
            == lsm_storage::level_entries(levels[i], before) by {
            assert(lsm_storage::level_wf(levels[i], after));
        }
    }
}

/// Tables that hold the same hold the same together.
proof fn lemma_same_run(a: Seq<Arc<SsTable>>, b: Seq<Arc<SsTable>>, i: int)
    requires
        a.len() == b.len(),
        0 <= i <= a.len(),
        forall|j: int| 0 <= j < a.len() ==> (#[trigger] b[j]).entries() == a[j].entries(),
    ensures
        concat_iterator::tables_from(b, i) == concat_iterator::tables_from(a, i),
    decreases a.len() - i,
{
    if i < a.len() {
        lemma_same_run(a, b, i + 1);
    }
}

/// The logs of an engine: one for each of its memtables, and for those that were flushed.
pub open spec fn logs_hold(
    parts: Seq<Seq<Entry>>,
    log: Seq<u8>,
    imm_logs: Seq<Seq<u8>>,
) -> bool {
    &&& parts.len() == imm_logs.len() + 1
    &&& log_of(log, parts[0])
    &&& forall|i: int| 0 <= i < imm_logs.len() ==> log_of(#[trigger] imm_logs[i], parts[i + 1])
}

/// Without a log, an engine that can be closed holds nothing in its memtables.
pub proof fn law_closed_holds_nothing(e: LsmStorageInner)
    requires
        !e.options.enable_wal,
        e.left_to_close() is Done,
    ensures
        forall|i: int|
            0 <= i < e.state.mem_parts().len() ==> (#[trigger] e.state.mem_parts()[i]).len() == 0,
{
}

/// `after` is the engine `before`, closed and opened again: its manifest was replayed, and its
/// tables, which hold plain user keys, were opened from their files. With logs, these are the logs
/// of its memtables and of those that were flushed; without, its memtables hold nothing.
pub open spec fn reopened(
    before: LsmStorageInner,
    after: LsmStorageInner,
    recovery: Recovery,
    record: Option<ManifestRecord>,
    log: Seq<u8>,
    imm_logs: Seq<Seq<u8>>,
    flushed: Seq<Seq<Entry>>,
) -> bool {
    &&& recovery.opens(after, record, after.state.sstables@, imm_logs, log)
    &&& recovery.controller == before.compaction_controller
    &&& replay_laws::same_places(before.state.layout(), recovery@.layout)
    &&& !recovery.sorts_levels() ==> recovery@.layout == before.state.layout()
    &&& tables_reopened(before.state.layout(), before.state.sstables@, after.state.sstables@)
    &&& if recovery.options.enable_wal && recovery@.memtable > 0 {
        &&& logs_agree(before, flushed)
        &&& logs_hold(before.state.mem_parts() + flushed, log, imm_logs)
    } else {
        &&& imm_logs.len() == 0
        &&& forall|i: int|
            0 <= i < before.state.mem_parts().len()
                ==> (#[trigger] before.state.mem_parts()[i]).len() == 0
    }
}

/// What the memtables of an engine hold that is opened again.
proof fn lemma_reopened_mems(
    before: LsmStorageInner,
    after: LsmStorageInner,
    recovery: Recovery,
    record: Option<ManifestRecord>,
    log: Seq<u8>,
    imm_logs: Seq<Seq<u8>>,
    flushed: Seq<Seq<Entry>>,
)
    requires
        reopened(before, after, recovery, record, log, imm_logs, flushed),
    ensures
        after.state.mems_wf(),
        after.state.mem_parts() == if recovery.options.enable_wal && recovery@.memtable > 0 {
            before.state.mem_parts() + flushed
        } else {
            seq![Seq::<Entry>::empty()]
        },
{
    let ps = after.state.mem_parts();
    let imm = after.state.imm_memtables@;
    if recovery.options.enable_wal && recovery@.memtable > 0 {
        let all = before.state.mem_parts() + flushed;
        law_recovered_holds(after.state.memtable, recovery@.memtable, log, all[0]);
        assert forall|i: int| 0 <= i < imm.len() implies (#[trigger] imm[i]).wf()
            && imm[i].entries() == all[i + 1] by {
            assert(log_of(imm_logs[i], all[i + 1]));
            law_recovered_holds(*imm[i], recovery@.imm_memtables[i], imm_logs[i], all[i + 1]);
        }
        assert(ps =~= all);
    } else {
        assert(ps =~= seq![Seq::<Entry>::empty()]);
    }
}

/// The tables of an engine that is opened again have the places that they had.
proof fn lemma_reopened_places(
    before: LsmStorageInner,
    after: LsmStorageInner,
    recovery: Recovery,
    record: Option<ManifestRecord>,
    log: Seq<u8>,
    imm_logs: Seq<Seq<u8>>,
    flushed: Seq<Seq<Entry>>,
)
    requires
        before.state.wf(),
        reopened(before, after, recovery, record, log, imm_logs, flushed),
    ensures
        after.state.layout() == before.state.layout(),
        lsm_storage::layout_wf(after.state.layout(), after.state.sstables@),
        lsm_storage::layout_parts(after.state.layout(), before.uses_l0(), after.state.sstables@)
            == lsm_storage::layout_parts(
                before.state.layout(),
                before.uses_l0(),
                before.state.sstables@,
            ),
{
    let layout = before.state.layout();
    let new = after.state.sstables@;
    law_reopened_tables(layout, before.state.sstables@, new, before.uses_l0());
    if recovery.sorts_levels() {
        replay_laws::law_reopened_layout(layout, recovery@.layout, new);
    }
    assert(after.state.layout() =~= layout);
}

/// An engine that is opened again tells what it told when it was closed.
pub proof fn law_reopened_finds(
    before: LsmStorageInner,
    after: LsmStorageInner,
    recovery: Recovery,
    record: Option<ManifestRecord>,
    log: Seq<u8>,
    imm_logs: Seq<Seq<u8>>,
    flushed: Seq<Seq<Entry>>,
)
    requires
        before.state.wf(),
        reopened(before, after, recovery, record, log, imm_logs, flushed),
    ensures
        after.state.wf(),
        after.state.layout() == before.state.layout(),
        forall|k: Seq<u8>|
            lsm_iterator::live(#[trigger] after.find(key::user_key(k)))
                == lsm_iterator::live(before.find(key::user_key(k))),
{
    lemma_reopened_mems(before, after, recovery, record, log, imm_logs, flushed);
    lemma_reopened_places(before, after, recovery, record, log, imm_logs, flushed);
    let ps = after.state.mem_parts();
    let qs = before.state.mem_parts();
    let rest = lsm_storage::layout_parts(
        before.state.layout(),
        before.uses_l0(),
        before.state.sstables@,
    );
    assert forall|k: Seq<u8>| lsm_iterator::live(#[trigger] after.find(key::user_key(k)))
        == lsm_iterator::live(
        before.find(key::user_key(k)),
    ) by {
        read::lemma_lookup_all_concat(ps, rest, key::user_key(k));
        read::lemma_lookup_all_concat(qs, rest, key::user_key(k));
        if recovery.options.enable_wal && recovery@.memtable > 0 {
            read::lemma_lookup_all_concat(qs, flushed, key::user_key(k));
            let told = iterators::lookup_all(qs + flushed, key::user_key(k));
            assert(
                told is Some
                    ==> lsm_iterator::live(before.find(key::user_key(k)))
                        == lsm_iterator::live(told)
            );
        } else {
            read::lemma_no_entries(ps, key::user_key(k));
            read::lemma_no_entries(qs, key::user_key(k));
        }
    }
}

/// An orderly engine that is opened again is orderly, where the tables that it has are those of
/// its layout. With logs, the next id follows that of the memtable; so this holds where no table
/// has a larger one.
pub proof fn law_reopened_keeps_order(
    before: LsmStorageInner,
    after: LsmStorageInner,
    recovery: Recovery,
    record: Option<ManifestRecord>,
    log: Seq<u8>,
    imm_logs: Seq<Seq<u8>>,
    flushed: Seq<Seq<Entry>>,
)
    requires
        orderly::orderly(before),
        reopened(before, after, recovery, record, log, imm_logs, flushed),
        recovery.wf(),
        recovery.max_sst_id + 2 <= usize::MAX,
        forall|id: usize| #[trigger]
            after.state.sstables@.contains_key(id)
                ==> lsm_storage::in_layout(before.state.layout(), id),
        recovery.options.enable_wal && recovery@.memtable > 0 ==> {
            &&& recovery@.memtable == recovery@.max_sst_id
            &&& forall|i: int| 0 <= i < flushed.len() ==> key::plain_keys(#[trigger] flushed[i])
        },
    ensures
        orderly::orderly(after),
{
    lemma_reopened_mems(before, after, recovery, record, log, imm_logs, flushed);
    lemma_reopened_places(before, after, recovery, record, log, imm_logs, flushed);
    let layout = before.state.layout();
    let old = before.state.sstables@;
    let new = after.state.sstables@;
    let ps = after.state.mem_parts();
    let qs = before.state.mem_parts();
    let imm = after.state.imm_memtables@;
    assert forall|i: int| 0 <= i < ps.len() implies key::plain_keys(#[trigger] ps[i]) by {
        if recovery.options.enable_wal && recovery@.memtable > 0 {
            if i == 0 {
                assert(ps[0] == before.state.memtable.entries());
            } else if i < qs.len() {
                assert(ps[i] == before.state.imm_memtables@[i - 1].entries());
            } else {
                assert(ps[i] == flushed[i - qs.len()]);
            }
        }
    }
    assert(ps[0] == after.state.memtable.entries());
    assert forall|i: int| 0 <= i < imm.len()
        implies key::plain_keys((#[trigger] imm[i]).entries()) by {
        assert(ps[i + 1] == imm[i].entries());
    }
    assert forall|id: usize| #[trigger] lsm_storage::in_layout(layout, id) implies new[id].entries()
        == old[id].entries() && lsm_storage::in_layout(recovery@.layout, id) by {
        builder::law_reopened_holds(&*old[id], &*new[id]);
        if !layout.l0.contains(id) {
            let i = choose|i: int|
                0 <= i < layout.levels.len() && #[trigger] layout.levels[i].1.contains(id);
            assert(replay_laws::same_level(layout.levels[i], recovery@.layout.levels[i]));
            vstd::seq_lib::to_multiset_contains(layout.levels[i].1, id);
            vstd::seq_lib::to_multiset_contains(recovery@.layout.levels[i].1, id);
            assert(recovery@.layout.levels[i].1.contains(id));
        }
    }
    assert forall|id: usize| #[trigger] new.contains_key(id) implies key::plain_keys(
        new[id].entries(),
    ) && id < after.next_sst_id by {
        assert(lsm_storage::in_layout(layout, id));
        assert(lsm_storage::in_layout(recovery@.layout, id));
    }
    if after.uses_l0() {
        assert forall|i: int| 0 <= i < layout.levels.len() implies orderly::filled(
            (#[trigger] layout.levels[i]).1,
            new,
        ) by {
            assert(orderly::filled(layout.levels[i].1, old));
            assert forall|id: usize| #[trigger] layout.levels[i].1.contains(
                id,
            ) implies new[id].entries().len() > 0 by {
                assert(lsm_storage::in_layout(layout, id));
            }
        }
    }
}

/// What is left to be done: the current memtable is frozen exactly if it holds something, and nothing
/// is left exactly if no memtable is there to be flushed. With a log, an engine can be closed at once;
/// without one its memtables are flushed first.
pub proof fn law_flush_steps(e: LsmStorageInner)
    ensures
        e.left_to_flush() is Freeze <==> e.state.memtable.entries().len() > 0,
        e.left_to_flush() is Done <==> e.state.memtable.entries().len() == 0
            && e.state.imm_memtables@.len() == 0,
        e.options.enable_wal ==> e.left_to_close() is Done,
        !e.options.enable_wal ==> e.left_to_close() == e.left_to_flush(),
{
}

} // verus!
