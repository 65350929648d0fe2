//! Writing to the storage engine.
use crate::key::{self, Entry, KeyView};
use crate::lsm_storage::{self, LsmStorageInner, WriteBatchRecord};
use crate::mem_table::MemTable;
use std::collections::HashMap;
use std::sync::Arc;
use vstd::prelude::*;

verus! {

/// A write as an entry: a deletion is an empty value.
pub open spec fn record_entry(r: WriteBatchRecord<Vec<u8>>) -> Entry {
    match r {
        WriteBatchRecord::Put(k, v) => Entry { key: key::user_key(k@), value: v@ },
        WriteBatchRecord::Del(k) => Entry { key: key::user_key(k@), value: Seq::empty() },
    }
}

/// The writes of a batch as entries.
pub open spec fn batch_entries(batch: Seq<WriteBatchRecord<Vec<u8>>>) -> Seq<Entry> {
    batch.map_values(|r: WriteBatchRecord<Vec<u8>>| record_entry(r))
}

/// The engine before, between and after writes that are made one after the other.
pub open spec fn put_steps(steps: Seq<LsmStorageInner>, es: Seq<Entry>) -> bool {
    &&& steps.len() == es.len() + 1
    &&& forall|i: int|
        0 <= i < es.len() ==> (#[trigger] steps[i + 1]).put_from(steps[i], es[i])
}

/// The value of the last write to a key, if there was one.
pub open spec fn last_write(es: Seq<Entry>, k: KeyView) -> Option<Seq<u8>>
    decreases es.len(),
{
    if es.len() == 0 {
        None
    } else if es.last().key == k {
        Some(es.last().value)
    } else {
        last_write(es.drop_last(), k)
    }
}

impl LsmStorageInner {
    /// Nothing but the state and the next id differs.
    pub open spec fn same_setup(&self, other: LsmStorageInner) -> bool {
        &&& self.options == other.options
        &&& self.compaction_controller == other.compaction_controller
        &&& self.compaction_filters == other.compaction_filters
        &&& self.is_in_compact == other.is_in_compact
    }

    /// The tables and where they stand are the same.
    pub open spec fn same_tables(&self, other: LsmStorageInner) -> bool {
        &&& self.state.l0_sstables == other.state.l0_sstables
        &&& self.state.levels == other.state.levels
        &&& self.state.sstables == other.state.sstables
    }

    /// The current memtable has become immutable, and a new one with the id `id` is in use.
    pub open spec fn froze(&self, before: LsmStorageInner, id: usize) -> bool {
        &&& self.same_setup(before)
        &&& self.same_tables(before)
        &&& self.state.memtable.wf()
        &&& self.state.memtable.id == id
        &&& self.state.memtable.entries() == Seq::<Entry>::empty()
        &&& self.state.memtable.approximate_size == 0
        &&& self.state.memtable.wal is Some <==> self.options.enable_wal
        &&& self.state.memtable.wal is Some
            ==> self.state.memtable.wal->Some_0.pending@.len() == 0
        &&& self.state.imm_memtables@ == before.state.imm_memtables@.insert(
            0,
            Arc::new(before.state.memtable),
        )
    }

    /// An entry was put into the current memtable.
    pub open spec fn wrote(&self, before: LsmStorageInner, e: Entry) -> bool {
        &&& self.same_setup(before)
        &&& self.same_tables(before)
        &&& self.next_sst_id == before.next_sst_id
        &&& self.state.imm_memtables == before.state.imm_memtables
        &&& self.state.memtable.put_from(before.state.memtable, e)
    }

    /// A write of these lengths is preceded by a freeze: with it, the memtable would reach the
    /// target size of a table.
    pub open spec fn full_for(&self, key_len: nat, value_len: nat) -> bool {
        self.state.memtable.approximate_size + key_len + value_len >= self.options.target_sst_size
    }

    /// What becomes of the engine when `e` is written.
    pub open spec fn put_from(&self, before: LsmStorageInner, e: Entry) -> bool {
        if before.full_for(e.key.key.len(), e.value.len()) {
            exists|mid: LsmStorageInner|
                {
                    &&& #[trigger] mid.froze(before, before.next_sst_id)
                    &&& mid.next_sst_id == lsm_storage::id_after(before.next_sst_id)
                    &&& self.wrote(mid, e)
                }
        } else {
            self.wrote(before, e)
        }
    }

    /// Whether a write is preceded by a freeze.
    pub fn needs_freeze(&self, key: &[u8], value: &[u8]) -> (r: bool)
        ensures
            r == self.full_for(key@.len(), value@.len()),
    {
        let size: u128 = self.state.memtable.approximate_size() as u128 + key.len() as u128
            + value.len() as u128;
        size >= self.options.target_sst_size as u128
    }

    /// Puts a new memtable with the id `memtable_id` into use. The one that was in use becomes the
    /// first immutable one.
    pub fn install_memtable(&mut self, memtable_id: usize)
        ensures
            final(self).froze(*old(self), memtable_id),
            final(self).next_sst_id == old(self).next_sst_id,
    {
        let mut memtable: MemTable = if self.options.enable_wal {
            MemTable::create_with_wal(memtable_id)
        } else {
            MemTable::create(memtable_id)
        };
        std::mem::swap(&mut memtable, &mut self.state.memtable);
        self.state.imm_memtables.insert(0, Arc::new(memtable));
    }

    /// Force freeze the current memtable to an immutable memtable. Tells the id of the new one.
    pub fn force_freeze_memtable(&mut self) -> (id: usize)
        ensures
            id == old(self).next_sst_id,
            final(self).froze(*old(self), id),
            final(self).next_sst_id == lsm_storage::id_after(id),
    {
        let memtable_id: usize = self.next_sst_id();
        self.install_memtable(memtable_id);
        memtable_id
    }

    /// Puts a key-value pair into the current memtable.
    pub fn put_current(&mut self, key: &[u8], value: &[u8])
        requires
            old(self).state.memtable.wf(),
        ensures
            final(self).wrote(*old(self), Entry { key: key::user_key(key@), value: value@ }),
    {
        self.state.memtable.put(key, value);
    }

    /// Put a key-value pair into the storage by writing into the current memtable.
    pub fn put(&mut self, key: &[u8], value: &[u8])
        requires
            old(self).state.memtable.wf(),
        ensures
            final(self).put_from(*old(self), Entry { key: key::user_key(key@), value: value@ }),
    {
        if self.needs_freeze(key, value) {
            self.force_freeze_memtable();
        }
        let ghost mid = *self;
        self.put_current(key, value);
        assert(mid == *old(self) || mid.froze(*old(self), old(self).next_sst_id));
    }

    /// Remove a key from the storage by writing an empty value.
    pub fn delete(&mut self, key: &[u8])
        requires
            old(self).state.memtable.wf(),
        ensures
            final(self).put_from(
                *old(self),
                Entry { key: key::user_key(key@), value: Seq::empty() },
            ),
    {
        let empty: Vec<u8> = Vec::new();
        assert(empty@ =~= Seq::empty());
        self.put(key, empty.as_slice())
    }

    /// Write a batch of data into the storage: its writes one after the other.
    pub fn write_batch(&mut self, batch: &[WriteBatchRecord<Vec<u8>>])
        requires
            old(self).state.memtable.wf(),
        ensures
            exists|steps: Seq<LsmStorageInner>| #[trigger]
                put_steps(steps, batch_entries(batch@)) && steps[0] == *old(self) && steps.last()
                    == *final(self),
            final(self).state.memtable.wf(),
    {
        let ghost es = batch_entries(batch@);
        let ghost mut steps = seq![*self];
        let mut i: usize = 0;
        assert(put_steps(steps, es.take(0)));
        while i < batch.len()
            invariant
                i <= batch@.len(),
                es == batch_entries(batch@),
                self.state.memtable.wf(),
                put_steps(steps, es.take(i as int)),
                steps[0] == *old(self),
                steps.last() == *self,
            decreases batch@.len() - i,
        {
            match &batch[i] {
                WriteBatchRecord::Put(k, v) => {
                    self.put(k.as_slice(), v.as_slice());
                },
                WriteBatchRecord::Del(k) => {
                    self.delete(k.as_slice());
                },
            }
            proof {
                let before = steps;
                steps = steps.push(*self);
                let taken = es.take(i + 1);
                assert forall|j: int| 0 <= j < taken.len() implies (
                #[trigger] steps[j + 1]).put_from(steps[j], taken[j]) by {
                    if j < i {
                        assert(before[j + 1].put_from(before[j], es.take(i as int)[j]));
                    }
                }
            }
            i = i + 1;
        }
        assert(es.take(i as int) =~= es);
    }

    /// Hands out what has been logged for the current memtable and not been written yet.
    pub fn sync(&mut self) -> (bytes: Vec<u8>)
        ensures
            bytes@ == if old(self).options.enable_wal && old(self).state.memtable.wal is Some {
                old(self).state.memtable.wal->Some_0.pending@
            } else {
                Seq::empty()
            },
            final(self).same_setup(*old(self)),
            final(self).same_tables(*old(self)),
            final(self).next_sst_id == old(self).next_sst_id,
            final(self).state.imm_memtables == old(self).state.imm_memtables,
            final(self).state.memtable.map == old(self).state.memtable.map,
            final(self).state.memtable.id == old(self).state.memtable.id,
            final(self).state.memtable.approximate_size
                == old(self).state.memtable.approximate_size,
            final(self).state.memtable.wal is Some <==> old(self).state.memtable.wal is Some,
            old(self).options.enable_wal && old(self).state.memtable.wal is Some
                ==> final(self).state.memtable.wal->Some_0.pending@.len() == 0,
            !old(self).options.enable_wal
                ==> final(self).state.memtable.wal == old(self).state.memtable.wal,
    {
        if self.options.enable_wal {
            self.state.memtable.sync_wal()
        } else {
            Vec::new()
        }
    }
}

/// A batch writes the keys of its records in their order: a put with its value, a deletion with none.
pub proof fn law_batch_records(batch: Seq<WriteBatchRecord<Vec<u8>>>, i: int)
    requires
        0 <= i < batch.len(),
    ensures
        batch_entries(batch).len() == batch.len(),
        batch[i] matches WriteBatchRecord::Put(k, v)
            ==> batch_entries(batch)[i].key == key::user_key(k@)
            && batch_entries(batch)[i].value == v@,
        batch[i] matches WriteBatchRecord::Del(k)
            ==> batch_entries(batch)[i].key == key::user_key(k@)
            && batch_entries(batch)[i].value.len() == 0,
{
}

} // verus!
