//! Flushing memtables to tables.
use crate::error::LsmError;
use crate::key::{self, Entry, bytes_less};
use crate::lsm_storage::{self, LayoutView, LsmStorageInner, LsmStorageState};
use crate::mem_table::MemTable;
use crate::table::{self, SsTable, SsTableBuilder};
use crate::table::builder;
use std::collections::HashMap;
use std::sync::Arc;
use vstd::prelude::*;

verus! {

/// A table as it is built from entries: its file holds them in blocks of the block size, with the
/// metadata of the blocks and the bloom filter, and the table knows these, its first and last key
/// and its largest timestamp. If its blocks are not too long for the offsets of a table, it holds
/// the entries, and if its file is not, the file gives the table back.
pub open spec fn built_from(t: &SsTable, id: usize, es: Seq<Entry>, block_size: usize) -> bool {
    let draft = builder::draft_of(es, block_size);
    &&& t.id == id
    &&& t.file.present()
    &&& t.bloom is Some
    &&& builder::bloom_of(t.bloom->Some_0, es)
    &&& t.file.content() == builder::table_image(
        draft.sealed_data(),
        draft.sealed_metas(),
        t.bloom->Some_0.bytes(),
    )
    &&& t.metas() == draft.sealed_metas()
    &&& t.metas().len() > 0 ==> t.metas()[0].offset == 0
    &&& t.block_meta_offset == builder::blocks_len(es, block_size) as u32
    &&& t.file.content().len() <= u32::MAX ==> builder::stored(t)
    &&& t.first_key@ == table::first_key_of(es)
    &&& t.last_key@ == table::last_key_of(es)
    &&& t.max_ts == table::max_ts_of(es)
    &&& builder::blocks_len(es, block_size) <= u32::MAX ==> t.readable() && t.entries() == es
    &&& builder::blocks_len(es, block_size) <= u32::MAX ==> forall|i: int|
        0 <= i < t.metas().len() ==> #[trigger] table::blk_checked(
            t.file.content(),
            t.metas(),
            t.block_meta_offset as int,
            i,
        )
    &&& builder::blocks_len(es, block_size) <= u32::MAX && key::sorted(es) ==> t.wf()
}

/// Where a table stands that a memtable was flushed to: first in L0, or as the first tier.
pub open spec fn flushed_layout(layout: LayoutView, id: usize, to_l0: bool) -> LayoutView {
    if to_l0 {
        LayoutView { l0: layout.l0.insert(0, id), levels: layout.levels }
    } else {
        LayoutView { l0: layout.l0, levels: layout.levels.insert(0, (id, seq![id])) }
    }
}

/// A step on the way to flushing what is in memory.
#[derive(Debug, Clone, Copy, PartialEq, Eq, Structural)]
pub enum CloseStep {
    /// The current memtable is to be frozen.
    Freeze,
    /// The earliest immutable memtable is to be flushed.
    Flush,
    /// Nothing is left to be done.
    Done,
}

impl LsmStorageInner {
    /// Builds a table from the earliest immutable memtable. Tells the id of that memtable too.
    pub fn build_flush(&mut self) -> (r: Option<(usize, SsTable)>)
        requires
            old(self).state.mems_wf(),
            old(self).state.imm_memtables@.len() > 0 ==> old(
                self).state.imm_memtables@.last().flushable(),
        ensures
            final(self).state == old(self).state,
            final(self).same_setup(*old(self)),
            r is None <==> old(self).state.imm_memtables@.len() == 0,
            r is None ==> final(self).next_sst_id == old(self).next_sst_id,
            r matches Some((mem_id, table)) ==> {
                let oldest = old(self).state.imm_memtables@.last();
                &&& mem_id == oldest.id
                &&& built_from(
                    &table,
                    old(self).next_sst_id,
                    oldest.entries(),
                    old(self).options.block_size,
                )
                &&& final(self).next_sst_id == lsm_storage::id_after(old(self).next_sst_id)
            },
    {
        let n: usize = self.state.imm_memtables.len();
        if n == 0 {
            return None;
        }
        let sst_id: usize = self.next_sst_id();
        let memtable: Arc<MemTable> = self.state.imm_memtables[n - 1].clone();
        assert(self.state.imm_memtables@[n - 1].wf());
        let mut builder = SsTableBuilder::new(self.options.block_size);
        memtable.flush(&mut builder);
        let ghost es = memtable.entries();
        assert(builder.entries() =~= es);
        let table: SsTable = builder.build(sst_id);
        Some((memtable.id(), table))
    }

    /// What becomes of the engine when the earliest immutable memtable is replaced by a table.
    pub open spec fn flushed_from(&self, before: LsmStorageInner, table: SsTable) -> bool {
        &&& self.same_setup(before)
        &&& self.next_sst_id == before.next_sst_id
        &&& self.state.memtable == before.state.memtable
        &&& self.state.imm_memtables@ == before.state.imm_memtables@.drop_last()
        &&& self.state.sstables@ == before.state.sstables@.insert(table.id, Arc::new(table))
        &&& self.state.layout() == flushed_layout(
            before.state.layout(),
            table.id,
            before.uses_l0(),
        )
    }

    /// Puts a table in the place of the earliest immutable memtable, unless that is no longer the
    /// one with the id `mem_id`.
    pub fn install_flush(&mut self, mem_id: usize, table: SsTable) -> (r: bool)
        ensures
            r == (old(self).state.imm_memtables@.len() > 0
                && old(self).state.imm_memtables@.last().id == mem_id),
            !r ==> *final(self) == *old(self),
            r ==> final(self).flushed_from(*old(self), table),
    {
        broadcast use vstd::std_specs::hash::group_hash_axioms;

        let n: usize = self.state.imm_memtables.len();
        if n == 0 || self.state.imm_memtables[n - 1].id() != mem_id {
            return false;
        }
        self.state.imm_memtables.pop();
        let sst_id: usize = table.sst_id();
        self.state.sstables.insert(sst_id, Arc::new(table));
        if self.compaction_controller.flush_to_l0() {
            self.state.l0_sstables.insert(0, sst_id);
        } else {
            let ghost levels = self.state.levels@;
            let mut ids: Vec<usize> = Vec::new();
            ids.push(sst_id);
            assert(ids@ =~= seq![sst_id]);
            self.state.levels.insert(0, (sst_id, ids));
            assert(lsm_storage::levels_view(self.state.levels@)
                =~= lsm_storage::levels_view(levels).insert(
                0,
                (sst_id, seq![sst_id]),
            ));
        }
        true
    }

    /// Force flush the earliest-created immutable memtable. Tells the id of its table.
    pub fn force_flush_next_imm_memtable(&mut self) -> (r: Option<usize>)
        requires
            old(self).state.mems_wf(),
            old(self).state.imm_memtables@.len() > 0 ==> old(
                self).state.imm_memtables@.last().flushable(),
        ensures
            r is None <==> old(self).state.imm_memtables@.len() == 0,
            r is None ==> *final(self) == *old(self),
            r matches Some(id) ==> {
                &&& id == old(self).next_sst_id
                &&& exists|mid: LsmStorageInner, table: SsTable|
                    {
                        &&& mid.state == old(self).state
                        &&& mid.same_setup(*old(self))
                        &&& mid.next_sst_id == lsm_storage::id_after(id)
                        &&& built_from(
                            &table,
                            id,
                            old(self).state.imm_memtables@.last().entries(),
                            old(self).options.block_size,
                        )
                        &&& #[trigger] final(self).flushed_from(mid, table)
                    }
            },
    {
        match self.build_flush() {
            None => None,
            Some((mem_id, table)) => {
                let id: usize = table.sst_id();
                let ghost mid = *self;
                let ghost t = table;
                let installed: bool = self.install_flush(mem_id, table);
                assert(installed);
                assert(self.flushed_from(mid, t));
                Some(id)
            },
        }
    }

    /// What is next to be done to flush a memtable: the current one is frozen if it holds
    /// anything, and then the earliest immutable one is flushed if there is one.
    pub open spec fn left_to_flush(&self) -> CloseStep {
        if self.state.memtable.entries().len() > 0 {
            CloseStep::Freeze
        } else if self.state.imm_memtables@.len() > 0 {
            CloseStep::Flush
        } else {
            CloseStep::Done
        }
    }

    /// What is next to be done before the engine can be closed.
    pub open spec fn left_to_close(&self) -> CloseStep {
        if self.options.enable_wal {
            CloseStep::Done
        } else {
            self.left_to_flush()
        }
    }

    /// What is next to be done to flush a memtable. Once the current memtable is frozen, the next
    /// step is to flush.
    pub fn flush_step(&self) -> (r: CloseStep)
        requires
            self.state.memtable.wf(),
        ensures
            r == self.left_to_flush(),
    {
        if !self.state.memtable.is_empty() {
            CloseStep::Freeze
        } else if self.state.imm_memtables.len() > 0 {
            CloseStep::Flush
        } else {
            CloseStep::Done
        }
    }

    /// What is next to be done before the engine can be closed: without a log, the memtables are
    /// flushed.
    pub fn close_step(&self) -> (r: CloseStep)
        requires
            self.state.memtable.wf(),
        ensures
            r == self.left_to_close(),
    {
        if self.options.enable_wal {
            CloseStep::Done
        } else {
            self.flush_step()
        }
    }

    /// Whether a memtable is to be flushed: there are more of them than the limit allows.
    pub fn should_flush(&self) -> (r: bool)
        ensures
            r == (1 + self.state.imm_memtables@.len() > self.options.num_memtable_limit
                && self.state.imm_memtables@.len() > 0),
    {
        let n: usize = self.state.imm_memtables.len();
        n >= self.options.num_memtable_limit && n > 0
    }

    /// Flushes a memtable if there are more of them than the limit allows. Tells the id of its
    /// table.
    pub fn trigger_flush(&mut self) -> (r: Option<usize>)
        requires
            old(self).state.mems_wf(),
            old(self).state.imm_memtables@.len() > 0 ==> old(
                self).state.imm_memtables@.last().flushable(),
        ensures
            r is Some <==> 1 + old(self).state.imm_memtables@.len()
                > old(self).options.num_memtable_limit && old(self).state.imm_memtables@.len() > 0,
            r is None ==> *final(self) == *old(self),
            r matches Some(id) ==> {
                &&& id == old(self).next_sst_id
                &&& exists|mid: LsmStorageInner, table: SsTable|
                    {
                        &&& mid.state == old(self).state
                        &&& mid.same_setup(*old(self))
                        &&& mid.next_sst_id == lsm_storage::id_after(id)
                        &&& built_from(
                            &table,
                            id,
                            old(self).state.imm_memtables@.last().entries(),
                            old(self).options.block_size,
                        )
                        &&& #[trigger] final(self).flushed_from(mid, table)
                    }
            },
    {
        if self.should_flush() {
            self.force_flush_next_imm_memtable()
        } else {
            None
        }
    }
}

/// The first violation in a level that is read from the left: a table that is missing, or one that
/// does not begin behind the user key `prev`, with which the table before it ends.
pub open spec fn level_violation(
    ids: Seq<usize>,
    tables: Map<usize, Arc<SsTable>>,
    prev: Option<Seq<u8>>,
) -> Option<LsmError>
    decreases ids.len(),
{
    if ids.len() == 0 {
        None
    } else if !tables.contains_key(ids[0]) {
        Some(LsmError::MissingTable)
    } else if prev matches Some(p) && !key::bytes_lt(p, tables[ids[0]].first_key@.key) {
        Some(LsmError::LevelDisorder)
    } else {
        level_violation(ids.drop_first(), tables, Some(tables[ids[0]].last_key@.key))
    }
}

/// The first violation in the levels.
pub open spec fn levels_violation(
    levels: Seq<(usize, Seq<usize>)>,
    tables: Map<usize, Arc<SsTable>>,
) -> Option<LsmError>
    decreases levels.len(),
{
    if levels.len() == 0 {
        None
    } else {
        match level_violation(levels[0].1, tables, None) {
            Some(e) => Some(e),
            None => levels_violation(levels.drop_first(), tables),
        }
    }
}

/// The first violation in a layout.
pub open spec fn layout_violation(
    layout: LayoutView,
    tables: Map<usize, Arc<SsTable>>,
) -> Option<LsmError> {
    if exists|i: int| 0 <= i < layout.l0.len() && !tables.contains_key(#[trigger] layout.l0[i]) {
        Some(LsmError::MissingTable)
    } else {
        levels_violation(layout.levels, tables)
    }
}

/// Checks that the tables of a layout are there, and that the tables of each level do not overlap
/// and stand in order.
pub fn verify_layout(
    l0_sstables: &[usize],
    levels: &Vec<(usize, Vec<usize>)>,
    sstables: &HashMap<usize, Arc<SsTable>>,
) -> (r: Result<(), LsmError>)
    ensures
        match layout_violation(
            LayoutView { l0: l0_sstables@, levels: lsm_storage::levels_view(levels@) },
            sstables@,
        ) {
            None => r is Ok,
            Some(e) => r is Err && r->Err_0 == e,
        },
{
    let ghost layout = LayoutView { l0: l0_sstables@, levels: lsm_storage::levels_view(levels@) };
    let ghost tables = sstables@;
    let mut i: usize = 0;
    while i < l0_sstables.len()
        invariant
            i <= l0_sstables@.len(),
            layout == (LayoutView { l0: l0_sstables@, levels: lsm_storage::levels_view(levels@) }),
            tables == sstables@,
            forall|j: int| 0 <= j < i ==> tables.contains_key(#[trigger] layout.l0[j]),
        decreases l0_sstables@.len() - i,
    {
        broadcast use vstd::std_specs::hash::group_hash_axioms;

        if !sstables.contains_key(&l0_sstables[i]) {
            assert(!tables.contains_key(layout.l0[i as int]));
            return Err(LsmError::MissingTable);
        }
        i = i + 1;
    }
    let mut n: usize = 0;
    assert(layout.levels.skip(0) =~= layout.levels);
    while n < levels.len()
        invariant
            n <= levels@.len(),
            layout.levels == lsm_storage::levels_view(levels@),
            tables == sstables@,
            levels_violation(layout.levels, tables) == levels_violation(
                layout.levels.skip(n as int),
                tables,
            ),
            layout_violation(layout, tables) == levels_violation(layout.levels, tables),
            layout == (LayoutView { l0: l0_sstables@, levels: lsm_storage::levels_view(levels@) }),
        decreases levels@.len() - n,
    {
        let ids: &[usize] = levels[n].1.as_slice();
        let ghost rest = layout.levels.skip(n as int);
        assert(rest[0].1 == ids@);
        assert(rest.drop_first() =~= layout.levels.skip(n + 1));
        verify_level(ids, sstables)?;
        n = n + 1;
    }
    assert(layout.levels.skip(n as int) =~= Seq::empty());
    Ok(())
}

fn verify_level(ids: &[usize], sstables: &HashMap<usize, Arc<SsTable>>) -> (r: Result<
    (),
    LsmError,
>)
    ensures
        match level_violation(ids@, sstables@, None) {
            None => r is Ok,
            Some(e) => r is Err && r->Err_0 == e,
        },
{
    let ghost tables = sstables@;
    let mut prev_end_key: Option<&[u8]> = None;
    let mut i: usize = 0;
    assert(ids@.skip(0) =~= ids@);
    while i < ids.len()
        invariant
            i <= ids@.len(),
            tables == sstables@,
            level_violation(ids@, tables, None) == level_violation(
                ids@.skip(i as int),
                tables,
                match prev_end_key {
                    Some(p) => Some(p@),
                    None => None,
                },
            ),
        decreases ids@.len() - i,
    {
        broadcast use vstd::std_specs::hash::group_hash_axioms;

        let ghost rest = ids@.skip(i as int);
        assert(rest[0] == ids@[i as int]);
        assert(rest.drop_first() =~= ids@.skip(i + 1));
        match sstables.get(&ids[i]) {
            None => {
                return Err(LsmError::MissingTable);
            },
            Some(sst) => {
                if let Some(prev_end) = prev_end_key {
                    if !bytes_less(prev_end, sst.first_key().key_ref()) {
                        return Err(LsmError::LevelDisorder);
                    }
                }
                prev_end_key = Some(sst.last_key().key_ref());
            },
        }
        i = i + 1;
    }
    assert(ids@.skip(i as int) =~= Seq::empty());
    Ok(())
}

impl LsmStorageInner {
    /// Checks that the tables of a state are there, and that the tables of each level do not
    /// overlap and stand in order.
    pub fn verify_lsm_invariants(&self, state: &LsmStorageState) -> (r: Result<(), LsmError>)
        ensures
            match layout_violation(state.layout(), state.sstables@) {
                None => r is Ok,
                Some(e) => r is Err && r->Err_0 == e,
            },
    {
        verify_layout(state.l0_sstables.as_slice(), &state.levels, &state.sstables)
    }
}

/// A layout passes exactly if all its tables are there, and in each level every table ends with a
/// smaller user key than the next one begins with.
pub proof fn law_layout_verified(layout: LayoutView, tables: Map<usize, Arc<SsTable>>)
    ensures
        layout_violation(layout, tables) is None <==> {
            &&& forall|i: int| 0 <= i < layout.l0.len()
                ==> tables.contains_key(#[trigger] layout.l0[i])
            &&& forall|i: int, j: int|
                0 <= i < layout.levels.len() && 0 <= j < layout.levels[i].1.len()
                    ==> tables.contains_key(#[trigger] layout.levels[i].1[j])
            &&& forall|i: int, j: int|
                0 <= i < layout.levels.len() && 0 < j < layout.levels[i].1.len() ==> key::bytes_lt(
                    tables[layout.levels[i].1[j - 1]].last_key@.key,
                    tables[#[trigger] layout.levels[i].1[j]].first_key@.key,
                )
        },
{
    lemma_levels_verified(layout.levels, tables);
}

proof fn lemma_levels_verified(
    levels: Seq<(usize, Seq<usize>)>,
    tables: Map<usize, Arc<SsTable>>,
)
    ensures
        levels_violation(levels, tables) is None <==> {
            &&& forall|i: int, j: int|
                0 <= i < levels.len() && 0 <= j < levels[i].1.len() ==> tables.contains_key(
                    #[trigger] levels[i].1[j],
                )
            &&& forall|i: int, j: int|
                0 <= i < levels.len() && 0 < j < levels[i].1.len() ==> key::bytes_lt(
                    tables[levels[i].1[j - 1]].last_key@.key,
                    tables[#[trigger] levels[i].1[j]].first_key@.key,
                )
        },
    decreases levels.len(),
{
    if levels.len() > 0 {
        let rest = levels.drop_first();
        lemma_levels_verified(rest, tables);
        lemma_level_verified(levels[0].1, tables, None);
        assert(forall|i: int| 0 < i < levels.len() ==> #[trigger] levels[i] == rest[i - 1]);
        assert(forall|i: int| 0 <= i < rest.len() ==> #[trigger] rest[i] == levels[i + 1]);
        let all_there = forall|i: int, j: int|
            0 <= i < levels.len() && 0 <= j < levels[i].1.len() ==> tables.contains_key(
                #[trigger] levels[i].1[j],
            );
        let all_apart = forall|i: int, j: int|
            0 <= i < levels.len() && 0 < j < levels[i].1.len() ==> key::bytes_lt(
                tables[levels[i].1[j - 1]].last_key@.key,
                tables[#[trigger] levels[i].1[j]].first_key@.key,
            );
        if all_there {
            assert forall|i: int, j: int|
                0 <= i < rest.len() && 0 <= j < rest[i].1.len() implies tables.contains_key(
                #[trigger] rest[i].1[j],
            ) by {
                assert(levels[i + 1].1[j] == rest[i].1[j]);
            }
        }
        if all_apart {
            assert forall|i: int, j: int|
                0 <= i < rest.len() && 0 < j < rest[i].1.len() implies key::bytes_lt(
                tables[rest[i].1[j - 1]].last_key@.key,
                tables[#[trigger] rest[i].1[j]].first_key@.key,
            ) by {
                assert(levels[i + 1].1[j] == rest[i].1[j]);
            }
        }
        if levels_violation(levels, tables) is None {
            assert forall|i: int, j: int|
                0 <= i < levels.len() && 0 <= j < levels[i].1.len() implies tables.contains_key(
                #[trigger] levels[i].1[j],
            ) by {
                if i > 0 {
                    assert(rest[i - 1].1[j] == levels[i].1[j]);
                }
            }
            assert forall|i: int, j: int|
                0 <= i < levels.len() && 0 < j < levels[i].1.len() implies key::bytes_lt(
                tables[levels[i].1[j - 1]].last_key@.key,
                tables[#[trigger] levels[i].1[j]].first_key@.key,
            ) by {
                if i > 0 {
                    assert(rest[i - 1].1[j] == levels[i].1[j]);
                }
            }
        }
    }
}

proof fn lemma_level_verified(
    ids: Seq<usize>,
    tables: Map<usize, Arc<SsTable>>,
    prev: Option<Seq<u8>>,
)
    ensures
        level_violation(ids, tables, prev) is None <==> {
            &&& forall|j: int| 0 <= j < ids.len() ==> tables.contains_key(#[trigger] ids[j])
            &&& forall|j: int|
                0 < j < ids.len() ==> key::bytes_lt(
                    tables[ids[j - 1]].last_key@.key,
                    tables[#[trigger] ids[j]].first_key@.key,
                )
            &&& prev is Some && ids.len() > 0 ==> key::bytes_lt(
                prev->Some_0,
                tables[ids[0]].first_key@.key,
            )
        },
    decreases ids.len(),
{
    if ids.len() > 0 {
        let rest = ids.drop_first();
        lemma_level_verified(rest, tables, Some(tables[ids[0]].last_key@.key));
        assert(forall|j: int| 0 < j < ids.len() ==> #[trigger] ids[j] == rest[j - 1]);
        assert(forall|j: int| 0 <= j < rest.len() ==> #[trigger] rest[j] == ids[j + 1]);
        if level_violation(ids, tables, prev) is None {
            assert forall|j: int| 0 <= j < ids.len() implies tables.contains_key(
                #[trigger] ids[j],
            ) by {
                if j > 0 {
                    assert(tables.contains_key(rest[j - 1]));
                }
            }
            assert forall|j: int| 0 < j < ids.len() implies key::bytes_lt(
                tables[ids[j - 1]].last_key@.key,
                tables[#[trigger] ids[j]].first_key@.key,
            ) by {
                assert(ids[j] == rest[j - 1]);
                if j > 1 {
                    assert(ids[j - 1] == rest[j - 2]);
                }
            }
        } else if tables.contains_key(ids[0]) {
            if forall|j: int| 0 <= j < ids.len() ==> tables.contains_key(#[trigger] ids[j]) {
                assert forall|j: int| 0 <= j < rest.len() implies tables.contains_key(
                    #[trigger] rest[j],
                ) by {
                    assert(rest[j] == ids[j + 1]);
                }
            }
            if forall|j: int|
                0 < j < ids.len() ==> key::bytes_lt(
                    tables[ids[j - 1]].last_key@.key,
                    tables[#[trigger] ids[j]].first_key@.key,
                ) {
                assert forall|j: int| 0 < j < rest.len() implies key::bytes_lt(
                    tables[rest[j - 1]].last_key@.key,
                    tables[#[trigger] rest[j]].first_key@.key,
                ) by {
                    assert(rest[j] == ids[j + 1]);
                    assert(rest[j - 1] == ids[j]);
                }
                if rest.len() > 0 {
                    assert(ids[1] == rest[0]);
                }
            }
        }
    }
}

} // verus!
