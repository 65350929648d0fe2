//! The storage engine.
use crate::bound::{self, Bound};
use crate::compact::{CompactionController, CompactionOptions};
use crate::error::LsmError;
use crate::hashing::key_hash;
use crate::iterators;
use crate::iterators::concat_iterator;
use crate::key::{self, Entry, KeySlice, KeyView, StorageKey, bytes_less};
use crate::mem_table::MemTable;
use crate::table::SsTable;
use std::collections::HashMap;
use std::sync::Arc;
use vstd::prelude::*;

pub mod compaction;
pub mod compaction_laws;
pub mod flush;
pub mod laws;
pub mod leveled_laws;
pub mod orderly;
pub mod output_laws;
pub mod read;
pub mod recovery;
pub mod reopen_laws;
pub mod replay_laws;
pub mod scan;
pub mod sound;
pub mod writes;

verus! {

/// Whether a table lies wholly outside a range of user keys.
pub fn table_out_of_range(
    lower: &Bound<&[u8]>,
    upper: &Bound<&[u8]>,
    table_lower: &[u8],
    table_upper: &[u8],
) -> (r: bool)
    ensures
        r == (
            !bound::below_upper(table_lower@, upper@) || !bound::above_lower(table_upper@, lower@)
        ),
{
    broadcast use key::group_bytes_order;

    let before_range: bool = match upper {
        Bound::Included(k) => bytes_less(*k, table_lower),
        Bound::Excluded(k) => !bytes_less(table_lower, *k),
        Bound::Unbounded => false,
    };
    if before_range {
        return true;
    }
    match lower {
        Bound::Included(k) => bytes_less(table_upper, *k),
        Bound::Excluded(k) => !bytes_less(*k, table_upper),
        Bound::Unbounded => false,
    }
}

/// Represents the state of the storage engine.
pub struct LsmStorageState {
    /// The current memtable.
    pub memtable: MemTable,
    /// Immutable memtables, from latest to earliest.
    pub imm_memtables: Vec<Arc<MemTable>>,
    /// L0 SSTs, from latest to earliest.
    pub l0_sstables: Vec<usize>,
    /// SsTables sorted by key range; L1 - L_max for leveled compaction, or tiers for tiered
    /// compaction.
    pub levels: Vec<(usize, Vec<usize>)>,
    /// SST objects.
    pub sstables: HashMap<usize, Arc<SsTable>>,
}

/// Levels as a mathematical value.
pub open spec fn levels_view(levels: Seq<(usize, Vec<usize>)>) -> Seq<(usize, Seq<usize>)> {
    levels.map_values(|l: (usize, Vec<usize>)| (l.0, l.1@))
}

/// Which tables stand where.
#[derive(Debug)]
pub struct TableLayout {
    /// L0 SSTs, from latest to earliest.
    pub l0_sstables: Vec<usize>,
    /// The levels, or the tiers for tiered compaction.
    pub levels: Vec<(usize, Vec<usize>)>,
}

/// Which tables stand where, as a mathematical value.
#[verifier::ext_equal]
pub struct LayoutView {
    pub l0: Seq<usize>,
    pub levels: Seq<(usize, Seq<usize>)>,
}

impl View for TableLayout {
    type V = LayoutView;

    open spec fn view(&self) -> LayoutView {
        LayoutView { l0: self.l0_sstables@, levels: levels_view(self.levels@) }
    }
}

/// A table has a place.
pub open spec fn in_layout(layout: LayoutView, id: usize) -> bool {
    ||| layout.l0.contains(id)
    ||| exists|i: int| 0 <= i < layout.levels.len() && #[trigger] layout.levels[i].1.contains(id)
}

/// The tables with these ids.
pub open spec fn tables_of(ids: Seq<usize>, tables: Map<usize, Arc<SsTable>>) -> Seq<Arc<SsTable>> {
    ids.map_values(|id: usize| tables[id])
}

/// The entries of each table of L0, from the latest on.
pub open spec fn l0_parts(l0: Seq<usize>, tables: Map<usize, Arc<SsTable>>) -> Seq<Seq<Entry>> {
    l0.map_values(|id: usize| tables[id].entries())
}

/// The entries of a level.
pub open spec fn level_entries(
    level: (usize, Seq<usize>),
    tables: Map<usize, Arc<SsTable>>,
) -> Seq<Entry> {
    concat_iterator::tables_from(tables_of(level.1, tables), 0)
}

/// The entries of each level, from the top on.
pub open spec fn level_parts(
    levels: Seq<(usize, Seq<usize>)>,
    tables: Map<usize, Arc<SsTable>>,
) -> Seq<Seq<Entry>> {
    levels.map_values(|l: (usize, Seq<usize>)| level_entries(l, tables))
}

/// The tables of a layout are there and well-formed, and the tables of each level stand in order.
pub open spec fn layout_wf(layout: LayoutView, tables: Map<usize, Arc<SsTable>>) -> bool {
    &&& forall|i: int|
        0 <= i < layout.l0.len() ==> tables.contains_key(#[trigger] layout.l0[i])
            && tables[layout.l0[i]].wf()
    &&& forall|i: int|
        0 <= i < layout.levels.len() ==> #[trigger] level_wf(layout.levels[i], tables)
}

/// The tables of a level are there and well-formed, and stand in order.
pub open spec fn level_wf(level: (usize, Seq<usize>), tables: Map<usize, Arc<SsTable>>) -> bool {
    &&& forall|i: int| 0 <= i < level.1.len() ==> tables.contains_key(#[trigger] level.1[i])
    &&& concat_iterator::run_wf(tables_of(level.1, tables))
}

/// The entries of the tables of a layout, from the newest to the oldest.
pub open spec fn layout_parts(
    layout: LayoutView,
    with_l0: bool,
    tables: Map<usize, Arc<SsTable>>,
) -> Seq<Seq<Entry>> {
    (if with_l0 {
        l0_parts(layout.l0, tables)
    } else {
        Seq::empty()
    }) + level_parts(layout.levels, tables)
}

impl LsmStorageState {
    pub open spec fn levels_seq(&self) -> Seq<(usize, Seq<usize>)> {
        levels_view(self.levels@)
    }

    pub open spec fn layout(&self) -> LayoutView {
        LayoutView { l0: self.l0_sstables@, levels: self.levels_seq() }
    }

    /// The memtables hold finitely many entries.
    pub open spec fn mems_wf(&self) -> bool {
        &&& self.memtable.wf()
        &&& forall|i: int| 0 <= i < self.imm_memtables@.len()
            ==> (#[trigger] self.imm_memtables@[i]).wf()
    }

    pub open spec fn wf(&self) -> bool {
        self.mems_wf() && layout_wf(self.layout(), self.sstables@)
    }

    /// The entries of the memtables, from the newest to the oldest.
    pub open spec fn mem_parts(&self) -> Seq<Seq<Entry>> {
        seq![self.memtable.entries()] + self.imm_memtables@.map_values(
            |m: Arc<MemTable>| m.entries(),
        )
    }

    /// All that the engine holds, from the newest to the oldest.
    pub open spec fn parts(&self, with_l0: bool) -> Seq<Seq<Entry>> {
        self.mem_parts() + layout_parts(self.layout(), with_l0, self.sstables@)
    }

    /// All that the engine holds, merged.
    pub open spec fn contents(&self, with_l0: bool) -> Seq<Entry> {
        iterators::merge_all(self.parts(with_l0))
    }

    /// The value that the engine holds for a key, be it a deletion.
    pub open spec fn find(&self, with_l0: bool, k: KeyView) -> Option<Seq<u8>> {
        iterators::lookup_all(self.parts(with_l0), k)
    }

    /// The levels that a new state begins with.
    pub open spec fn initial_levels(options: CompactionOptions) -> Seq<(usize, Seq<usize>)> {
        match options {
            CompactionOptions::Leveled(o) => numbered_levels(o.max_levels as nat),
            CompactionOptions::Simple(o) => numbered_levels(o.max_levels as nat),
            CompactionOptions::Tiered(_) => Seq::empty(),
            CompactionOptions::NoCompaction => numbered_levels(1),
        }
    }

    /// A new state.
    pub fn create(options: &LsmStorageOptions) -> (s: Self)
        ensures
            s.wf(),
            s.memtable.id == 0,
            s.memtable.entries() == Seq::<Entry>::empty(),
            s.memtable.wal is None,
            s.memtable.approximate_size == 0,
            s.imm_memtables@.len() == 0,
            s.l0_sstables@.len() == 0,
            s.levels_seq() == Self::initial_levels(options.compaction_options),
            s.sstables@.is_empty(),
    {
        broadcast use vstd::std_specs::hash::group_hash_axioms;

        let levels: Vec<(usize, Vec<usize>)> = match &options.compaction_options {
            CompactionOptions::Leveled(o) => make_levels(o.max_levels),
            CompactionOptions::Simple(o) => make_levels(o.max_levels),
            CompactionOptions::Tiered(_) => Vec::new(),
            CompactionOptions::NoCompaction => make_levels(1),
        };
        let s = LsmStorageState {
            memtable: MemTable::create(0),
            imm_memtables: Vec::new(),
            l0_sstables: Vec::new(),
            levels,
            sstables: HashMap::new(),
        };
        assert(s.levels_seq() =~= Self::initial_levels(options.compaction_options));
        assert forall|i: int| 0 <= i < s.layout().levels.len() implies #[trigger] level_wf(
            s.layout().levels[i],
            s.sstables@,
        ) by {
            assert(s.layout().levels[i].1.len() == 0);
            assert(
                concat_iterator::tables_from(tables_of(s.layout().levels[i].1, s.sstables@), 0).len() == 0
            );
        }
        s
    }
}

/// The levels from L1 on, without tables.
pub open spec fn numbered_levels(n: nat) -> Seq<(usize, Seq<usize>)> {
    Seq::new(n, |i: int| ((i + 1) as usize, Seq::<usize>::empty()))
}

fn make_levels(n: usize) -> (r: Vec<(usize, Vec<usize>)>)
    ensures
        levels_view(r@) == numbered_levels(n as nat),
{
    let mut r: Vec<(usize, Vec<usize>)> = Vec::new();
    let mut i: usize = 0;
    while i < n
        invariant
            i <= n,
            r@.len() == i,
            forall|j: int|
                0 <= j < i ==> #[trigger] levels_view(r@)[j] == ((j + 1) as usize, Seq::<
                    usize,
                >::empty()),
        decreases n - i,
    {
        let ghost before = r@;
        r.push((i + 1, Vec::new()));
        assert forall|j: int| 0 <= j < i implies #[trigger] levels_view(r@)[j] == levels_view(
            before,
        )[j] by {}
        assert(levels_view(r@)[i as int].1 =~= Seq::empty());
        i = i + 1;
    }
    assert(levels_view(r@) =~= numbered_levels(n as nat));
    r
}

/// How the engine is set up.
#[derive(Debug, Clone, Copy)]
pub struct LsmStorageOptions {
    /// Block size in bytes
    pub block_size: usize,
    /// SST size in bytes, also the approximate memtable capacity limit
    pub target_sst_size: usize,
    /// Maximum number of memtables in memory, flush to L0 when exceeding this limit
    pub num_memtable_limit: usize,
    pub compaction_options: CompactionOptions,
    pub enable_wal: bool,
    pub serializable: bool,
}

impl LsmStorageOptions {
    pub fn default_for_week1_test() -> (r: Self)
        ensures
            r == (LsmStorageOptions {
                block_size: 4096,
                target_sst_size: 2097152,
                num_memtable_limit: 50,
                compaction_options: CompactionOptions::NoCompaction,
                enable_wal: false,
                serializable: false,
            }),
    {
        LsmStorageOptions {
            block_size: 4096,
            target_sst_size: 2 * 1024 * 1024,
            compaction_options: CompactionOptions::NoCompaction,
            enable_wal: false,
            num_memtable_limit: 50,
            serializable: false,
        }
    }

    pub fn default_for_week1_day6_test() -> (r: Self)
        ensures
            r == (LsmStorageOptions {
                block_size: 4096,
                target_sst_size: 2097152,
                num_memtable_limit: 2,
                compaction_options: CompactionOptions::NoCompaction,
                enable_wal: false,
                serializable: false,
            }),
    {
        LsmStorageOptions {
            block_size: 4096,
            target_sst_size: 2 * 1024 * 1024,
            compaction_options: CompactionOptions::NoCompaction,
            enable_wal: false,
            num_memtable_limit: 2,
            serializable: false,
        }
    }

    pub fn default_for_week2_test(compaction_options: CompactionOptions) -> (r: Self)
        ensures
            r == (LsmStorageOptions {
                block_size: 4096,
                target_sst_size: 1048576,
                num_memtable_limit: 2,
                compaction_options,
                enable_wal: false,
                serializable: false,
            }),
    {
        LsmStorageOptions {
            block_size: 4096,
            target_sst_size: 1024 * 1024,
            compaction_options,
            enable_wal: false,
            num_memtable_limit: 2,
            serializable: false,
        }
    }
}

/// One write of a batch.
#[derive(Debug)]
pub enum WriteBatchRecord<T> {
    Put(T, T),
    Del(T),
}

/// Which entries a compaction may drop.
#[derive(Debug)]
pub enum CompactionFilter {
    Prefix(Vec<u8>),
}

/// The storage interface of the LSM tree.
pub struct LsmStorageInner {
    pub state: LsmStorageState,
    /// The id that the next table or memtable gets.
    pub next_sst_id: usize,
    pub options: LsmStorageOptions,
    pub compaction_controller: CompactionController,
    pub compaction_filters: Vec<CompactionFilter>,
    /// A compaction is under way.
    pub is_in_compact: bool,
}

/// The id after `id`.
pub open spec fn id_after(id: usize) -> usize {
    if id == usize::MAX {
        0
    } else {
        (id + 1) as usize
    }
}

/// The id `n` steps after `id`.
pub open spec fn nth_id(id: usize, n: nat) -> usize
    decreases n,
{
    if n == 0 {
        id
    } else {
        id_after(nth_id(id, (n - 1) as nat))
    }
}

/// The value as a reader gets it: none for a deletion.
pub(crate) fn live_value(v: Vec<u8>) -> (r: Option<Vec<u8>>)
    ensures
        r is Some <==> v@.len() > 0,
        r matches Some(x) ==> x@ == v@,
{
    if v.len() == 0 {
        None
    } else {
        Some(v)
    }
}

/// A value as a mathematical value.
pub open spec fn value_view(v: Option<Vec<u8>>) -> Option<Seq<u8>> {
    match v {
        Some(x) => Some(x@),
        None => None,
    }
}

impl LsmStorageInner {
    /// Memtables are flushed to L0, and L0 is searched.
    pub open spec fn uses_l0(&self) -> bool {
        self.compaction_controller.flushes_to_l0()
    }

    /// All that the engine holds, merged.
    pub open spec fn contents(&self) -> Seq<Entry> {
        self.state.contents(self.uses_l0())
    }

    /// The value that the engine holds for a key, be it a deletion.
    pub open spec fn find(&self, k: KeyView) -> Option<Seq<u8>> {
        self.state.find(self.uses_l0(), k)
    }

    /// Begins nothing: a transaction needs no preparation.
    pub fn new_txn(&self) -> (r: Result<(), LsmError>)
        ensures
            r is Ok,
    {
        Ok(())
    }

    /// Hands out an id.
    pub fn next_sst_id(&mut self) -> (id: usize)
        ensures
            id == old(self).next_sst_id,
            final(self).next_sst_id == id_after(old(self).next_sst_id),
            final(self).state == old(self).state,
            final(self).options == old(self).options,
            final(self).compaction_controller == old(self).compaction_controller,
            final(self).compaction_filters == old(self).compaction_filters,
            final(self).is_in_compact == old(self).is_in_compact,
    {
        let id: usize = self.next_sst_id;
        self.next_sst_id = id.wrapping_add(1);
        id
    }

    pub fn add_compaction_filter(&mut self, compaction_filter: CompactionFilter)
        ensures
            final(self).compaction_filters@ == old(self).compaction_filters@.push(
                compaction_filter,
            ),
            final(self).state == old(self).state,
            final(self).next_sst_id == old(self).next_sst_id,
            final(self).options == old(self).options,
            final(self).compaction_controller == old(self).compaction_controller,
            final(self).is_in_compact == old(self).is_in_compact,
    {
        self.compaction_filters.push(compaction_filter);
    }

    /// Looks a key up in a table, if its range and its bloom filter do not rule it out.
    pub(crate) fn get_from_table(sst: &SsTable, key: &[u8]) -> (r: Result<Option<Vec<u8>>, LsmError>)
        requires
            sst.wf(),
        ensures
            r is Ok,
            value_view(r->Ok_0) == key::lookup(sst.entries(), key::user_key(key@)),
    {
        broadcast use key::group_key_order;

        let key_slice: KeySlice<'_> = KeySlice::from_slice(key);
        proof {
            key::lemma_lookup(sst.entries(), key_slice@);
        }
        if key_slice.less(&sst.first_key().as_key_slice()) || sst.last_key().as_key_slice().less(
            &key_slice,
        ) {
            assert forall|i: int| 0 <= i < sst.entries().len()
                implies #[trigger] sst.entries()[i].key
                != key_slice@ by {
                let n = sst.entries().len() - 1;
                assert(i == 0 || key::key_lt(sst.entries()[0].key, sst.entries()[i].key));
                assert(i == n || key::key_lt(sst.entries()[i].key, sst.entries()[n].key));
            }
            return Ok(None);
        }
        if let Some(bloom) = &sst.bloom {
            if let Some(hash) = key_hash(key) {
                if !bloom.may_contain(hash) {
                    assert forall|i: int| 0 <= i < sst.entries().len()
                        implies #[trigger] sst.entries()[i].key
                        != key_slice@ by {
                        assert(sst.known_to_bloom(sst.entries()[i]));
                    }
                    return Ok(None);
                }
            }
        }
        match sst.get(key_slice)? {
            Some((_k, v)) => Ok(Some(v)),
            None => Ok(None),
        }
    }
}

/// Ids are handed out one after the other.
pub proof fn law_ids(id: usize, n: nat)
    requires
        id + n <= usize::MAX,
    ensures
        nth_id(id, n) == id + n,
    decreases n,
{
    if n > 0 {
        law_ids(id, (n - 1) as nat);
    }
}

/// A new engine has the levels from L1 to the last one of its options, without tables; with tiers it
/// has none, and without compaction L1 only.
pub proof fn law_initial_levels(options: CompactionOptions, i: int)
    ensures
        ({
            let levels = LsmStorageState::initial_levels(options);
            &&& options matches CompactionOptions::Leveled(o) ==> levels.len() == o.max_levels
            &&& options matches CompactionOptions::Simple(o) ==> levels.len() == o.max_levels
            &&& options is Tiered ==> levels.len() == 0
            &&& options is NoCompaction ==> levels.len() == 1
            &&& 0 <= i < levels.len() ==> levels[i].0 == i + 1 && levels[i].1.len() == 0
        }),
{
}

} // verus!
