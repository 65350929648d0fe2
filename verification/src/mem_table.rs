//! The table in memory that takes the writes.
use crate::bound::{self, Bound};
use crate::error::LsmError;
use crate::iterators::{self, StorageIterator};
use crate::key::{self, Entry, KeySlice, KeyVec, KeyView, StorageKey};
use crate::table::builder::SsTableBuilder;
use crate::versions::{
    self, VersionMap, all_versions, get_version, map_is_empty, map_new, put_version, versions_in,
};
use crate::wal::{self, Wal, WalError};
use vstd::prelude::*;

verus! {

/// A table in memory, with a log of its writes where one is kept.
pub struct MemTable {
    pub map: VersionMap,
    pub wal: Option<Wal>,
    pub id: usize,
    pub approximate_size: usize,
}

/// An entry can be stored in a block.
pub open spec fn storable(e: Entry) -> bool {
    0 < e.key.key.len() <= u16::MAX && e.value.len() <= u16::MAX
}

/// Whether a key-value pair can be stored in a block.
pub fn is_storable(key: &[u8], value: &[u8]) -> (r: bool)
    ensures
        r == storable(Entry { key: key::user_key(key@), value: value@ }),
{
    0 < key.len() && key.len() <= 0xffff && value.len() <= 0xffff
}

/// `a + b`, or the largest `usize` if the sum exceeds it.
pub open spec fn size_after(a: usize, b: int) -> int {
    if a + b > usize::MAX {
        usize::MAX as int
    } else {
        a + b
    }
}

impl MemTable {
    pub open spec fn wf(&self) -> bool {
        versions::contents(self.map).dom().finite()
    }

    /// All entries, sorted.
    pub open spec fn entries(&self) -> Seq<Entry> {
        versions::listing(versions::contents(self.map))
    }

    /// Every entry can be stored in a block.
    pub open spec fn flushable(&self) -> bool {
        forall|i: int| 0 <= i < self.entries().len() ==> storable(#[trigger] self.entries()[i])
    }

    /// A new table without a log.
    pub fn create(id: usize) -> (m: Self)
        ensures
            m.wf(),
            m.id == id,
            m.entries() == Seq::<Entry>::empty(),
            m.wal is None,
            m.approximate_size == 0,
    {
        let m = MemTable { map: map_new(), wal: None, id, approximate_size: 0 };
        proof {
            lemma_empty_listing(versions::contents(m.map));
        }
        m
    }

    /// A new table with a new log.
    pub fn create_with_wal(id: usize) -> (m: Self)
        ensures
            m.wf(),
            m.id == id,
            m.entries() == Seq::<Entry>::empty(),
            m.wal is Some,
            m.wal->Some_0.pending@.len() == 0,
            m.approximate_size == 0,
    {
        let mut m = MemTable::create(id);
        m.wal = Some(Wal::create());
        m
    }

    /// The table that a log tells of. `log` holds the bytes of the log.
    pub fn recover_from_wal(id: usize, log: &[u8]) -> (r: Result<Self, WalError>)
        ensures
            match wal::scan_log(log@).1 {
                Some(e) => r is Err && r->Err_0 == e,
                None => {
                    &&& r is Ok
                    &&& r->Ok_0.wf()
                    &&& r->Ok_0.id == id
                    &&& r->Ok_0.wal is Some
                    &&& r->Ok_0.wal->Some_0.pending@.len() == 0
                    &&& r->Ok_0.approximate_size == 0
                    &&& versions::contents(r->Ok_0.map)
                        == wal::insert_all(Map::empty(), wal::scan_log(log@).0)
                },
            },
    {
        let mut map: VersionMap = map_new();
        assert(versions::contents(map) =~= Map::empty());
        let wal: Wal = Wal::recover(log, &mut map)?;
        proof {
            wal::lemma_insert_all_finite(Map::empty(), wal::scan_log(log@).0);
        }
        Ok(MemTable { map, wal: Some(wal), id, approximate_size: 0 })
    }

    /// The value of a key.
    pub fn get(&self, key: &[u8]) -> (r: Option<Vec<u8>>)
        requires
            self.wf(),
        ensures
            r is Some <==> key::lookup(self.entries(), key::user_key(key@)) is Some,
            r matches Some(v) ==> key::lookup(self.entries(), key::user_key(key@)) == Some(v@),
    {
        proof {
            versions::lemma_listing(versions::contents(self.map));
            assert(key::lookup(self.entries(), key::user_key(key@)) == versions::version(
                versions::contents(self.map),
                key::user_key(key@),
            ));
        }
        get_version(&self.map, KeySlice::from_slice(key))
    }

    /// Gives a key a value.
    pub fn put(&mut self, key: &[u8], value: &[u8])
        requires
            old(self).wf(),
        ensures
            final(self).put_from(*old(self), Entry { key: key::user_key(key@), value: value@ }),
    {
        self.put_versioned(KeySlice::from_slice(key), value)
    }

    /// What becomes of `old` when `e` is put in.
    pub open spec fn put_from(&self, old: MemTable, e: Entry) -> bool {
        &&& self.wf()
        &&& self.id == old.id
        &&& versions::contents(self.map)
            == versions::contents(old.map).insert(versions::slot_of(e.key), e.value)
        &&& self.entries() == iterators::merge2(seq![e], old.entries())
        &&& self.approximate_size == size_after(
            old.approximate_size,
            (e.key.key.len() + e.value.len()) as int,
        )
        &&& self.wal is Some <==> old.wal is Some
        &&& self.wal is Some ==> self.wal->Some_0.pending@ == old.wal->Some_0.pending@
            + wal::batch_bytes(seq![e])
    }

    /// Gives one version of a key a value.
    pub fn put_versioned(&mut self, key: KeySlice<'_>, value: &[u8])
        requires
            old(self).wf(),
        ensures
            final(self).put_from(*old(self), Entry { key: key@, value: value@ }),
    {
        let ghost e = Entry { key: key@, value: value@ };
        let ghost c = versions::contents(self.map);
        put_version(&mut self.map, key, value);
        let mut log: Option<Wal> = None;
        std::mem::swap(&mut log, &mut self.wal);
        if let Some(w) = log {
            let mut wal = w;
            wal.put(key, value);
            self.wal = Some(wal);
        }
        self.approximate_size = self.approximate_size.saturating_add(key.key_len());
        self.approximate_size = self.approximate_size.saturating_add(value.len());
        proof {
            lemma_listing_put(c, e);
        }
    }

    /// Hands out what has been logged and not been written yet.
    pub fn sync_wal(&mut self) -> (bytes: Vec<u8>)
        ensures
            bytes@ == if old(self).wal is Some {
                old(self).wal->Some_0.pending@
            } else {
                Seq::empty()
            },
            final(self).map == old(self).map,
            final(self).id == old(self).id,
            final(self).approximate_size == old(self).approximate_size,
            final(self).wal is Some <==> old(self).wal is Some,
            final(self).wal is Some ==> final(self).wal->Some_0.pending@.len() == 0,
    {
        let mut log: Option<Wal> = None;
        std::mem::swap(&mut log, &mut self.wal);
        match log {
            Some(w) => {
                let mut wal = w;
                let bytes: Vec<u8> = wal.sync();
                self.wal = Some(wal);
                bytes
            },
            None => Vec::new(),
        }
    }

    /// The entries whose user keys lie in a range.
    pub fn scan(&self, lower: &Bound<&[u8]>, upper: &Bound<&[u8]>) -> (it: MemTableIterator)
        requires
            self.wf(),
        ensures
            it.inv(),
            it.remaining() == bound::clip(self.entries(), lower@, upper@),
    {
        let items: Vec<(KeyVec, Vec<u8>)> = versions_in(&self.map, lower, upper);
        let it = MemTableIterator { items, pos: 0 };
        assert(it.remaining() =~= versions::pairs_view(it.items@));
        it
    }

    /// Adds all entries to a table builder.
    pub fn flush(&self, builder: &mut SsTableBuilder)
        requires
            self.wf(),
            self.flushable(),
            old(builder).inv(),
        ensures
            final(builder).inv(),
            final(builder).block_size == old(builder).block_size,
            final(builder).entries() == old(builder).entries() + self.entries(),
    {
        let items: Vec<(KeyVec, Vec<u8>)> = all_versions(&self.map);
        let ghost es = self.entries();
        let mut i: usize = 0;
        assert(es.take(0) =~= Seq::empty());
        assert(builder.entries() =~= old(builder).entries() + es.take(0));
        while i < items.len()
            invariant
                i <= items@.len(),
                es == versions::pairs_view(items@),
                forall|j: int| 0 <= j < es.len() ==> storable(#[trigger] es[j]),
                builder.inv(),
                builder.block_size == old(builder).block_size,
                builder.entries() == old(builder).entries() + es.take(i as int),
            decreases items@.len() - i,
        {
            assert(storable(es[i as int]));
            builder.add(items[i].0.as_key_slice(), items[i].1.as_slice());
            assert(builder.entries() =~= old(builder).entries() + es.take(i + 1));
            i = i + 1;
        }
        assert(es.take(i as int) =~= es);
    }

    /// Whether every entry can be stored in a block.
    pub fn is_flushable(&self) -> (r: bool)
        requires
            self.wf(),
        ensures
            r == self.flushable(),
    {
        let items: Vec<(KeyVec, Vec<u8>)> = all_versions(&self.map);
        let ghost es = self.entries();
        let mut i: usize = 0;
        while i < items.len()
            invariant
                i <= items@.len(),
                es == versions::pairs_view(items@),
                es == self.entries(),
                forall|j: int| 0 <= j < i ==> storable(#[trigger] es[j]),
            decreases items@.len() - i,
        {
            let item: &(KeyVec, Vec<u8>) = &items[i];
            assert(es[i as int].key == item.0@);
            assert(es[i as int].value == item.1@);
            if !is_storable(item.0.key_ref(), item.1.as_slice()) {
                assert(!storable(es[i as int]));
                return false;
            }
            i = i + 1;
        }
        true
    }

    pub fn id(&self) -> (r: usize)
        ensures
            r == self.id,
    {
        self.id
    }

    pub fn approximate_size(&self) -> (r: usize)
        ensures
            r == self.approximate_size,
    {
        self.approximate_size
    }

    /// Whether the table holds nothing.
    pub fn is_empty(&self) -> (r: bool)
        requires
            self.wf(),
        ensures
            r == (self.entries().len() == 0),
    {
        let r: bool = map_is_empty(&self.map);
        proof {
            let c = versions::contents(self.map);
            versions::lemma_listing(c);
            if r {
                lemma_empty_listing(c);
            } else {
                let slot = c.dom().choose();
                assert(c.dom().contains(slot));
                assert(versions::slot_of(versions::key_of(slot)) =~= slot);
                assert(
                    key::lookup(self.entries(), versions::key_of(slot))
                        == versions::version(c, versions::key_of(slot))
                );
            }
        }
        r
    }
}

/// Nothing is listed as nothing.
pub proof fn lemma_empty_listing(c: Map<(Seq<u8>, u64), Seq<u8>>)
    requires
        c.is_empty(),
    ensures
        versions::listing(c) == Seq::<Entry>::empty(),
        c.dom().finite(),
{
    assert(c.dom() =~= Set::empty());
    let s = Seq::<Entry>::empty();
    assert forall|k: KeyView| #[trigger] key::lookup(s, k) == versions::version(c, k) by {
        assert(!c.dom().contains(versions::slot_of(k)));
    }
    assert(versions::is_listing(s, c));
    versions::lemma_listing_unique(s, c);
}

/// Putting an entry into a map puts it into the listing.
pub proof fn lemma_listing_put(c: Map<(Seq<u8>, u64), Seq<u8>>, e: Entry)
    requires
        c.dom().finite(),
    ensures
        versions::listing(c.insert(versions::slot_of(e.key), e.value))
            == iterators::merge2(seq![e], versions::listing(c)),
        key::sorted(iterators::merge2(seq![e], versions::listing(c))),
{
    let d = c.insert(versions::slot_of(e.key), e.value);
    versions::lemma_listing(c);
    let s = versions::listing(c);
    let one = seq![e];
    assert(key::sorted(one));
    assert forall|k: KeyView| #[trigger] key::lookup(iterators::merge2(one, s), k)
        == versions::version(d, k) by {
        iterators::law_merge2(one, s, k);
        key::lemma_lookup(one, k);
        assert(one[0].key == e.key);
        versions::lemma_slot_order(k, e.key);
        assert(key::lookup(s, k) == versions::version(c, k));
    }
    iterators::law_merge2(one, s, e.key);
    versions::lemma_listing_unique(iterators::merge2(one, s), d);
}

/// The entries of a table in memory are sorted.
pub proof fn lemma_entries_sorted(m: &MemTable)
    requires
        m.wf(),
    ensures
        key::sorted(m.entries()),
{
    versions::lemma_listing(versions::contents(m.map));
}

/// What was put in last under a key is what is found there; other keys keep their values.
pub proof fn law_put_then_get(before: MemTable, after: MemTable, e: Entry, k: KeyView)
    requires
        before.wf(),
        after.put_from(before, e),
    ensures
        key::lookup(after.entries(), k) == if k == e.key {
            Some(e.value)
        } else {
            key::lookup(before.entries(), k)
        },
{
    versions::lemma_listing(versions::contents(before.map));
    versions::lemma_listing(versions::contents(after.map));
    versions::lemma_slot_order(k, e.key);
    assert(key::lookup(after.entries(), k) == versions::version(versions::contents(after.map), k));
    assert(
        key::lookup(before.entries(), k) == versions::version(versions::contents(before.map), k)
    );
}

/// Iterates over a snapshot of a table in memory.
#[derive(Debug)]
pub struct MemTableIterator {
    pub items: Vec<(KeyVec, Vec<u8>)>,
    pub pos: usize,
}

impl StorageIterator for MemTableIterator {
    type KeyType<'a> = KeySlice<'a>;

    open spec fn inv(&self) -> bool {
        self.pos <= self.items@.len()
    }

    open spec fn remaining(&self) -> Seq<Entry> {
        versions::pairs_view(self.items@).skip(self.pos as int)
    }

    open spec fn steady(&self) -> bool {
        true
    }

    open spec fn fused(&self) -> bool {
        true
    }

    open spec fn active(&self) -> usize {
        1
    }

    fn key<'a>(&'a self) -> (k: KeySlice<'a>) {
        let k: KeySlice<'a> = self.items[self.pos].0.as_key_slice();
        assert(k.key_view() == k@);
        k
    }

    fn value(&self) -> (v: &[u8]) {
        self.items[self.pos].1.as_slice()
    }

    fn is_valid(&self) -> (r: bool) {
        self.pos < self.items.len()
    }

    fn next(&mut self) -> (r: Result<(), LsmError>)
        ensures
            r is Ok,
            final(self).items == old(self).items,
    {
        if self.pos < self.items.len() {
            self.pos = self.pos + 1;
        }
        assert(self.remaining() =~= iterators::past_first(old(self).remaining()));
        Ok(())
    }

    fn num_active_iterators(&self) -> (n: usize) {
        1
    }
}

/// An entry can be stored in a block exactly if its user key has 1 to 65535 bytes and its value at
/// most 65535, and a memtable can be flushed exactly if all its entries can be stored.
pub proof fn law_storable(e: Entry, m: MemTable)
    ensures
        storable(e) <==> 1 <= e.key.key.len() <= 65535 && e.value.len() <= 65535,
        m.flushable() <==> forall|i: int|
            0 <= i < m.entries().len() ==> 1 <= (#[trigger] m.entries()[i]).key.key.len() <= 65535
                && m.entries()[i].value.len() <= 65535,
{
    if forall|i: int|
        0 <= i < m.entries().len() ==> 1 <= (#[trigger] m.entries()[i]).key.key.len() <= 65535
            && m.entries()[i].value.len() <= 65535 {
        assert(m.flushable());
    }
}

} // verus!
