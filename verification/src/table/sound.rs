//! Whether a table that was read from a file can be used.
use crate::block::{Block, BlockIterator};
use crate::hashing::{self, key_hash};
use crate::key::{self, Entry, KeySlice, KeyVec, StorageKey};
use crate::mem_table::{self, is_storable};
use crate::table::{self, BlockMeta, SsTable};
use std::sync::Arc;
use vstd::prelude::*;

verus! {

impl SsTable {
    /// The entries stand in order, and the bloom filter rules none of them out.
    pub open spec fn keys_sound(&self, es: Seq<Entry>) -> bool {
        key::sorted(es) && forall|i: int| 0 <= i < es.len()
            ==> self.known_to_bloom(#[trigger] es[i])
    }

    /// Whether the block `i` can be read, and holds at least one entry.
    fn is_block_readable(&self, i: usize) -> (r: bool)
        requires
            self.file.present(),
            i < self.block_meta@.len(),
        ensures
            r == table::blk_ok(
                self.file.content(),
                self.metas(),
                self.block_meta_offset as int,
                i as int,
            ),
    {
        let data: &Vec<u8> = self.file.data.as_ref().unwrap();
        let ghost metas = self.metas();
        let start: usize = self.block_meta[i].offset;
        assert(metas[i as int].offset == start);
        let end: usize = if i < self.block_meta.len() - 1 {
            assert(metas[i + 1].offset == self.block_meta@[i + 1].offset);
            self.block_meta[i + 1].offset
        } else {
            self.block_meta_offset
        };
        if end > data.len() || start > end || end - start < 4 {
            return false;
        }
        let bytes: &[u8] = &data.as_slice()[start..end - 4];
        assert(bytes@ =~= table::blk_bytes(
            self.file.content(),
            metas,
            self.block_meta_offset as int,
            i as int,
        ));
        if !Block::is_decodable(bytes) {
            return false;
        }
        let block: Block = Block::decode(bytes);
        block.offsets.len() > 0 && block.is_sound()
    }

    /// Whether every block can be read.
    pub fn is_readable(&self) -> (r: bool)
        ensures
            r == self.readable(),
    {
        match &self.file.data {
            None => {
                return false;
            },
            Some(data) => {
                if self.file.size != data.len() as u64 {
                    return false;
                }
            },
        }
        let mut i: usize = 0;
        while i < self.block_meta.len()
            invariant
                i <= self.block_meta@.len(),
                self.file.present(),
                forall|j: int|
                    0 <= j < i ==> #[trigger] table::blk_ok(
                        self.file.content(),
                        self.metas(),
                        self.block_meta_offset as int,
                        j,
                    ),
            decreases self.block_meta@.len() - i,
        {
            if !self.is_block_readable(i) {
                return false;
            }
            i = i + 1;
        }
        true
    }

    /// Whether the bloom filter does not rule out a user key.
    fn is_known(&self, key: &[u8]) -> (r: bool)
        requires
            self.bloom is Some,
            8 * self.bloom->Some_0.filter@.len() <= usize::MAX,
        ensures
            r == (hashing::key_hash_of(key@) is Some ==> self.bloom->Some_0.holds(
                hashing::key_hash_of(key@)->Some_0,
            )),
    {
        match key_hash(key) {
            None => true,
            Some(h) => self.bloom.as_ref().unwrap().may_contain(h),
        }
    }

    /// Whether the entries of a block, after those that end with the key `last`, stand in order and
    /// are known to the bloom filter. Tells the first and the last key of the block.
    fn scan_block(
        &self,
        block: Arc<Block>,
        last: &Option<KeyVec>,
        Ghost(before): Ghost<Seq<Entry>>,
    ) -> (r: Option<(KeyVec, KeyVec)>)
        requires
            self.bloom is Some,
            8 * self.bloom->Some_0.filter@.len() <= usize::MAX,
            block.wf(),
            block.entries().len() > 0,
            self.keys_sound(before),
            match *last {
                None => before.len() == 0,
                Some(k) => before.len() > 0 && k@ == before.last().key,
            },
        ensures
            r is Some <==> self.keys_sound(before + block.entries()),
            r matches Some((a, b)) ==> a@ == block.entries()[0].key && b@
                == block.entries().last().key,
    {
        broadcast use key::group_key_order;

        let ghost es = block.entries();
        let mut it = BlockIterator::create_and_seek_to_first(block);
        let first: KeyVec = it.key().to_key_vec();
        let mut prev: Option<KeyVec> = match last {
            None => None,
            Some(k) => Some(k.clone()),
        };
        let ghost mut seen = before;
        let ghost mut n: int = 0;
        assert(before + es.take(0) =~= before);
        assert(es.skip(0) =~= es);
        while it.is_valid()
            invariant
                it.inv(),
                es == block.entries(),
                self.bloom is Some,
                8 * self.bloom->Some_0.filter@.len() <= usize::MAX,
                0 <= n <= es.len(),
                it.remaining() == es.skip(n),
                seen == before + es.take(n),
                self.keys_sound(seen),
                match prev {
                    None => seen.len() == 0,
                    Some(k) => seen.len() > 0 && k@ == seen.last().key,
                },
            decreases it.remaining().len(),
        {
            broadcast use key::group_key_order;

            let key: KeySlice<'_> = it.key();
            let ghost e = es[n];
            assert(key@ == e.key);
            let ghost next = seen.push(e);
            assert(before + es.take(n + 1) =~= next);
            let ghost all = before + es;
            let in_order: bool = match &prev {
                None => true,
                Some(k) => k.as_key_slice().less(&key),
            };
            if !in_order {
                proof {
                    let m = seen.len() as int;
                    assert(all[m - 1] == next[m - 1] && all[m] == next[m]);
                    assert(seen.last() == next[m - 1]);
                    assert(!key::sorted(all));
                }
                return None;
            }
            if !self.is_known(key.key_ref()) {
                proof {
                    let m = seen.len() as int;
                    assert(all[m] == e);
                    assert(!self.known_to_bloom(all[m]));
                }
                return None;
            }
            prev = Some(key.to_key_vec());
            it.next();
            proof {
                assert forall|i: int, j: int| 0 <= i < j < next.len() implies key::key_lt(
                    #[trigger] next[i].key,
                    #[trigger] next[j].key,
                ) by {
                    if j == seen.len() {
                        assert(seen.last() == seen[seen.len() - 1]);
                        if i < seen.len() - 1 {
                            assert(key::key_lt(seen[i].key, seen[seen.len() - 1].key));
                        }
                    } else {
                        assert(next[i] == seen[i] && next[j] == seen[j]);
                    }
                }
                assert forall|i: int| 0 <= i < next.len() implies self.known_to_bloom(
                    #[trigger] next[i],
                ) by {
                    if i < seen.len() {
                        assert(next[i] == seen[i]);
                    }
                }
                assert(es.skip(n).drop_first() =~= es.skip(n + 1));
                seen = next;
                n = n + 1;
            }
        }
        assert(es.take(n) =~= es);
        assert((before + es).last() == es.last());
        match prev {
            None => None,
            Some(k) => Some((first, k)),
        }
    }

    /// Whether the table can be read, holds its entries in order, and says only what is true of
    /// their keys.
    pub fn is_sound(&self) -> (r: bool)
        ensures
            r == self.wf(),
    {
        let n: usize = self.block_meta.len();
        if !self.is_readable() {
            return false;
        }
        match &self.bloom {
            None => {
                return false;
            },
            Some(bloom) => {
                if bloom.filter.len() > usize::MAX / 8 {
                    return false;
                }
            },
        }
        if n == 0 {
            let none: KeyVec = KeyVec::new();
            return self.first_key.as_key_slice().same(&none.as_key_slice())
                && self.last_key.as_key_slice().same(&none.as_key_slice());
        }
        let ghost data = self.file.content();
        let ghost metas = self.metas();
        let ghost end = self.block_meta_offset as int;
        let mut last: Option<KeyVec> = None;
        let mut i: usize = 0;
        while i < n
            invariant
                i <= n,
                n == self.block_meta@.len(),
                self.readable(),
                self.bloom is Some,
                8 * self.bloom->Some_0.filter@.len() <= usize::MAX,
                data == self.file.content(),
                metas == self.metas(),
                end == self.block_meta_offset,
                self.keys_sound(table::entries_upto(data, metas, end, i as int)),
                match last {
                    None => table::entries_upto(data, metas, end, i as int).len() == 0,
                    Some(k) => table::entries_upto(data, metas, end, i as int).len() > 0 && k@
                        == table::entries_upto(data, metas, end, i as int).last().key,
                },
                i > 0 ==> last is Some,
                forall|j: int| 0 <= j < i ==> #[trigger] table::meta_matches(data, metas, end, j),
            decreases n - i,
        {
            let ghost before = table::entries_upto(data, metas, end, i as int);
            let ghost es = self.block(i as int);
            proof {
                table::lemma_block_place(self, i as int);
                assert(table::entries_upto(data, metas, end, i + 1) == before + es);
                assert(metas[i as int] == self.block_meta@[i as int]@);
            }
            let block: Arc<Block> = match self.read_block_cached(i) {
                Ok(b) => b,
                Err(_) => {
                    return false;
                },
            };
            match self.scan_block(block, &last, Ghost(before)) {
                None => {
                    proof {
                        if self.wf() {
                            lemma_keys_sound_front(self, before + es, self.entries_at(i + 1));
                        }
                    }
                    return false;
                },
                Some((a, b)) => {
                    let meta: &BlockMeta = &self.block_meta[i];
                    if !a.as_key_slice().same(&meta.first_key.as_key_slice())
                        || !b.as_key_slice().same(&meta.last_key.as_key_slice()) {
                        assert(!table::meta_matches(data, metas, end, i as int));
                        return false;
                    }
                    assert(table::meta_matches(data, metas, end, i as int));
                    last = Some(b);
                },
            }
            i = i + 1;
        }
        proof {
            table::lemma_entries_split(data, metas, end, n as int);
            assert(self.entries() =~= table::entries_upto(data, metas, end, n as int));
            table::lemma_block_place(self, 0);
            assert(self.entries()[0] == self.block(0)[0]);
            assert(table::meta_matches(data, metas, end, 0));
            assert(metas[0] == self.block_meta@[0]@);
        }
        let first_ok: bool = self.first_key.as_key_slice().same(
            &self.block_meta[0].first_key.as_key_slice(),
        );
        let last_ok: bool = match last {
            None => false,
            Some(k) => self.last_key.as_key_slice().same(&k.as_key_slice()),
        };
        first_ok && last_ok
    }

    /// Whether every entry can be stored in a block.
    pub fn is_storable(&self) -> (r: bool)
        requires
            self.readable(),
        ensures
            r == forall|i: int|
                0 <= i < self.entries().len() ==> mem_table::storable(#[trigger] self.entries()[i]),
    {
        let ghost data = self.file.content();
        let ghost metas = self.metas();
        let ghost end = self.block_meta_offset as int;
        let n: usize = self.block_meta.len();
        let mut i: usize = 0;
        while i < n
            invariant
                i <= n,
                n == self.block_meta@.len(),
                self.readable(),
                data == self.file.content(),
                metas == self.metas(),
                end == self.block_meta_offset,
                forall|j: int|
                    0 <= j < table::entries_upto(data, metas, end, i as int).len()
                        ==> mem_table::storable(
                        #[trigger] table::entries_upto(data, metas, end, i as int)[j],
                    ),
            decreases n - i,
        {
            let ghost before = table::entries_upto(data, metas, end, i as int);
            let ghost es = self.block(i as int);
            proof {
                table::lemma_block_place(self, i as int);
                assert(table::entries_upto(data, metas, end, i + 1) == before + es);
            }
            let block: Arc<Block> = match self.read_block_cached(i) {
                Ok(b) => b,
                Err(_) => {
                    return false;
                },
            };
            let mut it = BlockIterator::create_and_seek_to_first(block);
            let ghost mut m: int = 0;
            assert(es.skip(0) =~= es);
            while it.is_valid()
                invariant
                    it.inv(),
                    0 <= m <= es.len(),
                    it.remaining() == es.skip(m),
                    forall|j: int| 0 <= j < m ==> mem_table::storable(#[trigger] es[j]),
                    self.entries() == before + es + self.entries_at(i + 1),
                decreases it.remaining().len(),
            {
                let k: usize = it.key().key_len();
                let v: usize = it.value().len();
                assert(es.skip(m)[0] == es[m]);
                if k == 0 || k > 0xffff || v > 0xffff {
                    proof {
                        let x = before.len() + m;
                        assert(self.entries()[x] == es[m]);
                        assert(!mem_table::storable(self.entries()[x]));
                    }
                    return false;
                }
                it.next();
                proof {
                    assert(es.skip(m).drop_first() =~= es.skip(m + 1));
                    m = m + 1;
                }
            }
            i = i + 1;
        }
        proof {
            table::lemma_entries_split(data, metas, end, n as int);
            assert(self.entries() =~= table::entries_upto(data, metas, end, n as int));
        }
        true
    }
}

/// What holds of all entries holds of the first ones.
proof fn lemma_keys_sound_front(t: &SsTable, a: Seq<Entry>, b: Seq<Entry>)
    requires
        t.keys_sound(a + b),
    ensures
        t.keys_sound(a),
{
    let all = a + b;
    assert forall|i: int, j: int| 0 <= i < j < a.len() implies key::key_lt(
        #[trigger] a[i].key,
        #[trigger] a[j].key,
    ) by {
        assert(all[i] == a[i] && all[j] == a[j]);
    }
    assert forall|i: int| 0 <= i < a.len() implies t.known_to_bloom(#[trigger] a[i]) by {
        assert(all[i] == a[i]);
    }
}

} // verus!
