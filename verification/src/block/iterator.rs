//! Iterating over blocks.
use crate::block::{self, Block};
use crate::codec::{self, read_u16_le, read_u64_le};
use crate::key::{self, Entry, KeySlice, KeyVec, StorageKey, copy_bytes};
use std::sync::Arc;
use vstd::prelude::*;

verus! {

/// Iterates on a block.
#[derive(Debug)]
pub struct BlockIterator {
    /// The block.
    pub block: Arc<Block>,
    /// The current key; an empty user key means that the iterator is invalid.
    pub key: KeyVec,
    /// Where the current value stands in the data of the block.
    pub value_range: (usize, usize),
    /// Which entry is the current one; `usize::MAX` after the last.
    pub idx: usize,
    /// The first key in the block.
    pub first_key: KeyVec,
}

impl BlockIterator {
    /// The entry `i` of the block is the one that was decoded last.
    pub open spec fn decoded(&self, i: int) -> bool {
        &&& 0 <= i < self.block.offsets@.len()
        &&& self.key@ == self.block.entries()[i].key
        &&& self.value_range.0 <= self.value_range.1 <= self.block.data@.len()
        &&& self.block.data@.subrange(self.value_range.0 as int, self.value_range.1 as int)
            == self.block.entries()[i].value
        &&& self.first_key@.key == block::first_user_key(self.block.data@, self.block.offsets@)
    }

    /// The iterator stands at an entry of a well-formed block, or past the last one.
    pub open spec fn inv(&self) -> bool {
        &&& self.block.wf()
        &&& self.idx != usize::MAX ==> self.decoded(self.idx as int)
    }

    /// The entries from the current one on.
    pub open spec fn remaining(&self) -> Seq<Entry> {
        if self.idx == usize::MAX {
            Seq::empty()
        } else {
            self.block.entries().skip(self.idx as int)
        }
    }

    fn new(block: Arc<Block>) -> (it: Self)
        ensures
            it.block == block,
    {
        BlockIterator {
            block,
            key: KeyVec::new(),
            value_range: (0, 0),
            idx: 0,
            first_key: KeyVec::new(),
        }
    }

    /// Creates a block iterator at the first entry.
    pub fn create_and_seek_to_first(block: Arc<Block>) -> (it: Self)
        requires
            block.wf(),
        ensures
            it.inv(),
            it.block == block,
            it.remaining() == block.entries(),
    {
        let mut it = Self::new(block);
        it.seek_to_first();
        it
    }

    /// Creates a block iterator at the first key that is `key` or comes after it.
    pub fn create_and_seek_to_key(block: Arc<Block>, key: KeySlice<'_>) -> (it: Self)
        requires
            block.wf(),
        ensures
            it.inv(),
            it.block == block,
            it.remaining() == block.entries().skip(key::lower_bound(block.entries(), key@) as int),
    {
        let mut it = Self::new(block);
        it.seek_to_key(key);
        it
    }

    /// The key of the current entry.
    pub fn key(&self) -> (k: KeySlice<'_>)
        requires
            self.inv(),
            self.remaining().len() > 0,
        ensures
            k@ == self.remaining()[0].key,
    {
        self.key.as_key_slice()
    }

    /// The value of the current entry.
    pub fn value(&self) -> (v: &[u8])
        requires
            self.inv(),
            self.remaining().len() > 0,
        ensures
            v@ == self.remaining()[0].value,
    {
        &self.block.data.as_slice()[self.value_range.0..self.value_range.1]
    }

    /// Whether there is a current entry.
    pub fn is_valid(&self) -> (r: bool)
        requires
            self.inv(),
        ensures
            r == (self.remaining().len() > 0),
    {
        proof {
            if self.idx != usize::MAX {
                let i = self.idx as int;
                assert(block::entry_fits(self.block.data@, self.block.offsets@[i] as int));
            }
        }
        !(self.key.is_empty() || self.idx == usize::MAX)
    }

    /// Goes to the first key in the block.
    pub fn seek_to_first(&mut self)
        requires
            old(self).block.wf(),
        ensures
            final(self).inv(),
            final(self).block == old(self).block,
            final(self).remaining() == old(self).block.entries(),
    {
        if self.block.offsets.len() == 0 {
            self.idx = usize::MAX;
            assert(self.remaining() =~= self.block.entries());
            return;
        }
        self.idx = 0;
        self.decode_entry_at(0);
        assert(self.remaining() =~= self.block.entries());
    }

    /// Moves to the next key in the block.
    pub fn next(&mut self)
        requires
            old(self).inv(),
            old(self).remaining().len() > 0,
        ensures
            final(self).inv(),
            final(self).block == old(self).block,
            final(self).remaining() == old(self).remaining().drop_first(),
    {
        if self.idx + 1 < self.block.offsets.len() {
            self.idx = self.idx + 1;
            self.decode_entry_at(self.idx);
        } else {
            self.idx = usize::MAX;
        }
        assert(self.remaining() =~= old(self).remaining().drop_first());
    }

    /// Goes to the first key that is `key` or comes after it.
    pub fn seek_to_key(&mut self, key: KeySlice<'_>)
        requires
            old(self).block.wf(),
        ensures
            final(self).inv(),
            final(self).block == old(self).block,
            final(self).remaining() == old(self).block.entries().skip(
                key::lower_bound(old(self).block.entries(), key@) as int,
            ),
    {
        let ghost entries = self.block.entries();
        let n: usize = self.block.offsets.len();
        let mut i: usize = 0;
        while i < n
            invariant
                i <= n,
                self.block == old(self).block,
                self.block.wf(),
                entries == self.block.entries(),
                n == self.block.offsets@.len(),
                i > 0 ==> self.decoded(i - 1),
                forall|j: int| 0 <= j < i ==> key::key_lt(#[trigger] entries[j].key, key@),
            decreases n - i,
        {
            self.decode_entry_at(i);
            if !self.key.as_key_slice().less(&key) {
                self.idx = i;
                proof {
                    key::lemma_lower_bound_unique(entries, key@, i as int);
                }
                return;
            }
            i = i + 1;
        }
        self.idx = usize::MAX;
        proof {
            key::lemma_lower_bound_unique(entries, key@, n as int);
            assert(entries.skip(n as int) =~= Seq::empty());
        }
    }

    /// Makes the entry `idx` the decoded one.
    fn decode_entry_at(&mut self, idx: usize)
        requires
            old(self).block.wf(),
            idx < old(self).block.offsets@.len(),
            idx > 0 ==> old(self).first_key@.key == block::first_user_key(
                old(self).block.data@,
                old(self).block.offsets@,
            ),
        ensures
            final(self).block == old(self).block,
            final(self).idx == old(self).idx,
            final(self).decoded(idx as int),
    {
        proof {
            codec::lemma_byte_capacities();
            assert(block::entry_fits(self.block.data@, self.block.offsets@[idx as int] as int));
            assert(self.block.entries()[idx as int] == block::block_entry(
                self.block.data@,
                self.block.offsets@,
                idx as int,
            ));
        }
        let start: usize = self.block.offsets[idx] as usize;
        let data: &[u8] = self.block.data.as_slice();
        let data_len: usize = data.len();
        let overlap_len: usize = read_u16_le(data, start) as usize;
        let rest_len: usize = read_u16_le(data, start + 2) as usize;
        let rest_end: usize = start + 4 + rest_len;
        let rest_key: &[u8] = &data[start + 4..rest_end];
        let ts: u64 = read_u64_le(data, rest_end);
        let value_len: usize = read_u16_le(data, rest_end + 8) as usize;
        let value_start: usize = rest_end + 10;
        if idx == 0 {
            self.key = KeyVec::from_vec_with_ts(copy_bytes(rest_key), ts);
            self.first_key = self.key.clone();
        } else {
            let mut full_key: Vec<u8> = copy_bytes(&self.first_key.key_ref()[0..overlap_len]);
            full_key.extend_from_slice(rest_key);
            assert(full_key@ =~= self.block.entries()[idx as int].key.key);
            self.key = KeyVec::from_vec_with_ts(full_key, ts);
        }
        self.value_range = (value_start, value_start + value_len);
    }
}

} // verus!
