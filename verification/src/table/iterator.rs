//! Iterating over tables.
use crate::block::{Block, BlockIterator};
use crate::error::LsmError;
use crate::iterators::StorageIterator;
use crate::key::{self, Entry, KeySlice, KeyView, StorageKey};
use crate::table::{self, SsTable};
use std::sync::Arc;
use vstd::prelude::*;

verus! {

/// An iterator over the contents of an SSTable.
#[derive(Debug)]
pub struct SsTableIterator {
    pub table: Arc<SsTable>,
    pub blk_iter: BlockIterator,
    pub blk_idx: usize,
}

/// What comes of going on with the next block where the block `idx` has no more entries.
proof fn lemma_next_block(t: &SsTable, idx: int)
    requires
        t.readable(),
        0 <= idx < t.block_meta@.len(),
    ensures
        t.entries_at(idx) == t.block(idx) + t.entries_at(idx + 1),
        t.block(idx).len() > 0,
{
    table::lemma_block_place(&*t, idx);
}

/// What a search for `k` leaves of a table, from the block on that may contain `k`.
#[verifier::spinoff_prover]
#[verifier::rlimit(40)]
proof fn lemma_seek_block(t: &SsTable, i: int, k: KeyView)
    requires
        t.wf(),
        0 <= i < t.block_meta@.len(),
        i > 0 ==> key::key_le(t.block_meta@[i].first_key@, k),
        forall|j: int|
            i < j < t.block_meta@.len() ==> key::key_lt(k, #[trigger] t.block_meta@[j].first_key@),
    ensures
        t.block(i).skip(key::lower_bound(t.block(i), k) as int) + t.entries_at(i + 1)
            == t.entries().skip(key::lower_bound(t.entries(), k) as int),
        t.block(i).skip(key::lower_bound(t.block(i), k) as int).len() == 0 ==> t.entries_at(i + 1)
            == t.entries().skip(key::lower_bound(t.entries(), k) as int),
{
    table::lemma_block_of_key(t, i, k);
    table::lemma_block_place(t, i);
    key::lemma_lower_bound(t.block(i), k);
    let left = t.block(i).skip(key::lower_bound(t.block(i), k) as int);
    assert(left + t.entries_at(i + 1) =~= t.entries().skip(
        key::lower_bound(t.entries(), k) as int,
    ));
    if left.len() == 0 {
        assert(left + t.entries_at(i + 1) =~= t.entries_at(i + 1));
    }
}

/// Behind the block that may contain `k`, nothing is left out by a search.
#[verifier::spinoff_prover]
#[verifier::rlimit(40)]
proof fn lemma_seek_next_block(t: &SsTable, i: int, k: KeyView)
    requires
        t.wf(),
        0 <= i,
        i + 1 < t.block_meta@.len(),
        i > 0 ==> key::key_le(t.block_meta@[i].first_key@, k),
        forall|j: int|
            i < j < t.block_meta@.len() ==> key::key_lt(k, #[trigger] t.block_meta@[j].first_key@),
    ensures
        t.block(i + 1).skip(key::lower_bound(t.block(i + 1), k) as int) == t.block(i + 1),
        t.block(i + 1).len() > 0,
        t.entries_at(i + 1) == t.block(i + 1) + t.entries_at(i + 2),
{
    broadcast use key::group_key_order;

    table::lemma_block_of_key(t, i, k);
    lemma_next_block(t, i + 1);
    let blk = t.block(i + 1);
    assert(t.entries_at(i + 1)[0] == blk[0]);
    key::lemma_lower_bound_unique(blk, k, 0);
    assert(blk.skip(0) =~= blk);
}

impl SsTableIterator {
    /// The iterator stands in one of the blocks of the table, or past the last one.
    pub open spec fn placed(&self) -> bool {
        &&& self.table.readable()
        &&& self.blk_iter.inv()
        &&& self.blk_idx <= self.table.block_meta@.len()
        &&& self.blk_idx < self.table.block_meta@.len() ==> self.blk_iter.block.entries()
            == self.table.block(self.blk_idx as int)
        &&& self.blk_idx == self.table.block_meta@.len() ==> self.blk_iter.remaining().len() == 0
    }

    /// An iterator over a table without blocks, which holds no entries.
    fn over_nothing(table: Arc<SsTable>) -> (it: Self)
        requires
            table.readable(),
            table.block_meta@.len() == 0,
        ensures
            it.inv(),
            it.table == table,
            it.remaining() == Seq::<Entry>::empty(),
    {
        let block = Block { data: Vec::new(), offsets: Vec::new() };
        assert(block.entries() =~= Seq::empty());
        let blk_iter: BlockIterator = BlockIterator::create_and_seek_to_first(Arc::new(block));
        let it = SsTableIterator { table, blk_iter, blk_idx: 0 };
        assert(it.remaining() =~= Seq::empty());
        it
    }

    /// Creates an iterator at the first key-value pair in the first data block.
    pub fn create_and_seek_to_first(table: Arc<SsTable>) -> (r: Result<Self, LsmError>)
        requires
            table.readable(),
        ensures
            r is Ok,
            r->Ok_0.inv(),
            r->Ok_0.table == table,
            r->Ok_0.remaining() == table.entries(),
    {
        if table.num_of_blocks() == 0 {
            return Ok(Self::over_nothing(table));
        }
        proof {
            lemma_next_block(&*table, 0);
        }
        let block: Arc<Block> = table.read_block_cached(0)?;
        let blk_iter: BlockIterator = BlockIterator::create_and_seek_to_first(block);
        Ok(SsTableIterator { table, blk_iter, blk_idx: 0 })
    }

    /// Goes to the first key-value pair in the first data block.
    pub fn seek_to_first(&mut self) -> (r: Result<(), LsmError>)
        requires
            old(self).inv(),
        ensures
            r is Ok,
            final(self).inv(),
            final(self).table == old(self).table,
            final(self).remaining() == old(self).table.entries(),
    {
        if self.table.num_of_blocks() == 0 {
            assert(self.remaining() =~= self.table.entries());
            return Ok(());
        }
        proof {
            lemma_next_block(&*self.table, 0);
        }
        self.blk_idx = 0;
        let block: Arc<Block> = self.table.read_block_cached(0)?;
        self.blk_iter = BlockIterator::create_and_seek_to_first(block);
        Ok(())
    }

    /// Creates an iterator at the first key-value pair whose key is `key` or comes after it.
    pub fn create_and_seek_to_key(table: Arc<SsTable>, key: KeySlice<'_>) -> (r: Result<
        Self,
        LsmError,
    >)
        requires
            table.wf(),
        ensures
            r is Ok,
            r->Ok_0.inv(),
            r->Ok_0.table == table,
            r->Ok_0.remaining()
                == table.entries().skip(key::lower_bound(table.entries(), key@) as int),
    {
        if table.num_of_blocks() == 0 {
            assert(table.entries().skip(0) =~= Seq::empty());
            return Ok(Self::over_nothing(table));
        }
        proof {
            table::lemma_metas_sorted(&*table);
        }
        let blk_idx: usize = table.find_block_idx(key);
        let block: Arc<Block> = table.read_block_cached(blk_idx)?;
        let blk_iter: BlockIterator = BlockIterator::create_and_seek_to_key(block, key);
        let mut it = SsTableIterator { table, blk_iter, blk_idx };
        it.settle(key)?;
        Ok(it)
    }

    /// Goes to the first key-value pair whose key is `key` or comes after it.
    pub fn seek_to_key(&mut self, key: KeySlice<'_>) -> (r: Result<(), LsmError>)
        requires
            old(self).inv(),
            old(self).table.wf(),
        ensures
            r is Ok,
            final(self).inv(),
            final(self).table == old(self).table,
            final(self).remaining() == old(self).table.entries().skip(
                key::lower_bound(old(self).table.entries(), key@) as int,
            ),
    {
        if self.table.num_of_blocks() == 0 {
            assert(self.table.entries().skip(0) =~= Seq::empty());
            assert(self.remaining() =~= Seq::empty());
            return Ok(());
        }
        proof {
            table::lemma_metas_sorted(&*self.table);
        }
        let blk_idx: usize = self.table.find_block_idx(key);
        if blk_idx != self.blk_idx {
            self.blk_idx = blk_idx;
            let block: Arc<Block> = self.table.read_block_cached(blk_idx)?;
            self.blk_iter = BlockIterator::create_and_seek_to_key(block, key);
        } else {
            self.blk_iter.seek_to_key(key);
        }
        self.settle(key)
    }

    /// After a search for `key` in the block that may contain it: goes on with the next block if
    /// the search has come to the end of that block.
    #[verifier::spinoff_prover]
    #[verifier::rlimit(60)]
    fn settle(&mut self, key: KeySlice<'_>) -> (r: Result<(), LsmError>)
        requires
            old(self).placed(),
            old(self).table.wf(),
            old(self).blk_idx < old(self).table.block_meta@.len(),
            old(self).blk_idx > 0 ==> key::key_le(
                old(self).table.block_meta@[old(self).blk_idx as int].first_key@,
                key@,
            ),
            forall|j: int|
                old(self).blk_idx < j < old(self).table.block_meta@.len() ==> key::key_lt(
                    key@,
                    #[trigger] old(self).table.block_meta@[j].first_key@,
                ),
            old(self).blk_iter.remaining() == old(self).blk_iter.block.entries().skip(
                key::lower_bound(old(self).blk_iter.block.entries(), key@) as int,
            ),
        ensures
            r is Ok,
            final(self).inv(),
            final(self).table == old(self).table,
            final(self).remaining() == old(self).table.entries().skip(
                key::lower_bound(old(self).table.entries(), key@) as int,
            ),
    {
        let ghost t = self.table;
        let ghost i = self.blk_idx as int;
        proof {
            lemma_seek_block(&*t, i, key@);
        }
        let n: usize = self.table.num_of_blocks();
        if self.blk_iter.is_valid() {
            return Ok(());
        }
        self.blk_idx = self.blk_idx + 1;
        if self.blk_idx < n {
            proof {
                lemma_seek_next_block(&*t, i, key@);
            }
            let block: Arc<Block> = self.table.read_block_cached(self.blk_idx)?;
            self.blk_iter = BlockIterator::create_and_seek_to_key(block, key);
        }
        assert(self.remaining() =~= t.entries_at(i + 1));
        Ok(())
    }
}

/// An iterator has entries left exactly if its block iterator has.
proof fn lemma_block_has_current(it: &SsTableIterator)
    requires
        it.inv(),
    ensures
        it.remaining().len() > 0 <==> it.blk_iter.remaining().len() > 0,
        it.remaining().len() > 0 ==> it.remaining()[0] == it.blk_iter.remaining()[0],
{
    if it.blk_iter.remaining().len() == 0 {
        assert(it.table.entries_at(it.blk_idx + 1).len() == 0);
    }
}

impl StorageIterator for SsTableIterator {
    type KeyType<'a> = KeySlice<'a>;

    open spec fn inv(&self) -> bool {
        &&& self.placed()
        &&& self.blk_iter.remaining().len() == 0 ==> self.blk_idx == self.table.block_meta@.len()
    }

    open spec fn remaining(&self) -> Seq<Entry> {
        self.blk_iter.remaining() + self.table.entries_at(self.blk_idx + 1)
    }

    open spec fn steady(&self) -> bool {
        true
    }

    open spec fn fused(&self) -> bool {
        false
    }

    open spec fn active(&self) -> usize {
        1
    }

    fn key<'a>(&'a self) -> (k: KeySlice<'a>) {
        proof {
            lemma_block_has_current(self);
        }
        let k: KeySlice<'a> = self.blk_iter.key();
        assert(k.key_view() == k@);
        k
    }

    fn value(&self) -> (v: &[u8]) {
        proof {
            lemma_block_has_current(self);
        }
        self.blk_iter.value()
    }

    fn is_valid(&self) -> (r: bool) {
        proof {
            lemma_block_has_current(self);
        }
        self.blk_iter.is_valid()
    }

    fn next(&mut self) -> (r: Result<(), LsmError>)
        ensures
            r is Ok,
            final(self).table == old(self).table,
    {
        proof {
            lemma_block_has_current(self);
        }
        let ghost before = *self;
        let n: usize = self.table.num_of_blocks();
        self.blk_iter.next();
        if self.blk_iter.is_valid() {
            assert(self.remaining() =~= before.remaining().drop_first());
            return Ok(());
        }
        self.blk_idx = self.blk_idx + 1;
        if self.blk_idx >= n {
            assert(self.remaining() =~= before.remaining().drop_first());
            return Ok(());
        }
        proof {
            lemma_next_block(&*self.table, self.blk_idx as int);
        }
        let block: Arc<Block> = self.table.read_block_cached(self.blk_idx)?;
        self.blk_iter = BlockIterator::create_and_seek_to_first(block);
        assert(self.remaining() =~= before.remaining().drop_first());
        Ok(())
    }

    fn num_active_iterators(&self) -> (n: usize) {
        1
    }
}

} // verus!
