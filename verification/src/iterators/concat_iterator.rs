//! Iterating over tables one after the other.
use crate::error::LsmError;
use crate::iterators::{self, StorageIterator};
use crate::key::{self, Entry, KeySlice, KeyView, StorageKey};
use crate::table::{SsTable, SsTableIterator};
use std::sync::Arc;
use vstd::prelude::*;

verus! {

/// Concat multiple iterators ordered in key order and their key ranges do not overlap. The
/// iterators are not created when initializing this iterator, to reduce the overhead of seeking.
#[derive(Debug)]
pub struct SstConcatIterator {
    pub current: Option<SsTableIterator>,
    /// The table that `current` iterates over.
    pub next_sst_idx: usize,
    pub sstables: Vec<Arc<SsTable>>,
}

/// The entries of the tables from the table `i` on.
pub open spec fn tables_from(ts: Seq<Arc<SsTable>>, i: int) -> Seq<Entry>
    decreases ts.len() - i,
{
    if i < 0 || i >= ts.len() {
        Seq::empty()
    } else {
        ts[i].entries() + tables_from(ts, i + 1)
    }
}

/// Every table can be read.
pub open spec fn all_readable(ts: Seq<Arc<SsTable>>) -> bool {
    forall|i: int| 0 <= i < ts.len() ==> (#[trigger] ts[i]).readable()
}

/// Every table holds an entry.
pub open spec fn all_filled(ts: Seq<Arc<SsTable>>) -> bool {
    forall|i: int| 0 <= i < ts.len() ==> (#[trigger] ts[i]).entries().len() > 0
}

/// The tables are well-formed, and the keys of each come before those of the next. A table without
/// entries forms a run by itself only.
pub open spec fn run_wf(ts: Seq<Arc<SsTable>>) -> bool {
    &&& forall|i: int| 0 <= i < ts.len() ==> (#[trigger] ts[i]).wf()
    &&& key::sorted(tables_from(ts, 0))
    &&& ts.len() > 1 ==> all_filled(ts)
}

/// The entries of the tables before the table `i`.
pub open spec fn tables_upto(ts: Seq<Arc<SsTable>>, i: int) -> Seq<Entry>
    decreases i,
{
    if i <= 0 || i > ts.len() {
        Seq::empty()
    } else {
        tables_upto(ts, i - 1) + ts[i - 1].entries()
    }
}

/// The tables before `i` and those from `i` on make up the whole.
pub proof fn lemma_tables_split(ts: Seq<Arc<SsTable>>, i: int)
    requires
        0 <= i <= ts.len(),
    ensures
        tables_from(ts, 0) == tables_upto(ts, i) + tables_from(ts, i),
    decreases i,
{
    if i > 0 {
        lemma_tables_split(ts, i - 1);
        assert(tables_upto(ts, i) + tables_from(ts, i) =~= tables_upto(ts, i - 1) + tables_from(
            ts,
            i - 1,
        ));
    } else {
        assert(tables_upto(ts, 0) + tables_from(ts, 0) =~= tables_from(ts, 0));
    }
}

/// All entries come before `k`.
spec fn all_before(es: Seq<Entry>, k: KeyView) -> bool {
    forall|j: int| 0 <= j < es.len() ==> key::key_lt(#[trigger] es[j].key, k)
}

/// Where the first entry at or after `k` stands, if all entries of the tables before `i` come
/// before `k` and not all of the table `i` do.
#[verifier::spinoff_prover]
#[verifier::rlimit(40)]
proof fn lemma_seek_in_run(ts: Seq<Arc<SsTable>>, i: int, k: KeyView)
    requires
        run_wf(ts),
        0 <= i < ts.len(),
        all_before(tables_upto(ts, i), k),
        key::lower_bound(ts[i].entries(), k) < ts[i].entries().len(),
    ensures
        tables_from(ts, 0).skip(key::lower_bound(tables_from(ts, 0), k) as int)
            == ts[i].entries().skip(
            key::lower_bound(ts[i].entries(), k) as int,
        ) + tables_from(ts, i + 1),
{
    let all = tables_from(ts, 0);
    let before = tables_upto(ts, i);
    let es = ts[i].entries();
    let rest = tables_from(ts, i + 1);
    let b = before.len() as int;
    lemma_tables_split(ts, i);
    assert(all =~= before + es + rest);
    key::lemma_lower_bound(es, k);
    let q = key::lower_bound(es, k) as int;
    assert(all[b + q] == es[q]);
    assert forall|j: int| 0 <= j < b + q implies key::key_lt(#[trigger] all[j].key, k) by {
        if j >= b {
            assert(all[j] == es[j - b]);
        } else {
            assert(all[j] == before[j]);
        }
    }
    key::lemma_lower_bound_unique(all, k, b + q);
    assert(all.skip(b + q) =~= es.skip(q) + rest);
}

/// Where no entry of the table `i` comes at or after `k`, the search goes on behind it.
proof fn lemma_all_before_next(ts: Seq<Arc<SsTable>>, i: int, k: KeyView)
    requires
        0 <= i < ts.len(),
        all_before(tables_upto(ts, i), k),
        all_before(ts[i].entries(), k),
    ensures
        all_before(tables_upto(ts, i + 1), k),
{
    let before = tables_upto(ts, i);
    let es = ts[i].entries();
    let next = tables_upto(ts, i + 1);
    assert(next == before + es);
    assert forall|j: int| 0 <= j < next.len() implies key::key_lt(#[trigger] next[j].key, k) by {
        if j < before.len() {
            assert(next[j] == before[j]);
        } else {
            assert(next[j] == es[j - before.len()]);
        }
    }
}

/// The entries of a table whose last key comes before `k` come before `k`.
proof fn lemma_table_before(t: &SsTable, k: KeyView)
    requires
        t.wf(),
        key::key_lt(t.last_key@, k),
    ensures
        all_before(t.entries(), k),
{
    broadcast use key::group_key_order;

    let es = t.entries();
    assert forall|j: int| 0 <= j < es.len() implies key::key_lt(#[trigger] es[j].key, k) by {
        assert(j == es.len() - 1 || key::key_lt(es[j].key, es[es.len() - 1].key));
    }
}

impl SstConcatIterator {
    /// Creates an iterator at the first entry of the first table.
    pub fn create_and_seek_to_first(sstables: Vec<Arc<SsTable>>) -> (r: Result<Self, LsmError>)
        requires
            all_readable(sstables@),
        ensures
            r is Ok,
            r->Ok_0.inv(),
            r->Ok_0.sstables@ == sstables@,
            r->Ok_0.remaining() == tables_from(sstables@, 0),
    {
        let mut iter = SstConcatIterator { current: None, next_sst_idx: 0, sstables };
        if iter.sstables.len() == 0 {
            return Ok(iter);
        }
        iter.seek_to_first()?;
        Ok(iter)
    }

    /// Creates an iterator at the first entry whose key is `key` or comes after it.
    pub fn create_and_seek_to_key(sstables: Vec<Arc<SsTable>>, key: KeySlice<'_>) -> (r: Result<
        Self,
        LsmError,
    >)
        requires
            run_wf(sstables@),
        ensures
            r is Ok,
            r->Ok_0.inv(),
            r->Ok_0.sstables@ == sstables@,
            r->Ok_0.remaining() == tables_from(sstables@, 0).skip(
                key::lower_bound(tables_from(sstables@, 0), key@) as int,
            ),
    {
        let mut iter = SstConcatIterator { current: None, next_sst_idx: 0, sstables };
        if iter.sstables.len() == 0 {
            assert(tables_from(sstables@, 0).skip(0) =~= Seq::empty());
            return Ok(iter);
        }
        iter.seek_to_key(key)?;
        Ok(iter)
    }

    fn seek_to_first(&mut self) -> (r: Result<(), LsmError>)
        requires
            all_readable(old(self).sstables@),
        ensures
            r is Ok,
            final(self).inv(),
            final(self).sstables == old(self).sstables,
            final(self).remaining() == tables_from(old(self).sstables@, 0),
    {
        self.enter_table(0)
    }

    /// Goes to the first entry of the tables from the table `idx` on.
    fn enter_table(&mut self, idx: usize) -> (r: Result<(), LsmError>)
        requires
            all_readable(old(self).sstables@),
            idx <= old(self).sstables@.len(),
        ensures
            r is Ok,
            final(self).inv(),
            final(self).sstables == old(self).sstables,
            final(self).remaining() == tables_from(old(self).sstables@, idx as int),
    {
        let ghost ts = self.sstables@;
        let n: usize = self.sstables.len();
        let mut i: usize = idx;
        while i < n
            invariant
                idx <= i <= n,
                n == ts.len(),
                self.sstables == old(self).sstables,
                self.sstables@ == ts,
                all_readable(ts),
                tables_from(ts, i as int) == tables_from(ts, idx as int),
            decreases n - i,
        {
            let table: Arc<SsTable> = self.sstables[i].clone();
            assert(ts[i as int].readable());
            let iter: SsTableIterator = SsTableIterator::create_and_seek_to_first(table)?;
            if iter.is_valid() {
                self.current = Some(iter);
                self.next_sst_idx = i;
                return Ok(());
            }
            assert(ts[i as int].entries() + tables_from(ts, i + 1) =~= tables_from(ts, i + 1));
            i = i + 1;
        }
        self.current = None;
        self.next_sst_idx = n;
        Ok(())
    }

    fn seek_to_key(&mut self, key: KeySlice<'_>) -> (r: Result<(), LsmError>)
        requires
            run_wf(old(self).sstables@),
            old(self).sstables@.len() > 0,
        ensures
            r is Ok,
            final(self).inv(),
            final(self).sstables == old(self).sstables,
            final(self).remaining() == tables_from(old(self).sstables@, 0).skip(
                key::lower_bound(tables_from(old(self).sstables@, 0), key@) as int,
            ),
    {
        let ghost ts = self.sstables@;
        let n: usize = self.sstables.len();
        let mut idx: usize = 0;
        while idx < n
            invariant
                idx <= n,
                n == ts.len(),
                self.sstables == old(self).sstables,
                self.sstables@ == ts,
                run_wf(ts),
                all_before(tables_upto(ts, idx as int), key@),
            decreases n - idx,
        {
            let sst: Arc<SsTable> = self.sstables[idx].clone();
            assert(ts[idx as int].wf());
            if sst.last_key().as_key_slice().less(&key) {
                proof {
                    lemma_table_before(&*sst, key@);
                }
            } else {
                let iter: SsTableIterator = SsTableIterator::create_and_seek_to_key(sst, key)?;
                proof {
                    key::lemma_lower_bound(sst.entries(), key@);
                }
                if iter.is_valid() {
                    proof {
                        lemma_seek_in_run(ts, idx as int, key@);
                    }
                    self.current = Some(iter);
                    self.next_sst_idx = idx;
                    return Ok(());
                }
            }
            proof {
                lemma_all_before_next(ts, idx as int, key@);
            }
            idx = idx + 1;
        }
        self.current = None;
        self.next_sst_idx = n;
        proof {
            lemma_tables_split(ts, n as int);
            let all = tables_from(ts, 0);
            assert(all =~= tables_upto(ts, n as int));
            key::lemma_lower_bound_unique(all, key@, all.len() as int);
            assert(all.skip(all.len() as int) =~= Seq::empty());
        }
        Ok(())
    }

    fn advance_to_next_sst(&mut self) -> (r: Result<(), LsmError>)
        requires
            all_readable(old(self).sstables@),
            old(self).next_sst_idx < old(self).sstables@.len(),
        ensures
            r is Ok,
            final(self).inv(),
            final(self).sstables == old(self).sstables,
            final(self).remaining() == tables_from(
                old(self).sstables@,
                old(self).next_sst_idx + 1,
            ),
    {
        let n: usize = self.sstables.len();
        assert(self.next_sst_idx < n);
        self.enter_table(self.next_sst_idx + 1)
    }
}

impl StorageIterator for SstConcatIterator {
    type KeyType<'a> = KeySlice<'a>;

    open spec fn inv(&self) -> bool {
        &&& all_readable(self.sstables@)
        &&& self.current matches Some(it) ==> {
            &&& it.inv()
            &&& it.remaining().len() > 0
            &&& self.next_sst_idx < self.sstables@.len()
        }
    }

    open spec fn remaining(&self) -> Seq<Entry> {
        match self.current {
            Some(it) => it.remaining() + tables_from(self.sstables@, self.next_sst_idx + 1),
            None => Seq::empty(),
        }
    }

    open spec fn steady(&self) -> bool {
        true
    }

    open spec fn fused(&self) -> bool {
        true
    }

    open spec fn active(&self) -> usize {
        1
    }

    fn key<'a>(&'a self) -> (k: KeySlice<'a>) {
        self.current.as_ref().unwrap().key()
    }

    fn value(&self) -> (v: &[u8]) {
        self.current.as_ref().unwrap().value()
    }

    fn is_valid(&self) -> (r: bool) {
        match &self.current {
            Some(iter) => iter.is_valid(),
            None => false,
        }
    }

    fn next(&mut self) -> (r: Result<(), LsmError>)
        ensures
            r is Ok,
            final(self).sstables == old(self).sstables,
    {
        let ghost before = *self;
        let mut current: Option<SsTableIterator> = None;
        std::mem::swap(&mut current, &mut self.current);
        if let Some(it) = current {
            let mut iter = it;
            iter.next()?;
            if iter.is_valid() {
                self.current = Some(iter);
            } else {
                self.advance_to_next_sst()?;
            }
        }
        assert(self.remaining() =~= iterators::past_first(before.remaining()));
        Ok(())
    }

    fn num_active_iterators(&self) -> (n: usize) {
        1
    }
}

} // verus!
