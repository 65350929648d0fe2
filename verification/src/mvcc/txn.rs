//! Transactions.
use crate::bound::{self, Bound};
use crate::error::LsmError;
use crate::iterators::{self, StorageIterator};
use crate::iterators::two_merge_iterator::TwoMergeIterator;
use crate::key::{self, Entry, KeySlice, KeyVec, KeyView, StorageKey, TS_DEFAULT, copy_bytes};
use crate::lsm_iterator::{self, FusedIterator, LsmIterator};
use crate::lsm_storage::{self, LsmStorageInner, WriteBatchRecord, live_value};
use crate::lsm_storage::laws;
use crate::lsm_storage::writes;
use crate::versions::{
    self, VersionMap, all_versions, get_version, map_new, put_version, versions_in,
};
use vstd::prelude::*;

verus! {

/// A transaction: it reads what was there at `read_ts`, and keeps its writes to itself until it
/// commits.
pub struct Transaction {
    pub read_ts: u64,
    pub local_storage: VersionMap,
    pub committed: bool,
}

/// What an iterator over local writes yields of `s`: an empty user key marks its end.
pub open spec fn local_view(s: Seq<Entry>) -> Seq<Entry> {
    if s.len() > 0 && s[0].key.key.len() > 0 {
        s
    } else {
        Seq::empty()
    }
}

/// The entries whose values are not empty.
pub open spec fn nonempty(s: Seq<Entry>) -> Seq<Entry>
    decreases s.len(),
{
    if s.len() == 0 {
        s
    } else if s[0].value.len() == 0 {
        nonempty(s.drop_first())
    } else {
        seq![s[0]] + nonempty(s.drop_first())
    }
}

impl Transaction {
    /// Finitely many writes to plain user keys.
    pub open spec fn wf(&self) -> bool {
        &&& versions::contents(self.local_storage).dom().finite()
        &&& key::plain_keys(self.local())
    }

    /// The writes of the transaction, sorted.
    pub open spec fn local(&self) -> Seq<Entry> {
        versions::listing(versions::contents(self.local_storage))
    }

    /// A transaction that has not written yet.
    pub fn new(read_ts: u64) -> (t: Self)
        ensures
            t.wf(),
            t.read_ts == read_ts,
            t.local() == Seq::<Entry>::empty(),
            !t.committed,
    {
        let t = Transaction { read_ts, local_storage: map_new(), committed: false };
        proof {
            crate::mem_table::lemma_empty_listing(versions::contents(t.local_storage));
        }
        t
    }

    /// What the transaction sees of a key: its own write, or else what the engine held at
    /// `read_ts`.
    pub open spec fn sees(&self, inner: LsmStorageInner, key: Seq<u8>) -> Option<Seq<u8>> {
        match key::lookup(self.local(), key::user_key(key)) {
            Some(v) => lsm_iterator::live(Some(v)),
            None => lsm_iterator::live(lsm_iterator::snapshot(inner.contents(), key, self.read_ts)),
        }
    }

    /// Gets a key.
    pub fn get(&self, inner: &LsmStorageInner, key: &[u8]) -> (r: Result<Option<Vec<u8>>, LsmError>)
        requires
            self.wf(),
            inner.state.wf(),
        ensures
            r is Err <==> self.committed,
            r is Err ==> r->Err_0 == LsmError::AlreadyCommitted,
            r is Ok ==> lsm_storage::value_view(r->Ok_0) == self.sees(*inner, key@),
    {
        if self.committed {
            return Err(LsmError::AlreadyCommitted);
        }
        proof {
            versions::lemma_listing(versions::contents(self.local_storage));
            assert(key::lookup(self.local(), key::user_key(key@)) == versions::version(
                versions::contents(self.local_storage),
                key::user_key(key@),
            ));
        }
        match get_version(&self.local_storage, KeySlice::from_slice(key)) {
            Some(v) => Ok(live_value(v)),
            None => inner.get_with_ts(key, self.read_ts),
        }
    }

    /// What becomes of a transaction when `e` is written.
    pub open spec fn wrote(&self, before: Transaction, e: Entry) -> bool {
        &&& self.wf()
        &&& self.read_ts == before.read_ts
        &&& self.committed == before.committed
        &&& self.local() == iterators::merge2(seq![e], before.local())
    }

    /// Gives a key a value.
    pub fn put(&mut self, key: &[u8], value: &[u8]) -> (r: Result<(), LsmError>)
        requires
            old(self).wf(),
        ensures
            r is Err <==> old(self).committed,
            r is Err ==> r->Err_0 == LsmError::AlreadyCommitted && *final(self) == *old(self),
            r is Ok ==> final(self).wrote(
                *old(self),
                Entry { key: key::user_key(key@), value: value@ },
            ),
    {
        if self.committed {
            return Err(LsmError::AlreadyCommitted);
        }
        let ghost e = Entry { key: key::user_key(key@), value: value@ };
        let ghost c = versions::contents(self.local_storage);
        put_version(&mut self.local_storage, KeySlice::from_slice(key), value);
        proof {
            crate::mem_table::lemma_listing_put(c, e);
            let one = seq![e];
            assert(key::plain_keys(one));
            iterators::lemma_merge2_plain(one, old(self).local());
        }
        Ok(())
    }

    /// Deletes a key.
    pub fn delete(&mut self, key: &[u8]) -> (r: Result<(), LsmError>)
        requires
            old(self).wf(),
        ensures
            r is Err <==> old(self).committed,
            r is Err ==> r->Err_0 == LsmError::AlreadyCommitted && *final(self) == *old(self),
            r is Ok ==> final(self).wrote(
                *old(self),
                Entry { key: key::user_key(key@), value: Seq::empty() },
            ),
    {
        let empty: Vec<u8> = Vec::new();
        assert(empty@ =~= Seq::empty());
        self.put(key, empty.as_slice())
    }

    /// Iterates over a range of keys as the transaction sees them.
    pub fn scan(&self, inner: &LsmStorageInner, lower: Bound<&[u8]>, upper: Bound<&[u8]>) -> (r:
        Result<TxnIterator, LsmError>)
        requires
            self.wf(),
            inner.state.wf(),
        ensures
            r is Err <==> self.committed,
            r is Err ==> r->Err_0 == LsmError::AlreadyCommitted,
            r matches Ok(it) ==> {
                &&& it.inv()
                &&& it.steady()
                &&& it.remaining() == nonempty(
                    iterators::merge2(
                        local_view(bound::clip(self.local(), lower@, upper@)),
                        lsm_iterator::visible(
                            bound::clip(inner.contents(), lower@, upper@),
                            Bound::Unbounded,
                            self.read_ts,
                            None,
                        ),
                    ),
                )
            },
    {
        if self.committed {
            return Err(LsmError::AlreadyCommitted);
        }
        let local_iter: TxnLocalIterator = TxnLocalIterator::create(self, &lower, &upper);
        let lsm_iter: FusedIterator<LsmIterator> = inner.scan_with_ts(lower, upper, self.read_ts)?;
        let merge_iter: TwoMergeIterator<
            TxnLocalIterator,
            FusedIterator<LsmIterator>,
        > = TwoMergeIterator::create(local_iter, lsm_iter)?;
        TxnIterator::create(merge_iter)
    }

    /// The writes of the transaction as a batch: a write of an empty value is a deletion.
    pub fn batch(&self) -> (batch: Vec<WriteBatchRecord<Vec<u8>>>)
        requires
            self.wf(),
        ensures
            writes::batch_entries(batch@) == self.local(),
            forall|i: int|
                0 <= i < batch@.len() ==> (#[trigger] batch@[i] is Del
                    <==> self.local()[i].value.len() == 0),
    {
        let pairs: Vec<(KeyVec, Vec<u8>)> = all_versions(&self.local_storage);
        let ghost es = self.local();
        let mut batch: Vec<WriteBatchRecord<Vec<u8>>> = Vec::new();
        let mut i: usize = 0;
        while i < pairs.len()
            invariant
                i <= pairs@.len(),
                es == versions::pairs_view(pairs@),
                key::plain_keys(es),
                batch@.len() == i,
                forall|j: int| 0 <= j < i ==> writes::record_entry(#[trigger] batch@[j]) == es[j],
                forall|j: int|
                    0 <= j < i ==> (#[trigger] batch@[j] is Del <==> es[j].value.len() == 0),
            decreases pairs@.len() - i,
        {
            let pair: &(KeyVec, Vec<u8>) = &pairs[i];
            let key: Vec<u8> = copy_bytes(pair.0.key_ref());
            assert(es[i as int].key =~= key::user_key(key@));
            if pair.1.len() == 0 {
                assert(es[i as int].value =~= Seq::empty());
                batch.push(WriteBatchRecord::Del(key));
            } else {
                batch.push(WriteBatchRecord::Put(key, copy_bytes(pair.1.as_slice())));
            }
            i = i + 1;
        }
        assert(writes::batch_entries(batch@) =~= es);
        batch
    }

    /// Writes all that the transaction wrote to the engine.
    pub fn commit(&mut self, inner: &mut LsmStorageInner)
        requires
            old(self).wf(),
            old(inner).state.memtable.wf(),
        ensures
            exists|steps: Seq<LsmStorageInner>| #[trigger]
                writes::put_steps(steps, old(self).local()) && steps[0] == *old(inner)
                    && steps.last()
                    == *final(inner),
            final(inner).state.memtable.wf(),
            final(self).committed,
            final(self).read_ts == old(self).read_ts,
            final(self).local_storage == old(self).local_storage,
    {
        let batch: Vec<WriteBatchRecord<Vec<u8>>> = self.batch();
        inner.write_batch(batch.as_slice());
        self.committed = true;
    }
}

/// Iterates over the writes of a transaction.
#[derive(Debug)]
pub struct TxnLocalIterator {
    /// The writes in the range that is iterated over.
    pub items: Vec<(KeyVec, Vec<u8>)>,
    /// Which of them is the current one.
    pub pos: usize,
}

impl TxnLocalIterator {
    /// Iterates over the writes in a range.
    pub fn create(txn: &Transaction, lower: &Bound<&[u8]>, upper: &Bound<&[u8]>) -> (it: Self)
        requires
            txn.wf(),
        ensures
            it.inv(),
            it.remaining() == local_view(bound::clip(txn.local(), lower@, upper@)),
    {
        let items: Vec<(KeyVec, Vec<u8>)> = versions_in(&txn.local_storage, lower, upper);
        proof {
            bound::lemma_clip_plain(txn.local(), lower@, upper@);
        }
        let it = TxnLocalIterator { items, pos: 0 };
        assert(versions::pairs_view(it.items@).skip(0) =~= versions::pairs_view(it.items@));
        it
    }
}

impl StorageIterator for TxnLocalIterator {
    type KeyType<'a> = &'a [u8];

    open spec fn inv(&self) -> bool {
        &&& self.pos <= self.items@.len()
        &&& key::sorted(versions::pairs_view(self.items@))
        &&& key::plain_keys(versions::pairs_view(self.items@))
    }

    open spec fn remaining(&self) -> Seq<Entry> {
        local_view(versions::pairs_view(self.items@).skip(self.pos as int))
    }

    open spec fn steady(&self) -> bool {
        true
    }

    open spec fn fused(&self) -> bool {
        false
    }

    open spec fn active(&self) -> usize {
        1
    }

    fn key<'a>(&'a self) -> (k: &'a [u8]) {
        let k: &'a [u8] = self.items[self.pos].0.key_ref();
        assert(versions::pairs_view(self.items@)[self.pos as int].key.ts == TS_DEFAULT);
        assert(self.remaining()[0].key =~= key::user_key(k@));
        assert(k.key_view() == key::user_key(k@));
        k
    }

    fn value(&self) -> (v: &[u8]) {
        self.items[self.pos].1.as_slice()
    }

    fn is_valid(&self) -> (r: bool) {
        self.pos < self.items.len() && !self.items[self.pos].0.is_empty()
    }

    fn next(&mut self) -> (r: Result<(), LsmError>)
        ensures
            r is Ok,
            final(self).items == old(self).items,
    {
        let ghost s = versions::pairs_view(self.items@);
        let ghost p = self.pos as int;
        let n: usize = self.items.len();
        assert(p < n);
        self.pos = self.pos + 1;
        proof {
            if p + 1 < s.len() {
                assert(key::key_lt(s[p].key, s[p + 1].key));
                assert(s[p].key.ts == TS_DEFAULT);
                assert(s[p + 1].key.ts == TS_DEFAULT);
                assert(key::bytes_lt(s[p].key.key, s[p + 1].key.key));
            }
            assert(s.skip(p).drop_first() =~= s.skip(p + 1));
            assert(self.remaining() =~= iterators::past_first(old(self).remaining()));
        }
        Ok(())
    }

    fn num_active_iterators(&self) -> (n: usize) {
        1
    }
}

/// Iterates over what a transaction sees; keys that were deleted are passed over.
#[derive(Debug)]
pub struct TxnIterator {
    pub iter: TwoMergeIterator<TxnLocalIterator, FusedIterator<LsmIterator>>,
}

impl TxnIterator {
    /// Starts at the first entry that is not a deletion.
    pub fn create(iter: TwoMergeIterator<TxnLocalIterator, FusedIterator<LsmIterator>>) -> (r: Result<
        Self,
        LsmError,
    >)
        requires
            iter.inv(),
        ensures
            iter.steady() ==> r is Ok && r->Ok_0.steady(),
            r matches Ok(it) ==> it.inv() && it.remaining() == nonempty(iter.remaining()),
    {
        let mut it = TxnIterator { iter };
        it.skip_deletions()?;
        Ok(it)
    }

    /// Goes from the current entry on to the first one that is not a deletion.
    fn skip_deletions(&mut self) -> (r: Result<(), LsmError>)
        requires
            old(self).iter.inv(),
        ensures
            old(self).iter.steady() ==> r is Ok && final(self).iter.steady(),
            r is Ok ==> final(self).inv() && final(self).remaining() == nonempty(
                old(self).iter.remaining(),
            ),
    {
        loop
            invariant
                self.iter.inv(),
                old(self).iter.steady() ==> self.iter.steady(),
                nonempty(self.iter.remaining()) == nonempty(old(self).iter.remaining()),
            decreases self.iter.remaining().len(),
        {
            if !self.iter.is_valid() {
                return Ok(());
            }
            if self.iter.value().len() == 0 {
                self.iter.next()?;
                continue;
            }
            return Ok(());
        }
    }
}

impl StorageIterator for TxnIterator {
    type KeyType<'a> = &'a [u8];

    open spec fn inv(&self) -> bool {
        &&& self.iter.inv()
        &&& self.iter.remaining().len() > 0 ==> self.iter.remaining()[0].value.len() > 0
    }

    open spec fn remaining(&self) -> Seq<Entry> {
        nonempty(self.iter.remaining())
    }

    open spec fn steady(&self) -> bool {
        self.iter.steady()
    }

    open spec fn fused(&self) -> bool {
        false
    }

    open spec fn active(&self) -> usize {
        self.iter.active()
    }

    fn key<'a>(&'a self) -> (k: &'a [u8]) {
        self.iter.key()
    }

    fn value(&self) -> (v: &[u8]) {
        self.iter.value()
    }

    fn is_valid(&self) -> (r: bool) {
        self.iter.is_valid() && self.iter.value().len() > 0
    }

    fn next(&mut self) -> (r: Result<(), LsmError>) {
        let ghost before = *self;
        self.iter.next()?;
        self.skip_deletions()?;
        assert(self.remaining() =~= before.remaining().drop_first());
        Ok(())
    }

    fn num_active_iterators(&self) -> (n: usize) {
        self.iter.num_active_iterators()
    }
}

/// A transaction reads its own writes; other keys look as they did before.
pub proof fn law_reads_own_writes(
    before: Transaction,
    after: Transaction,
    inner: LsmStorageInner,
    key: Seq<u8>,
    value: Seq<u8>,
    k: Seq<u8>,
)
    requires
        before.wf(),
        after.wrote(before, Entry { key: key::user_key(key), value }),
    ensures
        after.sees(inner, k) == if k == key {
            lsm_iterator::live(Some(value))
        } else {
            before.sees(inner, k)
        },
{
    let e = Entry { key: key::user_key(key), value };
    let one = seq![e];
    assert(key::sorted(one));
    versions::lemma_listing(versions::contents(before.local_storage));
    iterators::law_merge2(one, before.local(), key::user_key(k));
    key::lemma_lookup(one, key::user_key(k));
    assert(one[0].key == key::user_key(key));
    if key::user_key(k) == key::user_key(key) {
        assert(key::user_key(k).key == key::user_key(key).key);
    }
}

/// Leaving deletions out of a sorted sequence leaves the other keys as they are.
pub proof fn lemma_nonempty(s: Seq<Entry>, k: KeyView)
    requires
        key::sorted(s),
    ensures
        key::sorted(nonempty(s)),
        key::lookup(nonempty(s), k) == lsm_iterator::live(key::lookup(s, k)),
        forall|b: KeyView| key::all_after(s, b) ==> #[trigger] key::all_after(nonempty(s), b),
    decreases s.len(),
{
    if s.len() > 0 {
        let t = s.drop_first();
        key::lemma_sorted_drop_first(s);
        lemma_nonempty(t, k);
        let c = nonempty(t);
        assert(key::all_after(c, s[0].key));
        assert forall|b: KeyView| key::all_after(s, b)
            implies #[trigger] key::all_after(nonempty(s), b) by {
            assert(key::key_lt(b, s[0].key));
            assert(key::all_after(t, b)) by {
                assert forall|i: int| 0 <= i < t.len()
                    implies key::key_lt(b, #[trigger] t[i].key) by {
                    assert(t[i] == s[i + 1]);
                }
            }
            assert(key::all_after(c, b));
            key::lemma_all_after_cons(s[0], c, b);
        }
        key::lemma_sorted_cons(s[0], c);
        assert((seq![s[0]] + c).drop_first() =~= c);
        if k == s[0].key {
            key::lemma_lookup_before(c, k);
        }
    }
}

/// A transaction that has not written the empty key scans what it gets: the keys in the range in
/// order, each with the value that it sees, and no deleted key.
pub proof fn law_scan_shows_what_is_seen(
    txn: Transaction,
    inner: LsmStorageInner,
    lower: Bound<Seq<u8>>,
    upper: Bound<Seq<u8>>,
    k: Seq<u8>,
)
    requires
        txn.wf(),
        inner.state.wf(),
        key::lookup(txn.local(), key::user_key(Seq::empty())) is None,
    ensures
        ({
            let shown = nonempty(
                iterators::merge2(
                    local_view(bound::clip(txn.local(), lower, upper)),
                    lsm_iterator::visible(
                        bound::clip(inner.contents(), lower, upper),
                        Bound::Unbounded,
                        txn.read_ts,
                        None,
                    ),
                ),
            );
            &&& key::sorted(shown)
            &&& key::lookup(shown, key::user_key(k)) == if bound::in_range(k, lower, upper) {
                txn.sees(inner, k)
            } else {
                None
            }
        }),
{
    let local = txn.local();
    let c = bound::clip(local, lower, upper);
    let below = lsm_iterator::visible(
        bound::clip(inner.contents(), lower, upper),
        Bound::Unbounded,
        txn.read_ts,
        None,
    );
    versions::lemma_listing(versions::contents(txn.local_storage));
    bound::lemma_clip(local, lower, upper);
    bound::lemma_clip_plain(local, lower, upper);
    assert(local_view(c) =~= c) by {
        if c.len() > 0 && c[0].key.key.len() == 0 {
            assert(c[0].key.ts == TS_DEFAULT);
            assert(c[0].key.key =~= Seq::empty());
            assert(c[0].key =~= key::user_key(Seq::empty()));
            key::lemma_lookup(c, c[0].key);
            assert(key::lookup(c, c[0].key) is None);
        }
    }
    laws::law_scan_shows(inner, lower, upper, txn.read_ts, k);
    iterators::law_merge2(c, below, key::user_key(k));
    lemma_nonempty(iterators::merge2(c, below), key::user_key(k));
    assert(key::lookup(c, key::user_key(k)) == if bound::in_range(k, lower, upper) {
        key::lookup(local, key::user_key(k))
    } else {
        None
    });
}

/// In a sorted sequence of writes, the last write to a key is the only one.
proof fn lemma_last_write_sorted(es: Seq<Entry>, k: KeyView)
    requires
        key::sorted(es),
    ensures
        writes::last_write(es, k) == key::lookup(es, k),
    decreases es.len(),
{
    if es.len() > 0 {
        let front = es.drop_last();
        assert(key::sorted(front));
        lemma_last_write_sorted(front, k);
        key::lemma_lookup(es, k);
        key::lemma_lookup(front, k);
        let n = es.len() - 1;
        if es[n].key == k {
            assert(key::lookup(es, k) == Some(es[n].value));
        } else if key::lookup(front, k) is None {
            assert forall|i: int| 0 <= i < es.len() implies #[trigger] es[i].key != k by {
                if i < n {
                    assert(es[i] == front[i]);
                }
            }
        } else {
            let i = choose|i: int| 0 <= i < front.len() && #[trigger] front[i].key == k;
            assert(es[i] == front[i]);
        }
    }
}

/// Once a transaction has committed, the engine holds what it wrote, and other keys keep their
/// values.
pub proof fn law_commit_then_find(txn: Transaction, steps: Seq<LsmStorageInner>)
    requires
        txn.wf(),
        writes::put_steps(steps, txn.local()),
        steps[0].state.wf(),
    ensures
        steps.last().state.wf(),
        forall|k: KeyView| #[trigger]
            steps.last().find(k) == match key::lookup(txn.local(), k) {
                Some(v) => Some(v),
                None => steps[0].find(k),
            },
{
    versions::lemma_listing(versions::contents(txn.local_storage));
    laws::law_batch_then_find(steps, txn.local());
    assert forall|k: KeyView| #[trigger]
        steps.last().find(k) == match key::lookup(txn.local(), k) {
            Some(v) => Some(v),
            None => steps[0].find(k),
        } by {
        lemma_last_write_sorted(txn.local(), k);
    }
}

/// A key that a transaction has not written looks to it as the engine held it at the timestamp of
/// the transaction: the newest version up to it, and nothing if that is a deletion.
pub proof fn law_sees_snapshot(txn: Transaction, inner: LsmStorageInner, k: Seq<u8>)
    requires
        key::lookup(txn.local(), key::user_key(k)) is None,
        inner.state.wf(),
    ensures
        txn.sees(inner, k) is None <==> {
            ||| lsm_iterator::snapshot(inner.contents(), k, txn.read_ts) is None
            ||| lsm_iterator::snapshot(inner.contents(), k, txn.read_ts)->Some_0.len() == 0
        },
        txn.sees(inner, k) matches Some(v)
            ==> lsm_iterator::snapshot(inner.contents(), k, txn.read_ts) == Some(v),
{
}

} // verus!
