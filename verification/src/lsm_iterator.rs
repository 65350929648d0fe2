//! What a reader sees of the merged contents.
use crate::bound::{self, Bound};
use crate::error::LsmError;
use crate::iterators::StorageIterator;
use crate::iterators::concat_iterator::SstConcatIterator;
use crate::iterators::merge_iterator::MergeIterator;
use crate::iterators::two_merge_iterator::TwoMergeIterator;
use crate::key::{
    self, Entry, KeySlice, KeyView, StorageKey, TS_DEFAULT, bytes_equal, bytes_less, copy_bytes,
};
use crate::mem_table::MemTableIterator;
use crate::table::iterator::SsTableIterator;
use vstd::prelude::*;

verus! {

/// The internal type of an LSM iterator: tables in memory, then L0 tables, then levels.
pub type LsmIteratorInner = TwoMergeIterator<
    TwoMergeIterator<MergeIterator<MemTableIterator>, MergeIterator<SsTableIterator>>,
    MergeIterator<SstConcatIterator>,
>;

/// What a reader at `ts` is shown of the entries `s`: of every user key the first version that is
/// not newer than `ts`, unless it is a deletion. Showing ends at the first user key beyond `end`.
/// The user key `last` has been dealt with already.
pub open spec fn visible(
    s: Seq<Entry>,
    end: Bound<Seq<u8>>,
    ts: u64,
    last: Option<Seq<u8>>,
) -> Seq<Entry>
    decreases s.len(),
{
    if s.len() == 0 {
        Seq::empty()
    } else {
        let key = s[0].key.key;
        let rest = s.drop_first();
        if !bound::below_upper(key, end) {
            Seq::empty()
        } else if last == Some(key) || s[0].key.ts > ts {
            visible(rest, end, ts, last)
        } else if s[0].value.len() == 0 {
            visible(rest, end, ts, Some(key))
        } else {
            seq![Entry { key: key::user_key(key), value: s[0].value }]
                + visible(rest, end, ts, Some(key))
        }
    }
}

/// The value of the first version of the user key `k` that is not newer than `ts`.
pub open spec fn snapshot(s: Seq<Entry>, k: Seq<u8>, ts: u64) -> Option<Seq<u8>>
    decreases s.len(),
{
    if s.len() == 0 {
        None
    } else if s[0].key.key == k && s[0].key.ts <= ts {
        Some(s[0].value)
    } else {
        snapshot(s.drop_first(), k, ts)
    }
}

/// A value as a reader gets it: an empty one stands for none.
pub open spec fn live(v: Option<Seq<u8>>) -> Option<Seq<u8>> {
    match v {
        Some(x) => if x.len() == 0 {
            None
        } else {
            Some(x)
        },
        None => None,
    }
}

/// A user key that no entry has is not seen.
pub proof fn lemma_snapshot_none(s: Seq<Entry>, k: Seq<u8>, ts: u64)
    requires
        forall|i: int| 0 <= i < s.len() ==> #[trigger] s[i].key.key != k,
    ensures
        snapshot(s, k, ts) is None,
    decreases s.len(),
{
    if s.len() > 0 {
        let t = s.drop_first();
        assert(s[0].key.key != k);
        assert forall|i: int| 0 <= i < t.len() implies #[trigger] t[i].key.key != k by {
            assert(t[i] == s[i + 1]);
        }
        lemma_snapshot_none(t, k, ts);
    }
}

proof fn lemma_visible(
    s: Seq<Entry>,
    end: Bound<Seq<u8>>,
    ts: u64,
    last: Option<Seq<u8>>,
    k: Seq<u8>,
)
    requires
        key::sorted(s),
        last matches Some(l) ==> forall|i: int|
            0 <= i < s.len() ==> !key::bytes_lt(#[trigger] s[i].key.key, l),
    ensures
        key::sorted(visible(s, end, ts, last)),
        last matches Some(l) ==> key::all_after(visible(s, end, ts, last), key::user_key(l)),
        key::lookup(visible(s, end, ts, last), key::user_key(k)) == if bound::below_upper(k, end)
            && last != Some(
            k,
        ) {
            live(snapshot(s, k, ts))
        } else {
            None
        },
    decreases s.len(),
{
    broadcast use key::group_key_order, key::group_bytes_order;

    if s.len() > 0 {
        let key = s[0].key.key;
        let t = s.drop_first();
        key::lemma_sorted_drop_first(s);
        assert forall|i: int| 0 <= i < s.len()
            implies !key::bytes_lt(#[trigger] s[i].key.key, key) by {
            if i > 0 {
                assert(key::key_lt(s[0].key, s[i].key));
            }
        }
        assert forall|i: int| 0 <= i < t.len()
            implies !key::bytes_lt(#[trigger] t[i].key.key, key) by {
            assert(t[i] == s[i + 1]);
        }
        if last is Some {
            assert(!key::bytes_lt(s[0].key.key, last->Some_0));
            assert forall|i: int| 0 <= i < t.len() implies !key::bytes_lt(
                #[trigger] t[i].key.key,
                last->Some_0,
            ) by {
                assert(t[i] == s[i + 1]);
            }
        }
        if !bound::below_upper(key, end) {
            if bound::below_upper(k, end) {
                assert forall|i: int| 0 <= i < s.len() implies #[trigger] s[i].key.key != k by {
                    assert(!key::bytes_lt(s[i].key.key, key));
                }
                lemma_snapshot_none(s, k, ts);
            }
        } else if last == Some(key) || s[0].key.ts > ts {
            lemma_visible(t, end, ts, last, k);
        } else {
            lemma_visible(t, end, ts, Some(key), k);
            let v = visible(t, end, ts, Some(key));
            if last is Some {
                let l = last->Some_0;
                assert(key::bytes_lt(l, key));
                assert(key::key_lt(key::user_key(l), key::user_key(key)));
                assert forall|i: int| 0 <= i < v.len() implies key::key_lt(
                    key::user_key(l),
                    #[trigger] v[i].key,
                ) by {
                    assert(key::key_lt(key::user_key(key), v[i].key));
                }
            }
            if s[0].value.len() > 0 {
                let e = Entry { key: key::user_key(key), value: s[0].value };
                key::lemma_sorted_cons(e, v);
                assert((seq![e] + v).drop_first() =~= v);
                if last is Some {
                    key::lemma_all_after_cons(e, v, key::user_key(last->Some_0));
                }
            }
            if last == Some(k) {
                key::lemma_lookup_before(visible(s, end, ts, last), key::user_key(k));
            }
        }
    }
}

/// What is shown are plain user keys with values.
proof fn lemma_visible_plain(s: Seq<Entry>, end: Bound<Seq<u8>>, ts: u64, last: Option<Seq<u8>>)
    ensures
        forall|i: int|
            0 <= i < visible(s, end, ts, last).len() ==> {
                &&& (#[trigger] visible(s, end, ts, last)[i]).key.ts == TS_DEFAULT
                &&& visible(s, end, ts, last)[i].value.len() > 0
            },
    decreases s.len(),
{
    if s.len() > 0 {
        let key = s[0].key.key;
        let t = s.drop_first();
        lemma_visible_plain(t, end, ts, last);
        lemma_visible_plain(t, end, ts, Some(key));
        let r = visible(s, end, ts, last);
        let same = visible(t, end, ts, last);
        let rest = visible(t, end, ts, Some(key));
        let first = Entry { key: key::user_key(key), value: s[0].value };
        assert(r.len() == 0 || r == same || r == rest || (r == seq![first] + rest
            && first.value.len() > 0));
        assert forall|i: int| 0 <= i < r.len() implies {
            &&& (#[trigger] r[i]).key.ts == TS_DEFAULT
            &&& r[i].value.len() > 0
        } by {
            if r == same {
                assert(same[i].key.ts == TS_DEFAULT);
            } else if r == rest {
                assert(rest[i].key.ts == TS_DEFAULT);
            } else if i > 0 {
                assert(r[i] == rest[i - 1]);
            }
        }
    }
}

/// A value that is not empty is what a reader gets; an empty one stands for a deletion, and a reader
/// gets nothing.
pub proof fn law_live(v: Seq<u8>)
    ensures
        v.len() > 0 ==> live(Some(v)) == Some(v),
        v.len() == 0 ==> live(Some(v)) is None,
        live(None) is None,
{
}

/// A reader at `ts` sees the user keys within the bound in order, and of each the newest version
/// that is not newer than `ts`; a key whose version is a deletion is not seen, and nothing but plain
/// user keys with values is.
pub proof fn law_visible(s: Seq<Entry>, end: Bound<Seq<u8>>, ts: u64, k: Seq<u8>)
    requires
        key::sorted(s),
    ensures
        key::sorted(visible(s, end, ts, None)),
        forall|i: int|
            0 <= i < visible(s, end, ts, None).len() ==> {
                &&& (#[trigger] visible(s, end, ts, None)[i]).key.ts == TS_DEFAULT
                &&& visible(s, end, ts, None)[i].value.len() > 0
            },
        key::lookup(visible(s, end, ts, None), key::user_key(k)) == if bound::below_upper(k, end) {
            live(snapshot(s, k, ts))
        } else {
            None
        },
{
    lemma_visible(s, end, ts, None, k);
    lemma_visible_plain(s, end, ts, None);
}

/// Of the versions of a user key that are not newer than `ts`, the first one of a sorted sequence
/// is the newest.
pub proof fn law_snapshot_is_newest(s: Seq<Entry>, k: Seq<u8>, ts: u64)
    requires
        key::sorted(s),
    ensures
        snapshot(s, k, ts) is None <==> (forall|i: int|
            0 <= i < s.len() && #[trigger] s[i].key.key == k ==> s[i].key.ts > ts),
        snapshot(s, k, ts) matches Some(v) ==> exists|i: int|
            0 <= i < s.len() && #[trigger] s[i].key.key == k && s[i].key.ts <= ts && s[i].value == v
                && (forall|j: int|
                0 <= j < s.len() && #[trigger] s[j].key.key == k && s[j].key.ts <= ts
                    ==> s[j].key.ts <= s[i].key.ts),
    decreases s.len(),
{
    broadcast use key::group_key_order, key::group_bytes_order;

    if s.len() > 0 {
        let t = s.drop_first();
        key::lemma_sorted_drop_first(s);
        law_snapshot_is_newest(t, k, ts);
        assert forall|i: int| 0 < i < s.len() implies #[trigger] s[i] == t[i - 1] by {}
        if s[0].key.key == k && s[0].key.ts <= ts {
            assert forall|j: int|
                0 <= j < s.len() && #[trigger] s[j].key.key == k && s[j].key.ts
                    <= ts implies s[j].key.ts <= s[0].key.ts by {
                if j > 0 {
                    assert(key::key_lt(s[0].key, s[j].key));
                }
            }
        } else {
            if snapshot(t, k, ts) is None {
                assert forall|i: int| 0 <= i < s.len() && #[trigger] s[i].key.key == k
                    implies s[i].key.ts
                    > ts by {
                    if i > 0 {
                        assert(s[i] == t[i - 1]);
                        assert(t[i - 1].key.key == k);
                    }
                }
            } else {
                let v = snapshot(t, k, ts)->Some_0;
                let i = choose|i: int|
                    0 <= i < t.len() && #[trigger] t[i].key.key == k && t[i].key.ts <= ts
                        && t[i].value == v && (forall|j: int|
                        0 <= j < t.len() && #[trigger] t[j].key.key == k && t[j].key.ts <= ts
                            ==> t[j].key.ts <= t[i].key.ts);
                assert(s[i + 1] == t[i]);
                assert forall|j: int|
                    0 <= j < s.len() && #[trigger] s[j].key.key == k && s[j].key.ts
                        <= ts implies s[j].key.ts <= s[i + 1].key.ts by {
                    if j > 0 {
                        assert(s[j] == t[j - 1]);
                        assert(t[j - 1].key.key == k);
                    }
                }
                assert(s[i + 1].key.key == k);
            }
        }
    }
}

/// Shows a reader at `read_ts` the entries of the merged contents up to `end_bound`.
#[derive(Debug)]
pub struct LsmIterator {
    pub inner: LsmIteratorInner,
    pub end_bound: Bound<Vec<u8>>,
    pub read_ts: u64,
    pub is_valid: bool,
    pub last_returned_key: Option<Vec<u8>>,
}

impl LsmIterator {
    /// The user key that was dealt with last.
    pub open spec fn last(&self) -> Option<Seq<u8>> {
        match self.last_returned_key {
            Some(k) => Some(k@),
            None => None,
        }
    }

    /// Creates an iterator at the first entry that is shown.
    pub fn new(iter: LsmIteratorInner, end_bound: Bound<Vec<u8>>, read_ts: u64) -> (r: Result<
        Self,
        LsmError,
    >)
        requires
            iter.inv(),
        ensures
            iter.steady() ==> r is Ok && r->Ok_0.steady(),
            r matches Ok(it) ==> {
                &&& it.inv()
                &&& it.remaining() == visible(iter.remaining(), end_bound@, read_ts, None)
                &&& it.read_ts == read_ts
                &&& it.end_bound == end_bound
            },
    {
        let mut it = LsmIterator {
            inner: iter,
            end_bound,
            read_ts,
            is_valid: false,
            last_returned_key: None,
        };
        it.move_to_first_valid()?;
        Ok(it)
    }

    /// Whether the current user key lies within the bound.
    fn check_end_bound(&self) -> (r: bool)
        requires
            self.inner.inv(),
            self.inner.remaining().len() > 0,
        ensures
            r == bound::below_upper(self.inner.remaining()[0].key.key, self.end_bound@),
    {
        let key: &[u8] = self.inner.key().key_ref();
        match &self.end_bound {
            Bound::Unbounded => true,
            Bound::Included(end) => !bytes_less(end.as_slice(), key),
            Bound::Excluded(end) => bytes_less(key, end.as_slice()),
        }
    }

    /// Goes from the current entry on to the first one that is shown.
    fn move_to_first_valid(&mut self) -> (r: Result<(), LsmError>)
        requires
            old(self).inner.inv(),
        ensures
            old(self).inner.steady() ==> r is Ok && final(self).inner.steady(),
            r is Ok ==> {
                &&& final(self).inv()
                &&& final(self).remaining() == visible(
                    old(self).inner.remaining(),
                    old(self).end_bound@,
                    old(self).read_ts,
                    old(self).last(),
                )
                &&& final(self).read_ts == old(self).read_ts
                &&& final(self).end_bound == old(self).end_bound
            },
    {
        let ghost target = visible(
            self.inner.remaining(),
            self.end_bound@,
            self.read_ts,
            self.last(),
        );
        loop
            invariant
                self.inner.inv(),
                old(self).inner.steady() ==> self.inner.steady(),
                self.read_ts == old(self).read_ts,
                self.end_bound == old(self).end_bound,
                target == visible(
                    self.inner.remaining(),
                    self.end_bound@,
                    self.read_ts,
                    self.last(),
                ),
                target == visible(
                    old(self).inner.remaining(),
                    old(self).end_bound@,
                    old(self).read_ts,
                    old(self).last(),
                ),
            decreases self.inner.remaining().len(),
        {
            if !self.inner.is_valid() {
                self.is_valid = false;
                return Ok(());
            }
            if !self.check_end_bound() {
                self.is_valid = false;
                return Ok(());
            }
            let key: KeySlice<'_> = self.inner.key();
            assert(key@ == self.inner.remaining()[0].key);
            let seen: bool = match &self.last_returned_key {
                Some(last) => bytes_equal(last.as_slice(), key.key_ref()),
                None => false,
            };
            if seen {
                self.inner.next()?;
                continue;
            }
            if key.ts() > self.read_ts {
                self.inner.next()?;
                continue;
            }
            let current: Vec<u8> = copy_bytes(key.key_ref());
            let deleted: bool = self.inner.value().len() == 0;
            self.last_returned_key = Some(current);
            if deleted {
                self.inner.next()?;
                continue;
            }
            self.is_valid = true;
            return Ok(());
        }
    }
}

impl StorageIterator for LsmIterator {
    type KeyType<'a> = &'a [u8];

    open spec fn inv(&self) -> bool {
        &&& self.inner.inv()
        &&& self.is_valid ==> {
            &&& self.inner.remaining().len() > 0
            &&& self.last() == Some(self.inner.remaining()[0].key.key)
            &&& bound::below_upper(self.inner.remaining()[0].key.key, self.end_bound@)
        }
    }

    open spec fn remaining(&self) -> Seq<Entry> {
        if self.is_valid {
            let s = self.inner.remaining();
            seq![Entry { key: key::user_key(s[0].key.key), value: s[0].value }] + visible(
                s.drop_first(),
                self.end_bound@,
                self.read_ts,
                self.last(),
            )
        } else {
            Seq::empty()
        }
    }

    open spec fn steady(&self) -> bool {
        self.inner.steady()
    }

    open spec fn fused(&self) -> bool {
        false
    }

    open spec fn active(&self) -> usize {
        self.inner.active()
    }

    fn key<'a>(&'a self) -> (k: &'a [u8]) {
        let k: KeySlice<'a> = self.inner.key();
        assert(k@ == self.inner.remaining()[0].key);
        let r: &'a [u8] = k.key_ref();
        assert(r.key_view() == key::user_key(r@));
        r
    }

    fn value(&self) -> (v: &[u8]) {
        self.inner.value()
    }

    fn is_valid(&self) -> (r: bool) {
        self.is_valid
    }

    fn next(&mut self) -> (r: Result<(), LsmError>)
        ensures
            r is Ok ==> final(self).read_ts == old(self).read_ts,
            r is Ok ==> final(self).end_bound == old(self).end_bound,
    {
        let ghost before = *self;
        self.inner.next()?;
        self.move_to_first_valid()?;
        assert(self.remaining() =~= before.remaining().drop_first());
        Ok(())
    }

    fn num_active_iterators(&self) -> (n: usize) {
        self.inner.num_active_iterators()
    }
}

/// A wrapper around an iterator that prevents calling `next` on it when it is invalid. If the
/// iterator is already invalid, `next` does not do anything. If `next` returns an error, `is_valid`
/// returns false from then on, and `next` always returns an error.
#[derive(Debug)]
pub struct FusedIterator<I: StorageIterator> {
    pub iter: I,
    pub has_errored: bool,
}

impl<I: 'static + StorageIterator> FusedIterator<I> {
    pub fn new(iter: I) -> (r: Self)
        ensures
            r.iter == iter,
            !r.has_errored,
    {
        FusedIterator { iter, has_errored: false }
    }
}

impl<I: 'static + StorageIterator> StorageIterator for FusedIterator<I> {
    type KeyType<'a> = I::KeyType<'a>;

    open spec fn inv(&self) -> bool {
        self.has_errored || self.iter.inv()
    }

    open spec fn remaining(&self) -> Seq<Entry> {
        if self.has_errored {
            Seq::empty()
        } else {
            self.iter.remaining()
        }
    }

    open spec fn steady(&self) -> bool {
        !self.has_errored && self.iter.steady()
    }

    open spec fn fused(&self) -> bool {
        true
    }

    open spec fn active(&self) -> usize {
        if self.has_errored {
            0
        } else {
            self.iter.active()
        }
    }

    fn key<'a>(&'a self) -> (k: Self::KeyType<'a>) {
        self.iter.key()
    }

    fn value(&self) -> (v: &[u8]) {
        self.iter.value()
    }

    fn is_valid(&self) -> (r: bool) {
        !self.has_errored && self.iter.is_valid()
    }

    fn next(&mut self) -> (r: Result<(), LsmError>)
        ensures
            old(self).has_errored ==> r is Err && *final(self) == *old(self),
            !old(self).has_errored && old(self).remaining().len() == 0 ==> r is Ok && *final(self)
                == *old(self),
            r is Err ==> r->Err_0 == LsmError::IteratorFailed,
            r is Err ==> final(self).has_errored && final(self).inv(),
            r is Ok ==> !final(self).has_errored,
    {
        if self.has_errored {
            return Err(LsmError::IteratorFailed);
        }
        if !self.iter.is_valid() {
            return Ok(());
        }
        match self.iter.next() {
            Ok(()) => Ok(()),
            Err(_) => {
                self.has_errored = true;
                Err(LsmError::IteratorFailed)
            },
        }
    }

    fn num_active_iterators(&self) -> (n: usize) {
        if self.has_errored {
            0
        } else {
            self.iter.num_active_iterators()
        }
    }
}

/// A reader is not affected by versions that are newer than its timestamp: two sorted sequences with
/// the same versions up to it look the same.
pub proof fn law_snapshot_unaffected(a: Seq<Entry>, b: Seq<Entry>, k: Seq<u8>, ts: u64)
    requires
        key::sorted(a),
        key::sorted(b),
        forall|v: KeyView| v.ts <= ts ==> #[trigger] key::lookup(a, v) == key::lookup(b, v),
    ensures
        snapshot(a, k, ts) == snapshot(b, k, ts),
{
    law_snapshot_is_newest(a, k, ts);
    law_snapshot_is_newest(b, k, ts);
    lemma_snapshot_found(a, b, k, ts);
    lemma_snapshot_found(b, a, k, ts);
    if snapshot(a, k, ts) is Some && snapshot(b, k, ts) is Some {
        let i = choose|i: int|
            0 <= i < a.len() && #[trigger] a[i].key.key == k && a[i].key.ts <= ts && a[i].value
                == snapshot(a, k, ts)->Some_0 && (forall|j: int|
                0 <= j < a.len() && #[trigger] a[j].key.key == k && a[j].key.ts <= ts
                    ==> a[j].key.ts <= a[i].key.ts);
        let x = choose|x: int|
            0 <= x < b.len() && #[trigger] b[x].key.key == k && b[x].key.ts <= ts && b[x].value
                == snapshot(b, k, ts)->Some_0 && (forall|j: int|
                0 <= j < b.len() && #[trigger] b[j].key.key == k && b[j].key.ts <= ts
                    ==> b[j].key.ts <= b[x].key.ts);
        key::lemma_lookup(a, a[i].key);
        key::lemma_lookup(b, a[i].key);
        key::lemma_lookup(a, b[x].key);
        key::lemma_lookup(b, b[x].key);
        let j = choose|j: int| 0 <= j < b.len() && #[trigger] b[j].key == a[i].key;
        let y = choose|y: int| 0 <= y < a.len() && #[trigger] a[y].key == b[x].key;
        assert(b[j].key.key == k);
        assert(a[y].key.key == k);
        assert(a[i].key == b[x].key);
    }
}

proof fn lemma_snapshot_found(a: Seq<Entry>, b: Seq<Entry>, k: Seq<u8>, ts: u64)
    requires
        key::sorted(a),
        key::sorted(b),
        forall|v: KeyView| v.ts <= ts ==> #[trigger] key::lookup(a, v) == key::lookup(b, v),
    ensures
        snapshot(a, k, ts) is Some ==> snapshot(b, k, ts) is Some,
{
    law_snapshot_is_newest(a, k, ts);
    law_snapshot_is_newest(b, k, ts);
    if snapshot(a, k, ts) is Some {
        let i = choose|i: int| 0 <= i < a.len() && #[trigger] a[i].key.key == k
            && a[i].key.ts <= ts;
        key::lemma_lookup(a, a[i].key);
        key::lemma_lookup(b, a[i].key);
        let j = choose|j: int| 0 <= j < b.len() && #[trigger] b[j].key == a[i].key;
        assert(b[j].key.key == k);
    }
}

} // verus!
