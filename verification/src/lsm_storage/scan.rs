//! Scanning the storage engine.
use crate::bound::{self, Bound};
use crate::error::LsmError;
use crate::iterators::{self, StorageIterator};
use crate::iterators::concat_iterator::{self, SstConcatIterator};
use crate::iterators::merge_iterator::{self, MergeIterator};
use crate::iterators::two_merge_iterator::TwoMergeIterator;
use crate::key::{self, Entry, KeySlice, KeyView, StorageKey, TS_DEFAULT, copy_bytes};
use crate::lsm_iterator::{self, FusedIterator, LsmIterator, LsmIteratorInner};
use crate::lsm_storage::{self, LsmStorageInner, LsmStorageState, table_out_of_range};
use crate::lsm_storage::read;
use crate::mem_table::{self, MemTableIterator};
use crate::table::{SsTable, SsTableIterator};
use std::collections::HashMap;
use std::sync::Arc;
use vstd::prelude::*;

verus! {

/// Where the user keys of a sorted sequence pass the lower end of a range, clipping cuts.
pub proof fn lemma_clip_suffix(s: Seq<Entry>, lower: Bound<Seq<u8>>, p: int)
    requires
        0 <= p <= s.len(),
        forall|i: int| 0 <= i < p ==> !bound::above_lower(#[trigger] s[i].key.key, lower),
        forall|i: int| p <= i < s.len() ==> bound::above_lower(#[trigger] s[i].key.key, lower),
    ensures
        bound::clip(s, lower, Bound::Unbounded) == s.skip(p),
    decreases s.len(),
{
    if s.len() == 0 {
        assert(s.skip(p) =~= s);
    } else {
        let t = s.drop_first();
        assert forall|i: int| 0 <= i < t.len() implies #[trigger] t[i] == s[i + 1] by {}
        if p == 0 {
            assert(bound::above_lower(s[0].key.key, lower));
            lemma_clip_suffix(t, lower, 0);
            assert(t.skip(0) =~= t);
            assert(s.skip(0) =~= seq![s[0]] + t);
        } else {
            assert(!bound::above_lower(s[0].key.key, lower));
            lemma_clip_suffix(t, lower, p - 1);
            assert(t.skip(p - 1) =~= s.skip(p));
        }
    }
}

/// The entries of a sorted sequence from a sought key on are those above the lower end of a range
/// that begins with the versions of that key.
proof fn lemma_seek_included(s: Seq<Entry>, k: Seq<u8>)
    requires
        key::sorted(s),
    ensures
        s.skip(key::lower_bound(s, KeyView { key: k, ts: u64::MAX }) as int) == bound::clip(
            s,
            Bound::Included(k),
            Bound::Unbounded,
        ),
{
    broadcast use key::group_key_order, key::group_bytes_order;

    let sought = KeyView { key: k, ts: u64::MAX };
    key::lemma_lower_bound(s, sought);
    let p = key::lower_bound(s, sought) as int;
    assert forall|i: int| 0 <= i < p implies !bound::above_lower(
        #[trigger] s[i].key.key,
        Bound::Included(k),
    ) by {
        assert(key::key_lt(s[i].key, sought));
    }
    assert forall|i: int| p <= i < s.len() implies bound::above_lower(
        #[trigger] s[i].key.key,
        Bound::Included(k),
    ) by {
        assert(key::key_le(sought, s[i].key));
    }
    lemma_clip_suffix(s, Bound::Included(k), p);
}

/// Behind the oldest version of a key, the entries above the lower end of a range begin from which
/// that key is excluded.
proof fn lemma_seek_excluded(s: Seq<Entry>, k: Seq<u8>)
    requires
        key::sorted(s),
    ensures
        ({
            let p = key::lower_bound(s, key::user_key(k)) as int;
            let q = if p < s.len() && s[p].key == key::user_key(k) {
                p + 1
            } else {
                p
            };
            s.skip(q) == bound::clip(s, Bound::Excluded(k), Bound::Unbounded)
        }),
{
    broadcast use key::group_key_order, key::group_bytes_order;

    let sought = key::user_key(k);
    key::lemma_lower_bound(s, sought);
    let p = key::lower_bound(s, sought) as int;
    let q = if p < s.len() && s[p].key == sought {
        p + 1
    } else {
        p
    };
    assert forall|i: int| 0 <= i < q implies !bound::above_lower(
        #[trigger] s[i].key.key,
        Bound::Excluded(k),
    ) by {
        if i < p {
            assert(key::key_lt(s[i].key, sought));
        }
    }
    assert forall|i: int| q <= i < s.len() implies bound::above_lower(
        #[trigger] s[i].key.key,
        Bound::Excluded(k),
    ) by {
        assert(key::key_le(sought, s[i].key));
        if p < i {
            assert(key::key_lt(s[p].key, s[i].key));
        }
    }
    lemma_clip_suffix(s, Bound::Excluded(k), q);
}

proof fn lemma_clip_unbounded(s: Seq<Entry>)
    ensures
        bound::clip(s, Bound::Unbounded, Bound::Unbounded) == s,
{
    lemma_clip_suffix(s, Bound::Unbounded, 0);
    assert(s.skip(0) =~= s);
}

/// The merged parts hold what the whole holds for keys in a range, and nothing for keys below it.
pub open spec fn covers(
    ps: Seq<Seq<Entry>>,
    wholes: Seq<Seq<Entry>>,
    lower: Bound<Seq<u8>>,
    upper: Bound<Seq<u8>>,
) -> bool {
    &&& forall|i: int| 0 <= i < ps.len() ==> key::sorted(#[trigger] ps[i])
    &&& forall|k: KeyView| #[trigger]
        iterators::lookup_all(ps, k) == iterators::lookup_all(wholes, k)
            || !bound::in_range(k.key, lower, upper)
    &&& forall|k: KeyView|
        !bound::above_lower(k.key, lower) ==> #[trigger] iterators::lookup_all(ps, k) is None
}

/// A part covers a whole.
pub open spec fn covers_one(
    p: Seq<Entry>,
    whole: Seq<Entry>,
    lower: Bound<Seq<u8>>,
    upper: Bound<Seq<u8>>,
) -> bool {
    &&& key::sorted(p)
    &&& forall|k: KeyView| #[trigger]
        key::lookup(p, k) == key::lookup(whole, k) || !bound::in_range(k.key, lower, upper)
    &&& forall|k: KeyView| !bound::above_lower(k.key, lower)
        ==> #[trigger] key::lookup(p, k) is None
}

proof fn lemma_lookup_all_push(ps: Seq<Seq<Entry>>, p: Seq<Entry>, k: KeyView)
    ensures
        iterators::lookup_all(ps.push(p), k) == match iterators::lookup_all(ps, k) {
            Some(v) => Some(v),
            None => key::lookup(p, k),
        },
{
    assert(ps.push(p) =~= ps + seq![p]);
    read::lemma_lookup_all_concat(ps, seq![p], k);
    assert(seq![p].drop_first() =~= Seq::empty());
    reveal_with_fuel(iterators::lookup_all, 2);
}

proof fn lemma_covers_push(
    ps: Seq<Seq<Entry>>,
    wholes: Seq<Seq<Entry>>,
    p: Seq<Entry>,
    whole: Seq<Entry>,
    lower: Bound<Seq<u8>>,
    upper: Bound<Seq<u8>>,
)
    requires
        covers(ps, wholes, lower, upper),
        covers_one(p, whole, lower, upper),
    ensures
        covers(ps.push(p), wholes.push(whole), lower, upper),
{
    assert forall|k: KeyView| #[trigger]
        iterators::lookup_all(ps.push(p), k) == iterators::lookup_all(wholes.push(whole), k)
            || !bound::in_range(
            k.key,
            lower,
            upper,
        ) by {
        lemma_lookup_all_push(ps, p, k);
        lemma_lookup_all_push(wholes, whole, k);
        assert(key::lookup(p, k) == key::lookup(whole, k) || !bound::in_range(k.key, lower, upper));
        assert(
            iterators::lookup_all(ps, k) == iterators::lookup_all(wholes, k)
                || !bound::in_range(k.key, lower, upper)
        );
    }
    assert forall|k: KeyView| !bound::above_lower(k.key, lower)
        implies #[trigger] iterators::lookup_all(
        ps.push(p),
        k,
    ) is None by {
        lemma_lookup_all_push(ps, p, k);
        assert(iterators::lookup_all(ps, k) is None);
        assert(key::lookup(p, k) is None);
    }
}

proof fn lemma_covers_skip(
    ps: Seq<Seq<Entry>>,
    wholes: Seq<Seq<Entry>>,
    whole: Seq<Entry>,
    lower: Bound<Seq<u8>>,
    upper: Bound<Seq<u8>>,
)
    requires
        covers(ps, wholes, lower, upper),
        forall|k: KeyView| bound::in_range(k.key, lower, upper)
            ==> #[trigger] key::lookup(whole, k) is None,
    ensures
        covers(ps, wholes.push(whole), lower, upper),
{
    assert forall|k: KeyView| #[trigger]
        iterators::lookup_all(ps, k) == iterators::lookup_all(wholes.push(whole), k)
            || !bound::in_range(
            k.key,
            lower,
            upper,
        ) by {
        lemma_lookup_all_push(wholes, whole, k);
        assert(
            iterators::lookup_all(ps, k) == iterators::lookup_all(wholes, k)
                || !bound::in_range(k.key, lower, upper)
        );
        if bound::in_range(k.key, lower, upper) {
            assert(key::lookup(whole, k) is None);
        }
    }
}

/// What is clipped at the lower end, or at both, covers the whole.
proof fn lemma_clip_covers(s: Seq<Entry>, lower: Bound<Seq<u8>>, upper: Bound<Seq<u8>>)
    requires
        key::sorted(s),
    ensures
        covers_one(bound::clip(s, lower, Bound::Unbounded), s, lower, upper),
        covers_one(bound::clip(s, lower, upper), s, lower, upper),
{
    bound::lemma_clip(s, lower, Bound::Unbounded);
    bound::lemma_clip(s, lower, upper);
}

/// The versions of one user key that two sorted sequences hold decide what is seen of it.
pub proof fn lemma_snapshot_same(a: Seq<Entry>, b: Seq<Entry>, k: Seq<u8>, ts: u64)
    requires
        key::sorted(a),
        key::sorted(b),
        forall|v: KeyView| v.key == k ==> #[trigger] key::lookup(a, v) == key::lookup(b, v),
    ensures
        lsm_iterator::snapshot(a, k, ts) == lsm_iterator::snapshot(b, k, ts),
{
    lsm_iterator::law_snapshot_is_newest(a, k, ts);
    lsm_iterator::law_snapshot_is_newest(b, k, ts);
    lemma_snapshot_half(a, b, k, ts);
    assert forall|v: KeyView| v.key == k
        implies #[trigger] key::lookup(b, v) == key::lookup(a, v) by {
        assert(key::lookup(a, v) == key::lookup(b, v));
    }
    lemma_snapshot_half(b, a, k, ts);
}

proof fn lemma_snapshot_half(a: Seq<Entry>, b: Seq<Entry>, k: Seq<u8>, ts: u64)
    requires
        key::sorted(a),
        key::sorted(b),
        forall|v: KeyView| v.key == k ==> #[trigger] key::lookup(a, v) == key::lookup(b, v),
    ensures
        lsm_iterator::snapshot(a, k, ts) is Some
            ==> lsm_iterator::snapshot(b, k, ts) == lsm_iterator::snapshot(a, k, ts),
{
    lsm_iterator::law_snapshot_is_newest(a, k, ts);
    lsm_iterator::law_snapshot_is_newest(b, k, ts);
    if lsm_iterator::snapshot(a, k, ts) is Some {
        let v = lsm_iterator::snapshot(a, k, ts)->Some_0;
        let i = choose|i: int|
            0 <= i < a.len() && #[trigger] a[i].key.key == k && a[i].key.ts <= ts && a[i].value == v
                && (forall|j: int|
                0 <= j < a.len() && #[trigger] a[j].key.key == k && a[j].key.ts <= ts
                    ==> a[j].key.ts <= a[i].key.ts);
        let kv = a[i].key;
        key::lemma_lookup(a, kv);
        key::lemma_lookup(b, kv);
        assert(key::lookup(a, kv) == key::lookup(b, kv));
        assert(key::lookup(a, kv) == Some(v));
        let j = choose|j: int| 0 <= j < b.len() && #[trigger] b[j].key == kv;
        assert(b[j].key.key == k);
        assert(lsm_iterator::snapshot(b, k, ts) is Some);
        let w = lsm_iterator::snapshot(b, k, ts)->Some_0;
        let x = choose|x: int|
            0 <= x < b.len() && #[trigger] b[x].key.key == k && b[x].key.ts <= ts && b[x].value == w
                && (forall|y: int|
                0 <= y < b.len() && #[trigger] b[y].key.key == k && b[y].key.ts <= ts
                    ==> b[y].key.ts <= b[x].key.ts);
        key::lemma_lookup(b, b[x].key);
        key::lemma_lookup(a, b[x].key);
        assert(key::lookup(a, b[x].key) == key::lookup(b, b[x].key));
        let z = choose|z: int| 0 <= z < a.len() && #[trigger] a[z].key == b[x].key;
        assert(a[z].key.key == k);
        assert(b[x].key.ts == kv.ts);
        assert(b[x].key =~= kv);
        assert(key::lookup(b, kv) == Some(w));
    }
}

/// A reader is shown plain user keys only.
proof fn lemma_visible_plain(
    s: Seq<Entry>,
    end: Bound<Seq<u8>>,
    ts: u64,
    last: Option<Seq<u8>>,
    k: KeyView,
)
    requires
        k.ts != TS_DEFAULT,
    ensures
        key::lookup(lsm_iterator::visible(s, end, ts, last), k) is None,
    decreases s.len(),
{
    if s.len() > 0 {
        let key = s[0].key.key;
        let t = s.drop_first();
        lemma_visible_plain(t, end, ts, last, k);
        lemma_visible_plain(t, end, ts, Some(key), k);
        let v = lsm_iterator::visible(t, end, ts, Some(key));
        let e = Entry { key: key::user_key(key), value: s[0].value };
        assert((seq![e] + v).drop_first() =~= v);
    }
}

/// Showing what was merged from parts that cover the whole, up to the upper end of a range, shows
/// what the whole holds in that range.
proof fn lemma_scan_view(
    merged: Seq<Entry>,
    whole: Seq<Entry>,
    lower: Bound<Seq<u8>>,
    upper: Bound<Seq<u8>>,
    ts: u64,
)
    requires
        key::sorted(whole),
        covers_one(merged, whole, lower, upper),
    ensures
        lsm_iterator::visible(merged, upper, ts, None) == lsm_iterator::visible(
            bound::clip(whole, lower, upper),
            Bound::Unbounded,
            ts,
            None,
        ),
{
    let c = bound::clip(whole, lower, upper);
    bound::lemma_clip(whole, lower, upper);
    let a = lsm_iterator::visible(merged, upper, ts, None);
    let b = lsm_iterator::visible(c, Bound::Unbounded, ts, None);
    lsm_iterator::law_visible(merged, upper, ts, Seq::empty());
    lsm_iterator::law_visible(c, Bound::Unbounded, ts, Seq::empty());
    assert forall|kv: KeyView| #[trigger] key::lookup(a, kv) == key::lookup(b, kv) by {
        if kv.ts != TS_DEFAULT {
            lemma_visible_plain(merged, upper, ts, None, kv);
            lemma_visible_plain(c, Bound::Unbounded, ts, None, kv);
        } else {
            assert(kv =~= key::user_key(kv.key));
            lsm_iterator::law_visible(merged, upper, ts, kv.key);
            lsm_iterator::law_visible(c, Bound::Unbounded, ts, kv.key);
            if bound::below_upper(kv.key, upper) {
                assert forall|v: KeyView| v.key == kv.key implies #[trigger] key::lookup(merged, v)
                    == key::lookup(c, v) by {
                    assert(key::lookup(merged, v) == key::lookup(whole, v) || !bound::in_range(
                        v.key,
                        lower,
                        upper,
                    ));
                    assert(key::lookup(c, v) == if bound::in_range(v.key, lower, upper) {
                        key::lookup(whole, v)
                    } else {
                        None
                    });
                }
                lemma_snapshot_same(merged, c, kv.key, ts);
            } else {
                assert forall|i: int| 0 <= i < c.len()
                    implies #[trigger] c[i].key.key != kv.key by {
                    let key = c[i].key;
                    key::lemma_lookup(c, key);
                    assert(key::lookup(c, key) == if bound::in_range(key.key, lower, upper) {
                        key::lookup(whole, key)
                    } else {
                        None
                    });
                }
                lsm_iterator::lemma_snapshot_none(c, kv.key, ts);
            }
        }
    }
    key::lemma_same_lookups(a, b);
}

/// An iterator over the entries of a table beyond a user key.
#[verifier::spinoff_prover]
fn seek_table_past(sst: Arc<SsTable>, k: &[u8]) -> (r: Result<SsTableIterator, LsmError>)
    requires
        sst.wf(),
    ensures
        r is Ok,
        r->Ok_0.inv(),
        r->Ok_0.remaining() == bound::clip(sst.entries(), Bound::Excluded(k@), Bound::Unbounded),
{
    let ghost es = sst.entries();
    let sought: KeySlice<'_> = KeySlice::from_slice(k);
    let ghost p = key::lower_bound(es, sought@) as int;
    proof {
        lemma_seek_excluded(es, k@);
        key::lemma_lower_bound(es, sought@);
    }
    let mut it: SsTableIterator = SsTableIterator::create_and_seek_to_key(sst, sought)?;
    if it.is_valid() {
        assert(it.remaining()[0] == es[p]);
        if it.key().same(&sought) {
            it.next()?;
            assert(es.skip(p).drop_first() =~= es.skip(p + 1));
        }
    }
    Ok(it)
}

/// An iterator over the entries of a table from the lower end of a range on.
fn seek_table(sst: Arc<SsTable>, lower: &Bound<&[u8]>) -> (r: Result<SsTableIterator, LsmError>)
    requires
        sst.wf(),
    ensures
        r is Ok,
        r->Ok_0.inv(),
        r->Ok_0.remaining() == bound::clip(sst.entries(), lower@, Bound::Unbounded),
{
    let ghost es = sst.entries();
    match lower {
        Bound::Unbounded => {
            proof {
                lemma_clip_unbounded(es);
            }
            SsTableIterator::create_and_seek_to_first(sst)
        },
        Bound::Included(k) => {
            proof {
                lemma_seek_included(es, k@);
            }
            SsTableIterator::create_and_seek_to_key(
                sst,
                KeySlice::from_slice_with_ts(*k, u64::MAX),
            )
        },
        Bound::Excluded(k) => seek_table_past(sst, *k),
    }
}

/// An iterator over the entries of a level from the lower end of a range on.
fn seek_level(ssts: Vec<Arc<SsTable>>, lower: &Bound<&[u8]>) -> (r: Result<
    SstConcatIterator,
    LsmError,
>)
    requires
        concat_iterator::run_wf(ssts@),
    ensures
        r is Ok,
        r->Ok_0.inv(),
        r->Ok_0.remaining()
            == bound::clip(concat_iterator::tables_from(ssts@, 0), lower@, Bound::Unbounded),
{
    let ghost es = concat_iterator::tables_from(ssts@, 0);
    match lower {
        Bound::Unbounded => {
            proof {
                lemma_clip_unbounded(es);
            }
            SstConcatIterator::create_and_seek_to_first(ssts)
        },
        Bound::Included(k) => {
            proof {
                lemma_seek_included(es, k@);
            }
            SstConcatIterator::create_and_seek_to_key(
                ssts,
                KeySlice::from_slice_with_ts(*k, u64::MAX),
            )
        },
        Bound::Excluded(k) => {
            let sought: KeySlice<'_> = KeySlice::from_slice(*k);
            let ghost p = key::lower_bound(es, sought@) as int;
            proof {
                lemma_seek_excluded(es, k@);
                key::lemma_lower_bound(es, sought@);
            }
            let mut it: SstConcatIterator = SstConcatIterator::create_and_seek_to_key(
                ssts,
                sought,
            )?;
            if it.is_valid() {
                assert(it.remaining()[0] == es[p]);
                if it.key().same(&sought) {
                    it.next()?;
                    assert(es.skip(p).drop_first() =~= es.skip(p + 1));
                }
            }
            Ok(it)
        },
    }
}

/// A table that lies outside a range holds no key in it.
proof fn lemma_out_of_range(sst: &SsTable, lower: Bound<Seq<u8>>, upper: Bound<Seq<u8>>)
    requires
        sst.wf(),
        !bound::below_upper(sst.first_key@.key, upper)
            || !bound::above_lower(sst.last_key@.key, lower),
    ensures
        forall|k: KeyView|
            bound::in_range(k.key, lower, upper)
                ==> #[trigger] key::lookup(sst.entries(), k) is None,
{
    broadcast use key::group_key_order, key::group_bytes_order;

    let es = sst.entries();
    let n = es.len() - 1;
    assert forall|k: KeyView| bound::in_range(k.key, lower, upper) implies #[trigger] key::lookup(
        es,
        k,
    ) is None by {
        key::lemma_lookup(es, k);
        assert forall|i: int| 0 <= i < es.len() implies #[trigger] es[i].key != k by {
            assert(i == 0 || key::key_lt(es[0].key, es[i].key));
            assert(i == n || key::key_lt(es[i].key, es[n].key));
            assert(es[0].key == sst.first_key@);
            assert(es[n].key == sst.last_key@);
            assert(!key::bytes_lt(es[i].key.key, es[0].key.key));
            assert(!key::bytes_lt(es[n].key.key, es[i].key.key));
        }
    }
}

impl LsmStorageInner {
    /// The memtables, as far as they lie in a range.
    fn scan_memtables(&self, lower: &Bound<&[u8]>, upper: &Bound<&[u8]>) -> (r: Vec<
        Box<MemTableIterator>,
    >)
        requires
            self.state.mems_wf(),
        ensures
            forall|i: int| 0 <= i < r@.len() ==> (#[trigger] r@[i]).inv(),
            covers(merge_iterator::parts(r@), self.state.mem_parts(), lower@, upper@),
    {
        let ghost wholes = self.state.mem_parts();
        let mut children: Vec<Box<MemTableIterator>> = Vec::new();
        proof {
            assert(covers(merge_iterator::parts(children@), Seq::empty(), lower@, upper@));
            mem_table::lemma_entries_sorted(&self.state.memtable);
            lemma_clip_covers(self.state.memtable.entries(), lower@, upper@);
            lemma_covers_push(
                merge_iterator::parts(children@),
                Seq::empty(),
                bound::clip(self.state.memtable.entries(), lower@, upper@),
                self.state.memtable.entries(),
                lower@,
                upper@,
            );
        }
        let ghost before = children@;
        children.push(Box::new(self.state.memtable.scan(lower, upper)));
        proof {
            assert(merge_iterator::parts(children@) =~= merge_iterator::parts(before).push(
                bound::clip(self.state.memtable.entries(), lower@, upper@),
            ));
            assert(wholes.take(1) =~= Seq::<Seq<Entry>>::empty().push(
                self.state.memtable.entries(),
            ));
        }
        let mut i: usize = 0;
        while i < self.state.imm_memtables.len()
            invariant
                i <= self.state.imm_memtables@.len(),
                self.state.mems_wf(),
                wholes == self.state.mem_parts(),
                forall|j: int| 0 <= j < children@.len() ==> (#[trigger] children@[j]).inv(),
                covers(merge_iterator::parts(children@), wholes.take(i + 1), lower@, upper@),
            decreases self.state.imm_memtables@.len() - i,
        {
            let ghost before = children@;
            let ghost whole = self.state.imm_memtables@[i as int].entries();
            assert(self.state.imm_memtables@[i as int].wf());
            proof {
                mem_table::lemma_entries_sorted(&*self.state.imm_memtables@[i as int]);
                lemma_clip_covers(whole, lower@, upper@);
                lemma_covers_push(
                    merge_iterator::parts(before),
                    wholes.take(i + 1),
                    bound::clip(whole, lower@, upper@),
                    whole,
                    lower@,
                    upper@,
                );
                assert(wholes[i + 1] == whole);
                assert(wholes.take(i + 2) =~= wholes.take(i + 1).push(whole));
            }
            children.push(Box::new(self.state.imm_memtables[i].scan(lower, upper)));
            assert(
                merge_iterator::parts(children@)
                    =~= merge_iterator::parts(before).push(bound::clip(whole, lower@, upper@))
            );
            i = i + 1;
        }
        assert(wholes.take(i + 1) =~= wholes);
        children
    }

    /// The tables of L0, as far as they lie behind the lower end of a range; tables that lie
    /// outside the range are left out.
    fn scan_l0(&self, lower: &Bound<&[u8]>, upper: &Bound<&[u8]>) -> (r: Result<
        Vec<Box<SsTableIterator>>,
        LsmError,
    >)
        requires
            lsm_storage::layout_wf(self.state.layout(), self.state.sstables@),
        ensures
            r is Ok,
            forall|i: int| 0 <= i < r->Ok_0@.len() ==> (#[trigger] r->Ok_0@[i]).inv(),
            covers(
                merge_iterator::parts(r->Ok_0@),
                if self.uses_l0() {
                    lsm_storage::l0_parts(self.state.l0_sstables@, self.state.sstables@)
                } else {
                    Seq::empty()
                },
                lower@,
                upper@,
            ),
    {
        let ghost layout = self.state.layout();
        let ghost tables = self.state.sstables@;
        let ghost wholes = lsm_storage::l0_parts(layout.l0, tables);
        let mut children: Vec<Box<SsTableIterator>> = Vec::new();
        proof {
            assert(covers(merge_iterator::parts(children@), Seq::empty(), lower@, upper@));
            assert(wholes.take(0) =~= Seq::empty());
        }
        if !self.compaction_controller.flush_to_l0() {
            return Ok(children);
        }
        let mut i: usize = 0;
        while i < self.state.l0_sstables.len()
            invariant
                i <= self.state.l0_sstables@.len(),
                layout == self.state.layout(),
                tables == self.state.sstables@,
                lsm_storage::layout_wf(layout, tables),
                wholes == lsm_storage::l0_parts(layout.l0, tables),
                forall|j: int| 0 <= j < children@.len() ==> (#[trigger] children@[j]).inv(),
                covers(merge_iterator::parts(children@), wholes.take(i as int), lower@, upper@),
            decreases self.state.l0_sstables@.len() - i,
        {
            broadcast use vstd::std_specs::hash::group_hash_axioms;

            let ghost before = children@;
            let ghost whole = tables[layout.l0[i as int]].entries();
            proof {
                assert(layout.l0[i as int] == self.state.l0_sstables@[i as int]);
                assert(wholes[i as int] == whole);
                assert(wholes.take(i + 1) =~= wholes.take(i as int).push(whole));
                bound::lemma_clip(whole, lower@, Bound::Unbounded);
                lemma_clip_covers(whole, lower@, upper@);
            }
            if let Some(sst) = self.state.sstables.get(&self.state.l0_sstables[i]) {
                if table_out_of_range(
                    lower,
                    upper,
                    sst.first_key().key_ref(),
                    sst.last_key().key_ref(),
                ) {
                    proof {
                        lemma_out_of_range(&**sst, lower@, upper@);
                        lemma_covers_skip(
                            merge_iterator::parts(before),
                            wholes.take(i as int),
                            whole,
                            lower@,
                            upper@,
                        );
                    }
                } else {
                    let it: SsTableIterator = seek_table(sst.clone(), lower)?;
                    let ghost p = it.remaining();
                    if it.is_valid() {
                        proof {
                            lemma_covers_push(
                                merge_iterator::parts(before),
                                wholes.take(i as int),
                                p,
                                whole,
                                lower@,
                                upper@,
                            );
                        }
                        children.push(Box::new(it));
                        assert(
                            merge_iterator::parts(children@)
                                =~= merge_iterator::parts(before).push(p)
                        );
                    } else {
                        proof {
                            assert forall|k: KeyView| bound::in_range(
                                k.key,
                                lower@,
                                upper@,
                            ) implies #[trigger] key::lookup(whole, k) is None by {
                                assert(key::lookup(p, k) == key::lookup(whole, k)
                                    || !bound::in_range(
                                    k.key,
                                    lower@,
                                    upper@,
                                ));
                            }
                            lemma_covers_skip(
                                merge_iterator::parts(before),
                                wholes.take(i as int),
                                whole,
                                lower@,
                                upper@,
                            );
                        }
                    }
                }
            }
            i = i + 1;
        }
        assert(wholes.take(i as int) =~= wholes);
        Ok(children)
    }

    /// The levels, as far as they lie behind the lower end of a range.
    fn scan_levels(&self, lower: &Bound<&[u8]>, Ghost(upper): Ghost<Bound<Seq<u8>>>) -> (r: Result<
        Vec<Box<SstConcatIterator>>,
        LsmError,
    >)
        requires
            lsm_storage::layout_wf(self.state.layout(), self.state.sstables@),
        ensures
            r is Ok,
            forall|i: int| 0 <= i < r->Ok_0@.len() ==> (#[trigger] r->Ok_0@[i]).inv(),
            covers(
                merge_iterator::parts(r->Ok_0@),
                lsm_storage::level_parts(self.state.levels_seq(), self.state.sstables@),
                lower@,
                upper,
            ),
    {
        let ghost layout = self.state.layout();
        let ghost tables = self.state.sstables@;
        let ghost wholes = lsm_storage::level_parts(layout.levels, tables);
        let mut children: Vec<Box<SstConcatIterator>> = Vec::new();
        proof {
            assert(covers(merge_iterator::parts(children@), Seq::empty(), lower@, upper));
            assert(wholes.take(0) =~= Seq::empty());
        }
        let mut i: usize = 0;
        while i < self.state.levels.len()
            invariant
                i <= self.state.levels@.len(),
                layout == self.state.layout(),
                tables == self.state.sstables@,
                lsm_storage::layout_wf(layout, tables),
                wholes == lsm_storage::level_parts(layout.levels, tables),
                forall|j: int| 0 <= j < children@.len() ==> (#[trigger] children@[j]).inv(),
                covers(merge_iterator::parts(children@), wholes.take(i as int), lower@, upper),
            decreases self.state.levels@.len() - i,
        {
            let ghost before = children@;
            let ghost level = layout.levels[i as int];
            let ghost whole = lsm_storage::level_entries(level, tables);
            let ids: &[usize] = self.state.levels[i].1.as_slice();
            proof {
                assert(level.1 == ids@);
                assert(lsm_storage::level_wf(level, tables));
                assert(wholes[i as int] == whole);
                assert(wholes.take(i + 1) =~= wholes.take(i as int).push(whole));
                lemma_clip_covers(whole, lower@, upper);
            }
            let ssts: Vec<Arc<SsTable>> = tables_in_order(ids, &self.state.sstables);
            if ssts.len() == 0 {
                proof {
                    assert(whole =~= Seq::empty());
                    lemma_covers_skip(
                        merge_iterator::parts(before),
                        wholes.take(i as int),
                        whole,
                        lower@,
                        upper,
                    );
                }
            } else {
                let it: SstConcatIterator = seek_level(ssts, lower)?;
                let ghost p = it.remaining();
                proof {
                    lemma_covers_push(
                        merge_iterator::parts(before),
                        wholes.take(i as int),
                        p,
                        whole,
                        lower@,
                        upper,
                    );
                }
                children.push(Box::new(it));
                assert(merge_iterator::parts(children@) =~= merge_iterator::parts(before).push(p));
            }
            i = i + 1;
        }
        assert(wholes.take(i as int) =~= wholes);
        Ok(children)
    }

    /// Create an iterator over a range of keys.
    pub fn scan(&self, lower: Bound<&[u8]>, upper: Bound<&[u8]>) -> (r: Result<
        FusedIterator<LsmIterator>,
        LsmError,
    >)
        requires
            self.state.wf(),
        ensures
            r is Ok,
            r->Ok_0.inv(),
            r->Ok_0.steady(),
            r->Ok_0.remaining() == lsm_iterator::visible(
                bound::clip(self.contents(), lower@, upper@),
                Bound::Unbounded,
                u64::MAX,
                None,
            ),
    {
        self.scan_with_ts(lower, upper, u64::MAX)
    }

    /// Create an iterator over a range of keys that shows what was there at a timestamp.
    pub fn scan_with_ts(&self, lower: Bound<&[u8]>, upper: Bound<&[u8]>, read_ts: u64) -> (r: Result<
        FusedIterator<LsmIterator>,
        LsmError,
    >)
        requires
            self.state.wf(),
        ensures
            r is Ok,
            r->Ok_0.inv(),
            r->Ok_0.steady(),
            r->Ok_0.remaining() == lsm_iterator::visible(
                bound::clip(self.contents(), lower@, upper@),
                Bound::Unbounded,
                read_ts,
                None,
            ),
    {
        let mem_children: Vec<Box<MemTableIterator>> = self.scan_memtables(&lower, &upper);
        let sst_children: Vec<Box<SsTableIterator>> = self.scan_l0(&lower, &upper)?;
        let level_children: Vec<Box<SstConcatIterator>> = self.scan_levels(&lower, Ghost(upper@))?;
        let ghost mems = merge_iterator::parts(mem_children@);
        let ghost l0s = merge_iterator::parts(sst_children@);
        let ghost runs = merge_iterator::parts(level_children@);
        let memtable_iter: MergeIterator<MemTableIterator> = MergeIterator::create(mem_children);
        let sst_iter: MergeIterator<SsTableIterator> = MergeIterator::create(sst_children);
        let level_merge: MergeIterator<SstConcatIterator> = MergeIterator::create(level_children);
        let mem_l0: TwoMergeIterator<
            MergeIterator<MemTableIterator>,
            MergeIterator<SsTableIterator>,
        > = TwoMergeIterator::create(memtable_iter, sst_iter)?;
        let final_iter: LsmIteratorInner = TwoMergeIterator::create(mem_l0, level_merge)?;
        let ghost merged = final_iter.remaining();
        proof {
            assert(
                merged
                    == iterators::merge2(
                        iterators::merge2(iterators::merge_all(mems), iterators::merge_all(l0s)),
                        iterators::merge_all(runs),
                    )
            );
            self.lemma_scan_merged(mems, l0s, runs, lower@, upper@);
            lemma_scan_view(merged, self.contents(), lower@, upper@, read_ts);
        }
        let iter: LsmIterator = LsmIterator::new(final_iter, upper.to_owned_bound(), read_ts)?;
        Ok(FusedIterator::new(iter))
    }

    /// The merge of parts that cover the memtables, L0 and the levels covers the whole contents.
    proof fn lemma_scan_merged(
        &self,
        mems: Seq<Seq<Entry>>,
        l0s: Seq<Seq<Entry>>,
        runs: Seq<Seq<Entry>>,
        lower: Bound<Seq<u8>>,
        upper: Bound<Seq<u8>>,
    )
        requires
            self.state.wf(),
            covers(mems, self.state.mem_parts(), lower, upper),
            covers(
                l0s,
                if self.uses_l0() {
                    lsm_storage::l0_parts(self.state.l0_sstables@, self.state.sstables@)
                } else {
                    Seq::empty()
                },
                lower,
                upper,
            ),
            covers(
                runs,
                lsm_storage::level_parts(self.state.levels_seq(), self.state.sstables@),
                lower,
                upper,
            ),
        ensures
            key::sorted(self.contents()),
            covers_one(
                iterators::merge2(
                    iterators::merge2(iterators::merge_all(mems), iterators::merge_all(l0s)),
                    iterators::merge_all(runs),
                ),
                self.contents(),
                lower,
                upper,
            ),
    {
        let merged = iterators::merge2(
            iterators::merge2(iterators::merge_all(mems), iterators::merge_all(l0s)),
            iterators::merge_all(runs),
        );
        let mem_wholes = self.state.mem_parts();
        let l0_wholes = if self.uses_l0() {
            lsm_storage::l0_parts(self.state.l0_sstables@, self.state.sstables@)
        } else {
            Seq::empty()
        };
        let run_wholes = lsm_storage::level_parts(self.state.levels_seq(), self.state.sstables@);
        self.state.lemma_parts_sorted(self.uses_l0());
        let all = self.state.parts(self.uses_l0());
        assert forall|k: KeyView| #[trigger]
            key::lookup(merged, k) == key::lookup(self.contents(), k)
                || !bound::in_range(k.key, lower, upper) by {
            iterators::law_merge_all(mems, k);
            iterators::law_merge_all(l0s, k);
            iterators::law_merge_all(runs, k);
            iterators::law_merge2(iterators::merge_all(mems), iterators::merge_all(l0s), k);
            iterators::law_merge2(
                iterators::merge2(iterators::merge_all(mems), iterators::merge_all(l0s)),
                iterators::merge_all(runs),
                k,
            );
            iterators::law_merge_all(all, k);
            read::lemma_lookup_all_concat(mem_wholes, l0_wholes + run_wholes, k);
            read::lemma_lookup_all_concat(l0_wholes, run_wholes, k);
            assert(iterators::lookup_all(mems, k) == iterators::lookup_all(mem_wholes, k)
                || !bound::in_range(
                k.key,
                lower,
                upper,
            ));
            assert(iterators::lookup_all(l0s, k) == iterators::lookup_all(l0_wholes, k)
                || !bound::in_range(
                k.key,
                lower,
                upper,
            ));
            assert(iterators::lookup_all(runs, k) == iterators::lookup_all(run_wholes, k)
                || !bound::in_range(
                k.key,
                lower,
                upper,
            ));
        }
        assert forall|k: KeyView| !bound::above_lower(k.key, lower) implies #[trigger] key::lookup(
            merged,
            k,
        ) is None by {
            iterators::law_merge_all(mems, k);
            iterators::law_merge_all(l0s, k);
            iterators::law_merge_all(runs, k);
            iterators::law_merge2(iterators::merge_all(mems), iterators::merge_all(l0s), k);
            iterators::law_merge2(
                iterators::merge2(iterators::merge_all(mems), iterators::merge_all(l0s)),
                iterators::merge_all(runs),
                k,
            );
            assert(iterators::lookup_all(mems, k) is None);
            assert(iterators::lookup_all(l0s, k) is None);
            assert(iterators::lookup_all(runs, k) is None);
        }
        let k = key::user_key(Seq::empty());
        iterators::law_merge_all(mems, k);
        iterators::law_merge_all(l0s, k);
        iterators::law_merge_all(runs, k);
        iterators::law_merge2(iterators::merge_all(mems), iterators::merge_all(l0s), k);
        iterators::law_merge2(
            iterators::merge2(iterators::merge_all(mems), iterators::merge_all(l0s)),
            iterators::merge_all(runs),
            k,
        );
        iterators::law_merge_all(all, k);
    }

    /// Get what a key was given at a timestamp.
    pub fn get_with_ts(&self, key: &[u8], read_ts: u64) -> (r: Result<Option<Vec<u8>>, LsmError>)
        requires
            self.state.wf(),
        ensures
            r is Ok,
            lsm_storage::value_view(r->Ok_0)
                == lsm_iterator::live(lsm_iterator::snapshot(self.contents(), key@, read_ts)),
    {
        let it: FusedIterator<LsmIterator> = self.scan_with_ts(
            Bound::Included(key),
            Bound::Included(key),
            read_ts,
        )?;
        let ghost k = key@;
        let ghost range = Bound::Included(k);
        let ghost all = self.contents();
        let ghost c = bound::clip(all, range, range);
        let ghost v = lsm_iterator::visible(c, Bound::Unbounded, read_ts, None);
        proof {
            self.state.lemma_parts_sorted(self.uses_l0());
            iterators::law_merge_all(self.state.parts(self.uses_l0()), key::user_key(k));
            bound::lemma_clip(all, range, range);
            lsm_iterator::law_visible(c, Bound::Unbounded, read_ts, k);
            assert forall|x: KeyView| x.key == k
                implies #[trigger] key::lookup(all, x) == key::lookup(
                c,
                x,
            ) by {
                key::lemma_bytes_trichotomy(k, k);
                assert(key::lookup(c, x) == if bound::in_range(x.key, range, range) {
                    key::lookup(all, x)
                } else {
                    None
                });
            }
            lemma_snapshot_same(all, c, k, read_ts);
            assert(
                key::lookup(v, key::user_key(k))
                    == lsm_iterator::live(lsm_iterator::snapshot(all, k, read_ts))
            );
        }
        if it.is_valid() {
            proof {
                let x = v[0].key;
                key::lemma_lookup(v, x);
                if x.ts != TS_DEFAULT {
                    lemma_visible_plain(c, Bound::Unbounded, read_ts, None, x);
                }
                assert(x =~= key::user_key(x.key));
                lsm_iterator::law_visible(c, Bound::Unbounded, read_ts, x.key);
                if x.key != k {
                    key::lemma_bytes_trichotomy(x.key, k);
                    assert forall|i: int| 0 <= i < c.len()
                        implies #[trigger] c[i].key.key != x.key by {
                        let y = c[i].key;
                        key::lemma_lookup(c, y);
                        assert(key::lookup(c, y) == if bound::in_range(y.key, range, range) {
                            key::lookup(all, y)
                        } else {
                            None
                        });
                    }
                    lsm_iterator::lemma_snapshot_none(c, x.key, read_ts);
                }
            }
            Ok(Some(copy_bytes(it.value())))
        } else {
            Ok(None)
        }
    }
}

impl LsmStorageState {
    /// All parts of a well-formed state are sorted.
    pub proof fn lemma_parts_sorted(&self, with_l0: bool)
        requires
            self.wf(),
        ensures
            forall|i: int|
                0 <= i < self.parts(with_l0).len()
                    ==> key::sorted(#[trigger] self.parts(with_l0)[i]),
            key::sorted(self.contents(with_l0)),
    {
        let ps = self.parts(with_l0);
        let mems = self.mem_parts();
        let layout = self.layout();
        let tables = self.sstables@;
        let l0 = if with_l0 {
            lsm_storage::l0_parts(layout.l0, tables)
        } else {
            Seq::empty()
        };
        let runs = lsm_storage::level_parts(layout.levels, tables);
        assert forall|i: int| 0 <= i < ps.len() implies key::sorted(#[trigger] ps[i]) by {
            if i == 0 {
                mem_table::lemma_entries_sorted(&self.memtable);
            } else if i < mems.len() {
                assert(ps[i] == self.imm_memtables@[i - 1].entries());
                assert(self.imm_memtables@[i - 1].wf());
                mem_table::lemma_entries_sorted(&*self.imm_memtables@[i - 1]);
            } else if i < mems.len() + l0.len() {
                let j = i - mems.len();
                assert(ps[i] == l0[j]);
                assert(tables[layout.l0[j]].wf());
            } else {
                let j = i - mems.len() - l0.len();
                assert(ps[i] == runs[j]);
                assert(lsm_storage::level_wf(layout.levels[j], tables));
            }
        }
        iterators::law_merge_all(ps, key::user_key(Seq::empty()));
    }
}

/// The tables with these ids.
pub(crate) fn tables_in_order(ids: &[usize], tables: &HashMap<usize, Arc<SsTable>>) -> (r: Vec<
    Arc<SsTable>,
>)
    requires
        forall|i: int| 0 <= i < ids@.len() ==> tables@.contains_key(#[trigger] ids@[i]),
    ensures
        r@ == lsm_storage::tables_of(ids@, tables@),
{
    let mut r: Vec<Arc<SsTable>> = Vec::new();
    let mut i: usize = 0;
    while i < ids.len()
        invariant
            i <= ids@.len(),
            forall|j: int| 0 <= j < ids@.len() ==> tables@.contains_key(#[trigger] ids@[j]),
            r@.len() == i,
            forall|j: int| 0 <= j < i ==> #[trigger] r@[j] == tables@[ids@[j]],
        decreases ids@.len() - i,
    {
        broadcast use vstd::std_specs::hash::group_hash_axioms;

        let sst: &Arc<SsTable> = tables.get(&ids[i]).unwrap();
        r.push(sst.clone());
        i = i + 1;
    }
    assert(r@ =~= lsm_storage::tables_of(ids@, tables@));
    r
}

} // verus!
