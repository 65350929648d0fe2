//! Iterators over entries, and what it means to merge them.
use crate::error::LsmError;
use crate::key::{self, Entry, KeyView, StorageKey, TS_DEFAULT};
use vstd::prelude::*;

pub mod concat_iterator;
pub mod merge_iterator;
pub mod two_merge_iterator;

verus! {

/// An iterator over entries. `remaining` tells the entries from the current one on.
pub trait StorageIterator {
    type KeyType<'a>: StorageKey where Self: 'a;

    /// The iterator is in a state that its methods can work on.
    spec fn inv(&self) -> bool;

    /// The entries from the current one on.
    spec fn remaining(&self) -> Seq<Entry>;

    /// No step from here on fails.
    spec fn steady(&self) -> bool;

    /// `next` may be called past the last entry, and then stays there.
    spec fn fused(&self) -> bool;

    /// The number of iterators at work.
    spec fn active(&self) -> usize;

    /// The value of the current entry.
    fn value(&self) -> (v: &[u8])
        requires
            self.inv(),
            self.remaining().len() > 0,
        ensures
            v@ == self.remaining()[0].value,
    ;

    /// The key of the current entry.
    fn key<'a>(&'a self) -> (k: Self::KeyType<'a>)
        requires
            self.inv(),
            self.remaining().len() > 0,
        ensures
            k.key_view() == self.remaining()[0].key,
    ;

    /// Whether there is a current entry.
    fn is_valid(&self) -> (r: bool)
        requires
            self.inv(),
        ensures
            r == (self.remaining().len() > 0),
    ;

    /// Moves to the next entry.
    fn next(&mut self) -> (r: Result<(), LsmError>)
        requires
            old(self).inv(),
            old(self).remaining().len() > 0 || old(self).fused(),
        ensures
            old(self).steady() ==> r is Ok,
            r is Ok ==> {
                &&& final(self).inv()
                &&& final(self).remaining() == past_first(old(self).remaining())
                &&& old(self).steady() ==> final(self).steady()
            },
    ;

    /// The number of iterators at work.
    fn num_active_iterators(&self) -> (n: usize)
        ensures
            n == self.active(),
    ;
}

/// The entries behind the first one.
pub open spec fn past_first(s: Seq<Entry>) -> Seq<Entry> {
    if s.len() > 0 {
        s.drop_first()
    } else {
        s
    }
}

/// An iterator before, between and after calls of `next`, until it has no current entry.
pub open spec fn walked<I: StorageIterator>(steps: Seq<I>) -> bool {
    &&& steps.len() > 0
    &&& forall|i: int| 0 <= i < steps.len() - 1 ==> (#[trigger] steps[i]).remaining().len() > 0
    &&& forall|i: int|
        0 < i < steps.len() ==> (#[trigger] steps[i]).remaining() == past_first(
            steps[i - 1].remaining(),
        )
    &&& steps.last().remaining().len() == 0
}

/// The entries at which an iterator stood.
pub open spec fn shown<I: StorageIterator>(steps: Seq<I>) -> Seq<Entry> {
    Seq::new((steps.len() - 1) as nat, |i: int| steps[i].remaining()[0])
}

/// Stepping an iterator to its end shows the entries that it had left, one after the other.
pub proof fn law_walk_shows<I: StorageIterator>(steps: Seq<I>)
    requires
        walked(steps),
    ensures
        shown(steps) == steps[0].remaining(),
    decreases steps.len(),
{
    let all = steps[0].remaining();
    if steps.len() == 1 {
        assert(steps.last() == steps[0]);
        assert(shown(steps) =~= all);
    } else {
        let rest = steps.drop_first();
        assert forall|i: int| 0 <= i < rest.len() - 1 implies (
        #[trigger] rest[i]).remaining().len() > 0 by {
            assert(rest[i] == steps[i + 1]);
        }
        assert forall|i: int| 0 < i < rest.len() implies (#[trigger] rest[i]).remaining()
            == past_first(rest[i - 1].remaining()) by {
            assert(rest[i] == steps[i + 1]);
        }
        assert(rest.last() == steps.last());
        law_walk_shows(rest);
        assert(rest[0] == steps[1]);
        assert(steps[0].remaining().len() > 0);
        assert(steps[1].remaining() == past_first(steps[0].remaining()));
        assert forall|i: int| 0 <= i < all.len() implies shown(steps)[i] == all[i] by {
            if i > 0 {
                assert(shown(steps)[i] == shown(rest)[i - 1]);
                assert(rest[i - 1] == steps[i]);
            }
        }
        assert(shown(rest).len() + 1 == all.len());
        assert(shown(steps) =~= all);
    }
}

/// The entries of `a` and of `b`, in the order of their keys. Where both begin with the same key,
/// the entry of `a` is taken and that of `b` is passed over.
pub open spec fn merge2(a: Seq<Entry>, b: Seq<Entry>) -> Seq<Entry>
    decreases a.len() + b.len(),
{
    if a.len() == 0 {
        b
    } else if b.len() == 0 {
        a
    } else if a[0].key == b[0].key {
        seq![a[0]] + merge2(a.drop_first(), b.drop_first())
    } else if key::key_lt(a[0].key, b[0].key) {
        seq![a[0]] + merge2(a.drop_first(), b)
    } else {
        seq![b[0]] + merge2(a, b.drop_first())
    }
}

/// The entries of several sequences, in the order of their keys; of equal keys the entry of the
/// earliest sequence is taken.
pub open spec fn merge_all(ss: Seq<Seq<Entry>>) -> Seq<Entry>
    decreases ss.len(),
{
    if ss.len() == 0 {
        Seq::empty()
    } else {
        merge2(ss[0], merge_all(ss.drop_first()))
    }
}

/// A merge of sequences that lie after a key lies after it.
pub proof fn lemma_merge2_after(a: Seq<Entry>, b: Seq<Entry>, k: KeyView)
    requires
        key::all_after(a, k),
        key::all_after(b, k),
    ensures
        key::all_after(merge2(a, b), k),
    decreases a.len() + b.len(),
{
    if a.len() > 0 && b.len() > 0 {
        let ta = a.drop_first();
        let tb = b.drop_first();
        assert(key::all_after(ta, k)) by {
            assert forall|i: int| 0 <= i < ta.len()
                implies key::key_lt(k, #[trigger] ta[i].key) by {
                assert(ta[i] == a[i + 1]);
            }
        }
        assert(key::all_after(tb, k)) by {
            assert forall|i: int| 0 <= i < tb.len()
                implies key::key_lt(k, #[trigger] tb[i].key) by {
                assert(tb[i] == b[i + 1]);
            }
        }
        assert(key::key_lt(k, a[0].key));
        assert(key::key_lt(k, b[0].key));
        if a[0].key == b[0].key {
            lemma_merge2_after(ta, tb, k);
            key::lemma_all_after_cons(a[0], merge2(ta, tb), k);
        } else if key::key_lt(a[0].key, b[0].key) {
            lemma_merge2_after(ta, b, k);
            key::lemma_all_after_cons(a[0], merge2(ta, b), k);
        } else {
            lemma_merge2_after(a, tb, k);
            key::lemma_all_after_cons(b[0], merge2(a, tb), k);
        }
    }
}

/// Merging two sorted sequences gives a sorted sequence, in which a key has the value of the
/// first sequence, or, if it does not occur there, that of the second.
pub proof fn law_merge2(a: Seq<Entry>, b: Seq<Entry>, k: KeyView)
    requires
        key::sorted(a),
        key::sorted(b),
    ensures
        key::sorted(merge2(a, b)),
        key::lookup(merge2(a, b), k) == match key::lookup(a, k) {
            Some(v) => Some(v),
            None => key::lookup(b, k),
        },
    decreases a.len() + b.len(),
{
    broadcast use key::group_key_order;

    if a.len() > 0 && b.len() > 0 {
        let ta = a.drop_first();
        let tb = b.drop_first();
        key::lemma_sorted_drop_first(a);
        key::lemma_sorted_drop_first(b);
        if a[0].key == b[0].key {
            law_merge2(ta, tb, k);
            let m = merge2(ta, tb);
            lemma_merge2_after(ta, tb, a[0].key);
            key::lemma_sorted_cons(a[0], m);
            assert((seq![a[0]] + m).drop_first() =~= m);
        } else if key::key_lt(a[0].key, b[0].key) {
            law_merge2(ta, b, k);
            let m = merge2(ta, b);
            key::lemma_all_after_le(tb, a[0].key, b[0].key);
            assert(key::all_after(b, a[0].key)) by {
                assert forall|i: int| 0 <= i < b.len() implies key::key_lt(
                    a[0].key,
                    #[trigger] b[i].key,
                ) by {
                    if i > 0 {
                        assert(b[i] == tb[i - 1]);
                    }
                }
            }
            lemma_merge2_after(ta, b, a[0].key);
            key::lemma_sorted_cons(a[0], m);
            assert((seq![a[0]] + m).drop_first() =~= m);
        } else {
            law_merge2(a, tb, k);
            let m = merge2(a, tb);
            assert(key::all_after(a, b[0].key)) by {
                key::lemma_all_after_le(ta, b[0].key, a[0].key);
                assert forall|i: int| 0 <= i < a.len() implies key::key_lt(
                    b[0].key,
                    #[trigger] a[i].key,
                ) by {
                    if i > 0 {
                        assert(a[i] == ta[i - 1]);
                    }
                }
            }
            lemma_merge2_after(a, tb, b[0].key);
            key::lemma_sorted_cons(b[0], m);
            assert((seq![b[0]] + m).drop_first() =~= m);
            if k == b[0].key {
                key::lemma_lookup_before(a, k);
            }
        }
    }
}

/// The value of `k` in the first of several sequences in which it occurs.
pub open spec fn lookup_all(ss: Seq<Seq<Entry>>, k: KeyView) -> Option<Seq<u8>>
    decreases ss.len(),
{
    if ss.len() == 0 {
        None
    } else {
        match key::lookup(ss[0], k) {
            Some(v) => Some(v),
            None => lookup_all(ss.drop_first(), k),
        }
    }
}

/// Merging sorted sequences gives a sorted sequence, in which a key has the value of the first
/// sequence in which it occurs.
pub proof fn law_merge_all(ss: Seq<Seq<Entry>>, k: KeyView)
    requires
        forall|i: int| 0 <= i < ss.len() ==> key::sorted(#[trigger] ss[i]),
    ensures
        key::sorted(merge_all(ss)),
        key::lookup(merge_all(ss), k) == lookup_all(ss, k),
    decreases ss.len(),
{
    if ss.len() > 0 {
        let t = ss.drop_first();
        assert forall|i: int| 0 <= i < t.len() implies key::sorted(#[trigger] t[i]) by {
            assert(t[i] == ss[i + 1]);
        }
        law_merge_all(t, k);
        law_merge2(ss[0], merge_all(t), k);
    }
}

/// A merge of plain user keys has plain user keys.
pub proof fn lemma_merge2_plain(a: Seq<Entry>, b: Seq<Entry>)
    requires
        key::plain_keys(a),
        key::plain_keys(b),
    ensures
        key::plain_keys(merge2(a, b)),
    decreases a.len() + b.len(),
{
    if a.len() > 0 && b.len() > 0 {
        let ta = a.drop_first();
        let tb = b.drop_first();
        assert(key::plain_keys(ta)) by {
            assert forall|i: int| 0 <= i < ta.len() implies (#[trigger] ta[i]).key.ts
                == TS_DEFAULT by {
                assert(ta[i] == a[i + 1]);
            }
        }
        assert(key::plain_keys(tb)) by {
            assert forall|i: int| 0 <= i < tb.len() implies (#[trigger] tb[i]).key.ts
                == TS_DEFAULT by {
                assert(tb[i] == b[i + 1]);
            }
        }
        assert(a[0].key.ts == TS_DEFAULT);
        assert(b[0].key.ts == TS_DEFAULT);
        lemma_merge2_plain(ta, tb);
        lemma_merge2_plain(ta, b);
        lemma_merge2_plain(a, tb);
    }
}

} // verus!
