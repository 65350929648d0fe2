//! Merging many iterators.
use crate::error::LsmError;
use crate::iterators::{self, StorageIterator};
use crate::key::{self, Entry, KeyView, StorageKey};
use vstd::prelude::*;

verus! {

/// The sequences without their first entries where those have the key `k`.
pub open spec fn pop_key(ss: Seq<Seq<Entry>>, k: KeyView) -> Seq<Seq<Entry>> {
    ss.map_values(
        |s: Seq<Entry>|
            if s.len() > 0 && s[0].key == k {
                s.drop_first()
            } else {
                s
            },
    )
}

/// The sequence `c` is the earliest of those that begin with the smallest key.
pub open spec fn leads(ss: Seq<Seq<Entry>>, c: int) -> bool {
    &&& 0 <= c < ss.len()
    &&& ss[c].len() > 0
    &&& forall|j: int|
        0 <= j < ss.len() && (#[trigger] ss[j]).len() > 0
            ==> key::key_le(ss[c][0].key, ss[j][0].key)
    &&& forall|j: int|
        0 <= j < c && (#[trigger] ss[j]).len() > 0 ==> key::key_lt(ss[c][0].key, ss[j][0].key)
}

/// A merge is empty if all parts are.
pub proof fn lemma_merge_all_empty(ss: Seq<Seq<Entry>>)
    ensures
        iterators::merge_all(ss).len() == 0 <==> (forall|i: int|
            0 <= i < ss.len() ==> (#[trigger] ss[i]).len() == 0),
    decreases ss.len(),
{
    if ss.len() > 0 {
        let t = ss.drop_first();
        lemma_merge_all_empty(t);
        if iterators::merge_all(ss).len() == 0 {
            assert forall|i: int| 0 <= i < ss.len() implies (#[trigger] ss[i]).len() == 0 by {
                if i > 0 {
                    assert(ss[i] == t[i - 1]);
                }
            }
        } else if forall|i: int| 0 <= i < ss.len() ==> (#[trigger] ss[i]).len() == 0 {
            assert forall|i: int| 0 <= i < t.len() implies (#[trigger] t[i]).len() == 0 by {
                assert(t[i] == ss[i + 1]);
            }
            assert(ss[0].len() == 0);
        }
    }
}

/// A merge that is not empty has a leader.
proof fn lemma_leader_exists(ss: Seq<Seq<Entry>>) -> (c: int)
    requires
        iterators::merge_all(ss).len() > 0,
    ensures
        leads(ss, c),
    decreases ss.len(),
{
    broadcast use key::group_key_order;

    let t = ss.drop_first();
    assert forall|i: int| 0 < i < ss.len() implies #[trigger] ss[i] == t[i - 1] by {}
    if iterators::merge_all(t).len() == 0 {
        lemma_merge_all_empty(t);
        0
    } else {
        let d = lemma_leader_exists(t);
        if ss[0].len() > 0 && key::key_le(ss[0][0].key, t[d][0].key) {
            assert forall|j: int| 0 <= j < ss.len() && (#[trigger] ss[j]).len() > 0
                implies key::key_le(
                ss[0][0].key,
                ss[j][0].key,
            ) by {
                if j > 0 {
                    assert(ss[j] == t[j - 1]);
                }
            }
            0
        } else {
            assert(ss[d + 1] == t[d]);
            assert forall|j: int| 0 <= j < ss.len() && (#[trigger] ss[j]).len() > 0
                implies key::key_le(
                ss[d + 1][0].key,
                ss[j][0].key,
            ) by {
                if j > 0 {
                    assert(ss[j] == t[j - 1]);
                }
            }
            assert forall|j: int| 0 <= j < d + 1 && (#[trigger] ss[j]).len() > 0
                implies key::key_lt(
                ss[d + 1][0].key,
                ss[j][0].key,
            ) by {
                if j > 0 {
                    assert(ss[j] == t[j - 1]);
                }
            }
            d + 1
        }
    }
}

/// A merge begins with the first entry of its leader; without it, it is the merge of the parts
/// without the entries of that key.
pub proof fn lemma_merge_all_step(ss: Seq<Seq<Entry>>, c: int)
    requires
        leads(ss, c),
    ensures
        iterators::merge_all(ss).len() > 0,
        iterators::merge_all(ss)[0] == ss[c][0],
        iterators::merge_all(pop_key(ss, ss[c][0].key)) == iterators::merge_all(ss).drop_first(),
    decreases ss.len(),
{
    broadcast use key::group_key_order;

    let t = ss.drop_first();
    let k = ss[c][0].key;
    let h = ss[0];
    let rest = iterators::merge_all(t);
    let popped = pop_key(ss, k);
    assert(popped.drop_first() =~= pop_key(t, k));
    assert forall|i: int| 0 < i < ss.len() implies #[trigger] ss[i] == t[i - 1] by {}
    if c == 0 {
        if rest.len() == 0 {
            lemma_merge_all_empty(t);
            assert(pop_key(t, k) =~= t);
        } else {
            let d = lemma_leader_exists(t);
            assert(ss[d + 1] == t[d]);
            lemma_merge_all_step(t, d);
            if t[d][0].key == k {
                assert(
                    iterators::merge_all(ss).drop_first()
                        =~= iterators::merge2(h.drop_first(), rest.drop_first())
                );
            } else {
                assert(key::key_lt(k, t[d][0].key));
                assert(pop_key(t, k) =~= t) by {
                    assert forall|j: int| 0 <= j < t.len() implies pop_key(t, k)[j] == t[j] by {
                        if t[j].len() > 0 {
                            assert(key::key_le(t[d][0].key, t[j][0].key));
                        }
                    }
                }
                assert(
                    iterators::merge_all(ss).drop_first()
                        =~= iterators::merge2(h.drop_first(), rest)
                );
            }
        }
        assert(iterators::merge_all(ss).drop_first() =~= iterators::merge_all(popped));
    } else {
        assert(t[c - 1] == ss[c]);
        assert(leads(t, c - 1)) by {
            assert forall|j: int| 0 <= j < t.len() && (#[trigger] t[j]).len() > 0
                implies key::key_le(
                t[c - 1][0].key,
                t[j][0].key,
            ) by {
                assert(t[j] == ss[j + 1]);
            }
            assert forall|j: int| 0 <= j < c - 1 && (#[trigger] t[j]).len() > 0 implies key::key_lt(
                t[c - 1][0].key,
                t[j][0].key,
            ) by {
                assert(t[j] == ss[j + 1]);
            }
        }
        lemma_merge_all_step(t, c - 1);
        assert(popped[0] == h);
        assert(iterators::merge_all(ss).drop_first() =~= iterators::merge2(h, rest.drop_first()));
    }
}

/// Merges iterators of one type. If a key occurs in several of them, only the entry of the one
/// with the smallest index is produced.
#[derive(Debug)]
pub struct MergeIterator<I> {
    pub iters: Vec<Box<I>>,
    /// The iterator with the current entry.
    pub current: Option<usize>,
}

/// What the iterators have yet to produce.
pub open spec fn parts<I: StorageIterator>(iters: Seq<Box<I>>) -> Seq<Seq<Entry>> {
    iters.map_values(|i: Box<I>| i.remaining())
}

impl<I: 'static + StorageIterator> MergeIterator<I> {
    pub open spec fn parts_inv(&self) -> bool {
        forall|i: int| 0 <= i < self.iters@.len() ==> (#[trigger] self.iters@[i]).inv()
    }

    /// `current` tells the leader, if there is one.
    pub open spec fn placed(&self) -> bool {
        match self.current {
            Some(c) => leads(parts(self.iters@), c as int),
            None => forall|i: int|
                0 <= i < self.iters@.len() ==> (#[trigger] self.iters@[i]).remaining().len() == 0,
        }
    }

    /// Merges the iterators.
    pub fn create(iters: Vec<Box<I>>) -> (m: Self)
        requires
            forall|i: int| 0 <= i < iters@.len() ==> (#[trigger] iters@[i]).inv(),
        ensures
            m.parts_inv(),
            m.placed(),
            m.iters == iters,
    {
        let mut m = MergeIterator { iters, current: None };
        m.find_leader();
        m
    }

    /// Finds the iterator with the current entry.
    fn find_leader(&mut self)
        requires
            old(self).parts_inv(),
        ensures
            final(self).placed(),
            final(self).iters == old(self).iters,
    {
        let ghost ps = parts(self.iters@);
        let mut best: Option<usize> = None;
        let mut i: usize = 0;
        while i < self.iters.len()
            invariant
                i <= self.iters@.len(),
                self.iters == old(self).iters,
                self.parts_inv(),
                ps == parts(self.iters@),
                best matches Some(c) ==> {
                    &&& c < i
                    &&& leads(ps.take(i as int), c as int)
                },
                best is None ==> forall|j: int| 0 <= j < i ==> (#[trigger] ps[j]).len() == 0,
            decreases self.iters@.len() - i,
        {
            broadcast use key::group_key_order;

            assert(self.iters@[i as int].inv());
            assert(ps[i as int] == self.iters@[i as int].remaining());
            let ghost old_best = best;
            if self.iters[i].is_valid() {
                match best {
                    None => {
                        best = Some(i);
                    },
                    Some(c) => {
                        assert(self.iters@[c as int].inv());
                        assert(ps[c as int] == self.iters@[c as int].remaining());
                        assert(ps.take(i as int)[c as int] == ps[c as int]);
                        if self.iters[i].key().less(&self.iters[c].key()) {
                            best = Some(i);
                        }
                    },
                }
            }
            proof {
                let t = ps.take(i + 1);
                let s = ps.take(i as int);
                assert forall|j: int| 0 <= j < i implies #[trigger] t[j] == s[j] by {}
                assert(t[i as int] == ps[i as int]);
                if let Some(d) = best {
                    assert forall|j: int| 0 <= j < t.len() && (#[trigger] t[j]).len() > 0
                        implies key::key_le(
                        t[d as int][0].key,
                        t[j][0].key,
                    ) by {
                        if j < i {
                            assert(t[j] == s[j]);
                            assert(t[j] == ps[j]);
                        }
                    }
                    assert forall|j: int| 0 <= j < d && (#[trigger] t[j]).len() > 0
                        implies key::key_lt(
                        t[d as int][0].key,
                        t[j][0].key,
                    ) by {
                        assert(t[j] == s[j]);
                        assert(t[j] == ps[j]);
                    }
                    assert(leads(t, d as int));
                }
            }
            i = i + 1;
        }
        self.current = best;
        proof {
            assert(ps.take(i as int) =~= ps);
            if best is None {
                assert forall|j: int| 0 <= j < self.iters@.len() implies (
                #[trigger] self.iters@[j]).remaining().len() == 0 by {
                    assert(ps[j].len() == 0);
                }
            }
        }
    }
}

impl<I: 'static + StorageIterator> StorageIterator for MergeIterator<I> {
    type KeyType<'a> = I::KeyType<'a>;

    open spec fn inv(&self) -> bool {
        self.parts_inv() && self.placed()
    }

    open spec fn remaining(&self) -> Seq<Entry> {
        iterators::merge_all(parts(self.iters@))
    }

    open spec fn steady(&self) -> bool {
        forall|i: int| 0 <= i < self.iters@.len() ==> (#[trigger] self.iters@[i]).steady()
    }

    open spec fn fused(&self) -> bool {
        false
    }

    open spec fn active(&self) -> usize {
        1
    }

    fn key<'a>(&'a self) -> (k: Self::KeyType<'a>) {
        proof {
            lemma_current(*self);
        }
        let c: usize = self.current.unwrap();
        assert(self.iters@[c as int].inv());
        self.iters[c].key()
    }

    fn value(&self) -> (v: &[u8]) {
        proof {
            lemma_current(*self);
        }
        let c: usize = self.current.unwrap();
        assert(self.iters@[c as int].inv());
        self.iters[c].value()
    }

    fn is_valid(&self) -> (r: bool) {
        proof {
            if self.remaining().len() > 0 {
                lemma_current(*self);
            } else if self.current is Some {
                lemma_merge_all_step(parts(self.iters@), self.current->Some_0 as int);
            }
        }
        self.current.is_some()
    }

    fn next(&mut self) -> (r: Result<(), LsmError>) {
        proof {
            lemma_current(*self);
        }
        let c: usize = self.current.unwrap();
        let ghost ps = parts(self.iters@);
        let ghost k = ps[c as int][0].key;
        let n: usize = self.iters.len();
        let mut hit: Vec<bool> = Vec::new();
        let mut i: usize = 0;
        while i < n
            invariant
                i <= n,
                n == self.iters@.len(),
                c < n,
                self.parts_inv(),
                ps == parts(self.iters@),
                ps[c as int].len() > 0,
                k == ps[c as int][0].key,
                hit@.len() == i,
                forall|j: int|
                    0 <= j < i ==> #[trigger] hit@[j] == (ps[j].len() > 0 && ps[j][0].key == k),
            decreases n - i,
        {
            assert(self.iters@[i as int].inv());
            assert(self.iters@[c as int].inv());
            assert(ps[i as int] == self.iters@[i as int].remaining());
            assert(ps[c as int] == self.iters@[c as int].remaining());
            let same: bool = if self.iters[i].is_valid() {
                self.iters[i].key().same(&self.iters[c].key())
            } else {
                false
            };
            hit.push(same);
            i = i + 1;
        }
        let ghost popped = pop_key(ps, k);
        let ghost was_steady = self.steady();
        let mut i: usize = 0;
        while i < n
            invariant
                i <= n,
                n == self.iters@.len(),
                n == ps.len(),
                hit@.len() == n,
                self.parts_inv(),
                popped == pop_key(ps, k),
                was_steady ==> self.steady(),
                was_steady == old(self).steady(),
                forall|j: int|
                    0 <= j < n ==> #[trigger] hit@[j] == (ps[j].len() > 0 && ps[j][0].key == k),
                forall|j: int|
                    0 <= j < n ==> (#[trigger] self.iters@[j]).remaining() == if j < i {
                        popped[j]
                    } else {
                        ps[j]
                    },
            decreases n - i,
        {
            assert(self.iters@[i as int].inv());
            assert(hit@[i as int] == (ps[i as int].len() > 0 && ps[i as int][0].key == k));
            let ghost before = self.iters@;
            if hit[i] {
                assert(was_steady ==> self.iters@[i as int].steady());
                self.iters[i].next()?;
                assert(forall|j: int|
                    0 <= j < n && j != i ==> #[trigger] self.iters@[j] == before[j]);
            }
            i = i + 1;
        }
        assert(parts(self.iters@) =~= popped);
        proof {
            lemma_merge_all_step(ps, c as int);
        }
        self.find_leader();
        Ok(())
    }

    fn num_active_iterators(&self) -> (n: usize) {
        1
    }
}

/// While there is an entry, `current` tells where it is.
proof fn lemma_current<I: 'static + StorageIterator>(m: MergeIterator<I>)
    requires
        m.parts_inv(),
        m.placed(),
        m.remaining().len() > 0,
    ensures
        m.current is Some,
        leads(parts(m.iters@), m.current->Some_0 as int),
        m.remaining()[0] == m.iters@[m.current->Some_0 as int].remaining()[0],
{
    lemma_merge_all_empty(parts(m.iters@));
    if m.current is None {
        assert forall|i: int| 0 <= i < parts(m.iters@).len() implies (#[trigger] parts(
            m.iters@,
        )[i]).len() == 0 by {
            assert(m.iters@[i].remaining().len() == 0);
        }
    } else {
        lemma_merge_all_step(parts(m.iters@), m.current->Some_0 as int);
    }
}

} // verus!
