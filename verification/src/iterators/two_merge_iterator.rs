//! Merging two iterators.
use crate::error::LsmError;
use crate::iterators::{self, StorageIterator};
use crate::key::{self, Entry, KeyView, StorageKey};
use vstd::prelude::*;

verus! {

/// Merges two iterators of different types into one. If the two iterators have the same key, only
/// produces the key once and prefers the entry from A.
#[derive(Debug)]
pub struct TwoMergeIterator<A, B> {
    pub a: A,
    pub b: B,
    pub current_is_a: bool,
    pub valid: bool,
}

impl<
    A: 'static + StorageIterator,
    B: 'static + for <'a>StorageIterator<KeyType<'a> = A::KeyType<'a>>,
> TwoMergeIterator<A, B> {
    /// Both iterators can be worked on.
    pub open spec fn parts_inv(&self) -> bool {
        self.a.inv() && self.b.inv()
    }

    /// The entries that the merge has yet to produce.
    pub open spec fn merged(&self) -> Seq<Entry> {
        iterators::merge2(self.a.remaining(), self.b.remaining())
    }

    /// The flags tell where the current entry is.
    pub open spec fn placed(&self) -> bool {
        let a = self.a.remaining();
        let b = self.b.remaining();
        &&& self.valid == (a.len() > 0 || b.len() > 0)
        &&& self.valid ==> (self.current_is_a == (a.len() > 0 && (b.len() == 0 || key::key_le(
            a[0].key,
            b[0].key,
        ))))
    }

    /// Merges `a` and `b`.
    pub fn create(a: A, b: B) -> (r: Result<Self, LsmError>)
        requires
            a.inv(),
            b.inv(),
        ensures
            r is Ok,
            r->Ok_0.parts_inv(),
            r->Ok_0.placed(),
            r->Ok_0.a == a,
            r->Ok_0.b == b,
    {
        let mut iter = TwoMergeIterator { a, b, current_is_a: true, valid: false };
        iter.advance_to_valid()?;
        Ok(iter)
    }

    /// Finds out which iterator has the current entry.
    fn advance_to_valid(&mut self) -> (r: Result<(), LsmError>)
        requires
            old(self).parts_inv(),
        ensures
            r is Ok,
            final(self).placed(),
            final(self).a == old(self).a,
            final(self).b == old(self).b,
    {
        self.valid = false;
        let a_valid: bool = self.a.is_valid();
        let b_valid: bool = self.b.is_valid();
        if !a_valid && !b_valid {
            return Ok(());
        }
        self.valid = true;
        if a_valid && !b_valid {
            self.current_is_a = true;
            return Ok(());
        }
        if !a_valid && b_valid {
            self.current_is_a = false;
            return Ok(());
        }
        let b_first: bool = self.b.key().less(&self.a.key());
        self.current_is_a = !b_first;
        Ok(())
    }
}

impl<
    A: 'static + StorageIterator,
    B: 'static + for <'a>StorageIterator<KeyType<'a> = A::KeyType<'a>>,
> StorageIterator for TwoMergeIterator<A, B> {
    type KeyType<'a> = A::KeyType<'a>;

    open spec fn inv(&self) -> bool {
        self.parts_inv() && self.placed()
    }

    open spec fn remaining(&self) -> Seq<Entry> {
        self.merged()
    }

    open spec fn steady(&self) -> bool {
        self.a.steady() && self.b.steady()
    }

    open spec fn fused(&self) -> bool {
        false
    }

    open spec fn active(&self) -> usize {
        1
    }

    fn key<'a>(&'a self) -> (k: Self::KeyType<'a>) {
        broadcast use key::group_key_order;

        if self.current_is_a {
            self.a.key()
        } else {
            self.b.key()
        }
    }

    fn value(&self) -> (v: &[u8]) {
        broadcast use key::group_key_order;

        if self.current_is_a {
            self.a.value()
        } else {
            self.b.value()
        }
    }

    fn is_valid(&self) -> (r: bool) {
        self.valid
    }

    fn next(&mut self) -> (r: Result<(), LsmError>) {
        broadcast use key::group_key_order;

        let ghost before = *self;
        if self.a.is_valid() && self.b.is_valid() {
            if self.a.key().same(&self.b.key()) {
                self.a.next()?;
                self.b.next()?;
                self.advance_to_valid()?;
                assert(self.merged() =~= before.merged().drop_first());
                return Ok(());
            }
        }
        if self.current_is_a {
            self.a.next()?;
        } else {
            self.b.next()?;
        }
        self.advance_to_valid()?;
        assert(self.merged() =~= before.merged().drop_first());
        Ok(())
    }

    fn num_active_iterators(&self) -> (n: usize) {
        1
    }
}

/// Stepping a merge of two iterators, which may be of two types, to its end shows their keys in
/// order, each once: a key that the first one has with its value there, any other one with its
/// value in the second.
pub proof fn law_two_merge_shows<
    A: 'static + StorageIterator,
    B: 'static + for <'a>StorageIterator<KeyType<'a> = A::KeyType<'a>>,
>(a: A, b: B, steps: Seq<TwoMergeIterator<A, B>>, k: KeyView)
    requires
        key::sorted(a.remaining()),
        key::sorted(b.remaining()),
        iterators::walked(steps),
        steps[0].a == a,
        steps[0].b == b,
    ensures
        key::sorted(iterators::shown(steps)),
        key::lookup(iterators::shown(steps), k) == match key::lookup(a.remaining(), k) {
            Some(v) => Some(v),
            None => key::lookup(b.remaining(), k),
        },
{
    iterators::law_walk_shows(steps);
    iterators::law_merge2(a.remaining(), b.remaining(), k);
}

} // verus!
