//! The oldest timestamp that is still read.
use std::collections::BTreeMap;
use vstd::prelude::*;

verus! {

/// Keeps count of the timestamps that are being read.
#[derive(Debug)]
pub struct Watermark {
    pub readers: BTreeMap<u64, usize>,
}

impl Default for Watermark {
    fn default() -> (w: Self)
        ensures
            w@ == Map::<u64, usize>::empty(),
    {
        Self::new()
    }
}

impl View for Watermark {
    type V = Map<u64, usize>;

    /// How many readers each timestamp has.
    open spec fn view(&self) -> Map<u64, usize> {
        self.readers@
    }
}

impl Watermark {
    /// How many readers a timestamp has.
    pub open spec fn count(&self, ts: u64) -> nat {
        if self@.contains_key(ts) {
            self@[ts] as nat
        } else {
            0
        }
    }

    /// The readers with one more for a timestamp.
    pub open spec fn with_reader(&self, ts: u64) -> Map<u64, usize> {
        self@.insert(ts, (self.count(ts) + 1) as usize)
    }

    /// The readers with one less for a timestamp, if it has one.
    pub open spec fn without_reader(&self, ts: u64) -> Map<u64, usize> {
        if self.count(ts) == 0 {
            self@
        } else if self.count(ts) == 1 {
            self@.remove(ts)
        } else {
            self@.insert(ts, (self.count(ts) - 1) as usize)
        }
    }

    /// Every timestamp that is kept has a reader.
    pub open spec fn wf(&self) -> bool {
        forall|ts: u64| #[trigger] self@.contains_key(ts) ==> self@[ts] > 0
    }

    pub fn new() -> (w: Self)
        ensures
            w.wf(),
            w@ == Map::<u64, usize>::empty(),
    {
        Watermark { readers: BTreeMap::new() }
    }

    /// Notes that a timestamp is being read.
    pub fn add_reader(&mut self, ts: u64)
        requires
            old(self).wf(),
            old(self).count(ts) < usize::MAX,
        ensures
            final(self).wf(),
            final(self)@ == old(self).with_reader(ts),
    {
        broadcast use vstd::std_specs::btree::group_btree_axioms;
        broadcast use vstd::laws_cmp::group_laws_cmp;

        let count: usize = match self.readers.get(&ts) {
            Some(n) => *n,
            None => 0,
        };
        self.readers.insert(ts, count + 1);
    }

    /// Notes that a timestamp is no longer being read by one of its readers. Without readers it is
    /// forgotten, so that the watermark can move on.
    pub fn remove_reader(&mut self, ts: u64)
        requires
            old(self).wf(),
        ensures
            final(self).wf(),
            final(self)@ == old(self).without_reader(ts),
    {
        broadcast use vstd::std_specs::btree::group_btree_axioms;
        broadcast use vstd::laws_cmp::group_laws_cmp;

        let count: usize = match self.readers.get(&ts) {
            Some(n) => *n,
            None => 0,
        };
        if count == 1 {
            self.readers.remove(&ts);
        } else if count > 1 {
            self.readers.insert(ts, count - 1);
        }
        assert(self@ =~= old(self).without_reader(ts));
        assert forall|other: u64| #[trigger] self@.contains_key(other) implies self@[other] > 0 by {
            assert(old(self)@.contains_key(other));
        }
    }

    /// How many timestamps are being read.
    pub fn num_retained_snapshots(&self) -> (n: usize)
        ensures
            n == self@.dom().len(),
    {
        broadcast use vstd::std_specs::btree::group_btree_axioms;
        broadcast use vstd::laws_cmp::group_laws_cmp;

        self.readers.len()
    }

    /// The smallest timestamp that is being read, if there is one.
    pub fn watermark(&self) -> (r: Option<u64>)
        ensures
            r is None <==> self@.dom().is_empty(),
            r matches Some(ts) ==> {
                &&& self@.contains_key(ts)
                &&& forall|other: u64| #[trigger] self@.contains_key(other) ==> ts <= other
            },
    {
        broadcast use vstd::std_specs::btree::group_btree_axioms;
        broadcast use vstd::laws_cmp::group_laws_cmp;

        for entry in it: self.readers.iter()
            invariant
                it.index() == 0,
                vstd::std_specs::btree::increasing_seq(
                    it.seq().map_values(|kv: (&u64, &usize)| *kv.0),
                ),
                forall|other: u64| #[trigger]
                    self@.contains_key(other) ==> it.seq().contains((&other, &self@[other])),
        {
            broadcast use vstd::std_specs::btree::group_btree_axioms;
            broadcast use vstd::laws_cmp::group_laws_cmp;

            let ts: u64 = *entry.0;
            assert(self@.contains_key(ts));
            assert forall|other: u64| #[trigger] self@.contains_key(other) implies ts <= other by {
                let keys = it.seq().map_values(|kv: (&u64, &usize)| *kv.0);
                let i = choose|i: int|
                    0 <= i < it.seq().len() && it.seq()[i] == (&other, &self@[other]);
                assert(keys[0] == ts);
                assert(keys[i] == other);
                if i > 0 {
                    assert(vstd::std_specs::cmp::OrdSpec::cmp_spec(&keys[0], &keys[i]) is Less);
                }
            }
            return Some(ts);
        }
        None
    }
}

/// A reader that comes and goes leaves no trace.
pub proof fn law_reader_leaves(before: Watermark, during: Watermark, after: Watermark, ts: u64)
    requires
        before.wf(),
        before.count(ts) < usize::MAX,
        during@ == before.with_reader(ts),
        after@ == during.without_reader(ts),
    ensures
        after@ == before@,
{
    assert(after@ =~= before@);
}

/// A reader that is not there cannot leave: nothing changes.
pub proof fn law_absent_reader(before: Watermark, after: Watermark, ts: u64)
    requires
        before.wf(),
        before.count(ts) == 0,
        after@ == before.without_reader(ts),
    ensures
        after@ == before@,
{
    assert(after@ =~= before@);
}

/// A reader that comes counts for its timestamp and for no other one, and so does one that goes.
pub proof fn law_readers_count(
    before: Watermark,
    added: Watermark,
    removed: Watermark,
    ts: u64,
    other: u64,
)
    requires
        before.wf(),
        before.count(ts) < usize::MAX,
        added@ == before.with_reader(ts),
        removed@ == before.without_reader(ts),
    ensures
        added.count(ts) == before.count(ts) + 1,
        added@.contains_key(ts),
        before.count(ts) > 0 ==> removed.count(ts) == before.count(ts) - 1,
        before.count(ts) == 1 ==> !removed@.contains_key(ts),
        other != ts ==> added.count(other) == before.count(other) && removed.count(other)
            == before.count(other),
{
}

} // verus!
