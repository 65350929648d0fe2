//! Reading from the storage engine.
use crate::error::LsmError;
use crate::iterators;
use crate::iterators::concat_iterator;
use crate::iterators::merge_iterator;
use crate::key::{self, Entry, KeySlice, KeyView, StorageKey};
use crate::lsm_iterator;
use crate::lsm_storage::{self, LsmStorageInner, live_value};
use crate::table::SsTable;
use std::collections::HashMap;
use std::sync::Arc;
use vstd::prelude::*;

verus! {

/// A key is found in one sequence after another.
pub proof fn lemma_lookup_concat(a: Seq<Entry>, b: Seq<Entry>, k: KeyView)
    ensures
        key::lookup(a + b, k) == match key::lookup(a, k) {
            Some(v) => Some(v),
            None => key::lookup(b, k),
        },
    decreases a.len(),
{
    if a.len() == 0 {
        assert(a + b =~= b);
    } else {
        assert((a + b).drop_first() =~= a.drop_first() + b);
        lemma_lookup_concat(a.drop_first(), b, k);
    }
}

/// A key is found in one group of sequences after another.
pub proof fn lemma_lookup_all_concat(a: Seq<Seq<Entry>>, b: Seq<Seq<Entry>>, k: KeyView)
    ensures
        iterators::lookup_all(a + b, k) == match iterators::lookup_all(a, k) {
            Some(v) => Some(v),
            None => iterators::lookup_all(b, k),
        },
    decreases a.len(),
{
    if a.len() == 0 {
        assert(a + b =~= b);
    } else {
        assert((a + b).drop_first() =~= a.drop_first() + b);
        lemma_lookup_all_concat(a.drop_first(), b, k);
    }
}

/// Nothing is found where there are no entries.
pub proof fn lemma_no_entries(ps: Seq<Seq<Entry>>, k: KeyView)
    requires
        forall|i: int| 0 <= i < ps.len() ==> (#[trigger] ps[i]).len() == 0,
    ensures
        iterators::lookup_all(ps, k) is None,
    decreases ps.len(),
{
    if ps.len() > 0 {
        let rest = ps.drop_first();
        assert(ps[0].len() == 0);
        assert forall|i: int| 0 <= i < rest.len() implies (#[trigger] rest[i]).len() == 0 by {
            assert(rest[i] == ps[i + 1]);
        }
        lemma_no_entries(rest, k);
    }
}

/// The first and last keys of the tables of a run stand in order.
pub proof fn lemma_run_keys(ts: Seq<Arc<SsTable>>, i: int, j: int)
    requires
        concat_iterator::run_wf(ts),
        0 <= i < j < ts.len(),
    ensures
        key::key_lt(ts[i].last_key@, ts[j].first_key@),
        key::key_lt(ts[i].first_key@, ts[j].first_key@),
{
    broadcast use key::group_key_order;

    let all = concat_iterator::tables_from(ts, 0);
    concat_iterator::lemma_tables_split(ts, i);
    concat_iterator::lemma_tables_split(ts, j);
    assert(ts[i].entries().len() > 0 && ts[j].entries().len() > 0);
    let a = concat_iterator::tables_upto(ts, i).len() as int;
    let n = ts[i].entries().len() as int;
    let b = concat_iterator::tables_upto(ts, j).len() as int;
    lemma_upto_len(ts, i, j);
    assert(
        concat_iterator::tables_from(ts, i)
            == ts[i].entries() + concat_iterator::tables_from(ts, i + 1)
    );
    assert(
        concat_iterator::tables_from(ts, j)
            == ts[j].entries() + concat_iterator::tables_from(ts, j + 1)
    );
    assert(all[a] == ts[i].entries()[0]);
    assert(all[a + n - 1] == ts[i].entries()[n - 1]);
    assert(all[b] == ts[j].entries()[0]);
}

/// Well-formed tables each of which ends before the next one begins form a run, if they hold
/// entries.
pub proof fn lemma_chain_run(ts: Seq<Arc<SsTable>>, i: int)
    requires
        0 <= i <= ts.len(),
        forall|j: int| 0 <= j < ts.len() ==> (#[trigger] ts[j]).wf(),
        ts.len() > 1 ==> concat_iterator::all_filled(ts),
        forall|j: int|
            0 < j < ts.len() ==> key::key_lt(ts[j - 1].last_key@, (#[trigger] ts[j]).first_key@),
    ensures
        key::sorted(concat_iterator::tables_from(ts, i)),
        i < ts.len() ==> forall|x: int|
            0 <= x < concat_iterator::tables_from(ts, i).len() ==> key::key_le(
                ts[i].first_key@,
                #[trigger] concat_iterator::tables_from(ts, i)[x].key,
            ),
        i == 0 ==> concat_iterator::run_wf(ts),
    decreases ts.len() - i,
{
    broadcast use key::group_key_order;

    if i < ts.len() {
        lemma_chain_run(ts, i + 1);
        let es = ts[i].entries();
        let rest = concat_iterator::tables_from(ts, i + 1);
        let all = concat_iterator::tables_from(ts, i);
        let n = es.len() as int;
        if n == 0 {
            assert(ts.len() == 1);
            assert(all =~= Seq::empty());
        } else {
            assert(es[n - 1] == es.last());
            assert forall|x: int| 0 <= x < n
                implies key::key_le(ts[i].first_key@, #[trigger] es[x].key)
                && key::key_le(es[x].key, ts[i].last_key@) by {
                if x > 0 {
                    assert(key::key_lt(es[0].key, es[x].key));
                }
                if x < n - 1 {
                    assert(key::key_lt(es[x].key, es[n - 1].key));
                }
            }
            assert(key::key_le(ts[i].first_key@, ts[i].last_key@)) by {
                assert(key::key_le(es[0].key, ts[i].last_key@));
            }
            assert forall|x: int| 0 <= x < rest.len() implies key::key_lt(
                ts[i].last_key@,
                #[trigger] rest[x].key,
            ) by {
                assert(key::key_lt(ts[i + 1 - 1].last_key@, ts[i + 1].first_key@));
                assert(key::key_le(ts[i + 1].first_key@, rest[x].key));
            }
            assert forall|x: int, y: int| 0 <= x < y < all.len() implies key::key_lt(
                #[trigger] all[x].key,
                #[trigger] all[y].key,
            ) by {
                if y < n {
                    assert(all[x] == es[x] && all[y] == es[y]);
                } else if x >= n {
                    assert(all[x] == rest[x - n] && all[y] == rest[y - n]);
                } else {
                    assert(all[x] == es[x] && all[y] == rest[y - n]);
                    assert(key::key_le(es[x].key, ts[i].last_key@));
                }
            }
            assert forall|x: int| 0 <= x < all.len() implies key::key_le(
                ts[i].first_key@,
                #[trigger] all[x].key,
            ) by {
                if x < n {
                    assert(all[x] == es[x]);
                } else {
                    assert(all[x] == rest[x - n]);
                }
            }
        }
    }
}

/// The entries of earlier tables stand before those of later ones.
proof fn lemma_upto_len(ts: Seq<Arc<SsTable>>, i: int, j: int)
    requires
        0 <= i < j <= ts.len(),
    ensures
        concat_iterator::tables_upto(ts, i).len() + ts[i].entries().len()
            <= concat_iterator::tables_upto(ts, j).len(),
    decreases j,
{
    if i < j - 1 {
        lemma_upto_len(ts, i, j - 1);
    }
}

/// A key is found in a run where it is found in the last table that does not begin after it.
proof fn lemma_lookup_in_run(ts: Seq<Arc<SsTable>>, p: int, k: KeyView)
    requires
        concat_iterator::run_wf(ts),
        0 <= p <= ts.len(),
        p > 0 ==> key::key_le(ts[p - 1].first_key@, k),
        p < ts.len() ==> key::key_lt(k, ts[p].first_key@),
    ensures
        key::lookup(concat_iterator::tables_from(ts, 0), k) == if p == 0 {
            None
        } else {
            key::lookup(ts[p - 1].entries(), k)
        },
{
    broadcast use key::group_key_order;

    let all = concat_iterator::tables_from(ts, 0);
    concat_iterator::lemma_tables_split(ts, p);
    let rest = concat_iterator::tables_from(ts, p);
    let before = concat_iterator::tables_upto(ts, p);
    assert(key::lookup(rest, k) is None) by {
        key::lemma_lookup(rest, k);
        if p < ts.len() && ts[p].entries().len() == 0 {
            assert(ts.len() == 1);
            assert(concat_iterator::tables_from(ts, p + 1) =~= Seq::empty());
            assert(rest =~= Seq::empty());
        } else if p < ts.len() {
            assert forall|i: int| 0 <= i < rest.len() implies #[trigger] rest[i].key != k by {
                assert(rest[0] == ts[p].entries()[0]);
                assert(all[before.len() as int] == rest[0]);
                assert(all[before.len() + i] == rest[i]);
                if i > 0 {
                    assert(key::key_lt(all[before.len() as int].key, all[before.len() + i].key));
                }
            }
        }
    }
    lemma_lookup_concat(before, rest, k);
    if p > 0 {
        let head = concat_iterator::tables_upto(ts, p - 1);
        let es = ts[p - 1].entries();
        lemma_lookup_concat(head, es, k);
        assert(key::lookup(head, k) is None) by {
            key::lemma_lookup(head, k);
            if es.len() == 0 {
                assert(ts.len() == 1);
                assert(head =~= Seq::empty());
            }
            assert forall|i: int| 0 <= i < head.len() implies #[trigger] head[i].key != k by {
                assert(all[i] == head[i]);
                assert(all[head.len() as int] == es[0]);
                assert(key::key_lt(all[i].key, all[head.len() as int].key));
            }
        }
    }
}

/// How many tables of a level begin at or before `key`.
fn partition_level(
    ids: &[usize],
    tables: &HashMap<usize, Arc<SsTable>>,
    key: KeySlice<'_>,
) -> (r: usize)
    requires
        forall|i: int| 0 <= i < ids@.len() ==> tables@.contains_key(#[trigger] ids@[i]),
        concat_iterator::run_wf(lsm_storage::tables_of(ids@, tables@)),
    ensures
        r <= ids@.len(),
        forall|i: int|
            0 <= i < r ==> key::key_le(tables@[#[trigger] ids@[i]].first_key@, key@),
        forall|i: int|
            r <= i < ids@.len() ==> key::key_lt(key@, tables@[#[trigger] ids@[i]].first_key@),
{
    let ghost ts = lsm_storage::tables_of(ids@, tables@);
    let mut lo: usize = 0;
    let mut hi: usize = ids.len();
    while lo < hi
        invariant
            lo <= hi <= ids@.len(),
            ts == lsm_storage::tables_of(ids@, tables@),
            concat_iterator::run_wf(ts),
            forall|i: int| 0 <= i < ids@.len() ==> tables@.contains_key(#[trigger] ids@[i]),
            forall|i: int|
                0 <= i < lo ==> key::key_le(tables@[#[trigger] ids@[i]].first_key@, key@),
            forall|i: int|
                hi <= i < ids@.len() ==> key::key_lt(key@, tables@[#[trigger] ids@[i]].first_key@),
        decreases hi - lo,
    {
        broadcast use {vstd::std_specs::hash::group_hash_axioms, key::group_key_order};

        let mid: usize = lo + (hi - lo) / 2;
        let sst: &Arc<SsTable> = tables.get(&ids[mid]).unwrap();
        assert(ts[mid as int] == tables@[ids@[mid as int]]);
        if key.less(&sst.first_key().as_key_slice()) {
            assert forall|i: int| mid <= i < ids@.len() implies key::key_lt(
                key@,
                tables@[#[trigger] ids@[i]].first_key@,
            ) by {
                assert(ts[i] == tables@[ids@[i]]);
                if mid < i {
                    lemma_run_keys(ts, mid as int, i);
                }
            }
            hi = mid;
        } else {
            assert forall|i: int| 0 <= i < mid + 1 implies key::key_le(
                tables@[#[trigger] ids@[i]].first_key@,
                key@,
            ) by {
                assert(ts[i] == tables@[ids@[i]]);
                if i < mid {
                    lemma_run_keys(ts, i, mid as int);
                }
            }
            lo = mid + 1;
        }
    }
    lo
}

impl LsmStorageInner {
    /// Get a key from the storage.
    pub fn get(&self, key: &[u8]) -> (r: Result<Option<Vec<u8>>, LsmError>)
        requires
            self.state.wf(),
        ensures
            r is Ok,
            lsm_storage::value_view(r->Ok_0) == lsm_iterator::live(self.find(key::user_key(key@))),
    {
        let ghost k = key::user_key(key@);
        let ghost mems = self.state.mem_parts();
        let ghost rest = lsm_storage::layout_parts(
            self.state.layout(),
            self.uses_l0(),
            self.state.sstables@,
        );
        proof {
            lemma_lookup_all_concat(mems, rest, k);
        }
        match self.get_from_memtables(key) {
            Some(v) => {
                return Ok(live_value(v));
            },
            None => {},
        }
        match self.get_from_tables(key)? {
            Some(v) => Ok(live_value(v)),
            None => Ok(None),
        }
    }

    /// The value that the memtables hold for a key.
    fn get_from_memtables(&self, key: &[u8]) -> (r: Option<Vec<u8>>)
        requires
            self.state.mems_wf(),
        ensures
            lsm_storage::value_view(r)
                == iterators::lookup_all(self.state.mem_parts(), key::user_key(key@)),
    {
        let ghost k = key::user_key(key@);
        let ghost parts = self.state.mem_parts();
        assert(parts.skip(0) =~= parts);
        assert(parts.drop_first() =~= parts.skip(1));
        match self.state.memtable.get(key) {
            Some(v) => {
                return Some(v);
            },
            None => {},
        }
        let mut i: usize = 0;
        while i < self.state.imm_memtables.len()
            invariant
                i <= self.state.imm_memtables@.len(),
                self.state.mems_wf(),
                k == key::user_key(key@),
                parts == self.state.mem_parts(),
                iterators::lookup_all(parts, k) == iterators::lookup_all(parts.skip(i + 1), k),
            decreases self.state.imm_memtables@.len() - i,
        {
            let ghost s = parts.skip(i + 1);
            assert(s[0] == self.state.imm_memtables@[i as int].entries());
            assert(s.drop_first() =~= parts.skip(i + 2));
            assert(self.state.imm_memtables@[i as int].wf());
            match self.state.imm_memtables[i].get(key) {
                Some(v) => {
                    return Some(v);
                },
                None => {},
            }
            i = i + 1;
        }
        assert(parts.skip(i + 1) =~= Seq::empty());
        None
    }

    /// The value that the tables hold for a key.
    fn get_from_tables(&self, key: &[u8]) -> (r: Result<Option<Vec<u8>>, LsmError>)
        requires
            lsm_storage::layout_wf(self.state.layout(), self.state.sstables@),
        ensures
            r is Ok,
            lsm_storage::value_view(r->Ok_0) == iterators::lookup_all(
                lsm_storage::layout_parts(
                    self.state.layout(),
                    self.uses_l0(),
                    self.state.sstables@,
                ),
                key::user_key(key@),
            ),
    {
        let ghost k = key::user_key(key@);
        let ghost tables = self.state.sstables@;
        let ghost l0 = lsm_storage::l0_parts(self.state.l0_sstables@, tables);
        let ghost runs = lsm_storage::level_parts(self.state.levels_seq(), tables);
        proof {
            if self.uses_l0() {
                lemma_lookup_all_concat(l0, runs, k);
            } else {
                assert(Seq::<Seq<Entry>>::empty() + runs =~= runs);
            }
        }
        if self.compaction_controller.flush_to_l0() {
            match self.get_from_l0(key)? {
                Some(v) => {
                    return Ok(Some(v));
                },
                None => {},
            }
        }
        self.get_from_levels(key)
    }

    /// The value that the tables of L0 hold for a key.
    fn get_from_l0(&self, key: &[u8]) -> (r: Result<Option<Vec<u8>>, LsmError>)
        requires
            lsm_storage::layout_wf(self.state.layout(), self.state.sstables@),
        ensures
            r is Ok,
            lsm_storage::value_view(r->Ok_0) == iterators::lookup_all(
                lsm_storage::l0_parts(self.state.l0_sstables@, self.state.sstables@),
                key::user_key(key@),
            ),
    {
        let ghost k = key::user_key(key@);
        let ghost layout = self.state.layout();
        let ghost tables = self.state.sstables@;
        let ghost parts = lsm_storage::l0_parts(layout.l0, tables);
        assert(parts.skip(0) =~= parts);
        let mut i: usize = 0;
        while i < self.state.l0_sstables.len()
            invariant
                i <= self.state.l0_sstables@.len(),
                layout == self.state.layout(),
                tables == self.state.sstables@,
                lsm_storage::layout_wf(layout, tables),
                k == key::user_key(key@),
                parts == lsm_storage::l0_parts(layout.l0, tables),
                iterators::lookup_all(parts, k) == iterators::lookup_all(parts.skip(i as int), k),
            decreases self.state.l0_sstables@.len() - i,
        {
            broadcast use vstd::std_specs::hash::group_hash_axioms;

            let ghost s = parts.skip(i as int);
            assert(layout.l0[i as int] == self.state.l0_sstables@[i as int]);
            assert(s[0] == tables[layout.l0[i as int]].entries());
            assert(s.drop_first() =~= parts.skip(i + 1));
            if let Some(sst) = self.state.sstables.get(&self.state.l0_sstables[i]) {
                match Self::get_from_table(sst, key)? {
                    Some(v) => {
                        return Ok(Some(v));
                    },
                    None => {},
                }
            }
            i = i + 1;
        }
        assert(parts.skip(i as int) =~= Seq::empty());
        Ok(None)
    }

    /// The value that the levels hold for a key.
    fn get_from_levels(&self, key: &[u8]) -> (r: Result<Option<Vec<u8>>, LsmError>)
        requires
            lsm_storage::layout_wf(self.state.layout(), self.state.sstables@),
        ensures
            r is Ok,
            lsm_storage::value_view(r->Ok_0) == iterators::lookup_all(
                lsm_storage::level_parts(self.state.levels_seq(), self.state.sstables@),
                key::user_key(key@),
            ),
    {
        let ghost k = key::user_key(key@);
        let ghost layout = self.state.layout();
        let ghost tables = self.state.sstables@;
        let ghost parts = lsm_storage::level_parts(layout.levels, tables);
        let key_slice: KeySlice<'_> = KeySlice::from_slice(key);
        assert(parts.skip(0) =~= parts);
        let mut i: usize = 0;
        while i < self.state.levels.len()
            invariant
                i <= self.state.levels@.len(),
                layout == self.state.layout(),
                tables == self.state.sstables@,
                lsm_storage::layout_wf(layout, tables),
                k == key::user_key(key@),
                key_slice@ == k,
                parts == lsm_storage::level_parts(layout.levels, tables),
                iterators::lookup_all(parts, k) == iterators::lookup_all(parts.skip(i as int), k),
            decreases self.state.levels@.len() - i,
        {
            broadcast use vstd::std_specs::hash::group_hash_axioms;

            let ghost s = parts.skip(i as int);
            let ghost level = layout.levels[i as int];
            let ids: &[usize] = self.state.levels[i].1.as_slice();
            assert(level.1 == ids@);
            assert(lsm_storage::level_wf(level, tables));
            assert(s[0] == lsm_storage::level_entries(level, tables));
            assert(s.drop_first() =~= parts.skip(i + 1));
            let ghost ts = lsm_storage::tables_of(ids@, tables);
            let pos: usize = partition_level(ids, &self.state.sstables, key_slice);
            proof {
                if pos > 0 {
                    assert(ts[pos - 1] == tables[ids@[pos - 1]]);
                }
                if pos < ids@.len() {
                    assert(ts[pos as int] == tables[ids@[pos as int]]);
                }
                lemma_lookup_in_run(ts, pos as int, k);
            }
            if pos > 0 {
                if let Some(sst) = self.state.sstables.get(&ids[pos - 1]) {
                    match Self::get_from_table(sst, key)? {
                        Some(v) => {
                            return Ok(Some(v));
                        },
                        None => {},
                    }
                }
            }
            i = i + 1;
        }
        assert(parts.skip(i as int) =~= Seq::empty());
        Ok(None)
    }
}

} // verus!
