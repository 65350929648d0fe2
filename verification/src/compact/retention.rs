//! Which entries a compaction keeps, and into which tables it puts them.
use crate::key::{self, Entry, KeyView};
use crate::lsm_iterator;
use crate::table::builder;
use vstd::prelude::*;

verus! {

/// The entries of `s` that a compaction keeps. Versions above the watermark are kept. Of the
/// others, only the newest one of each user key is; and where nothing lies below the output, not
/// even that one if it is a deletion. `last` is the user key of the entry before `s`, and `seen`
/// tells whether one of its versions up to the watermark has come by.
pub open spec fn kept(
    s: Seq<Entry>,
    to_bottom: bool,
    watermark: u64,
    last: Seq<u8>,
    seen: bool,
) -> Seq<Entry>
    decreases s.len(),
{
    if s.len() == 0 {
        Seq::empty()
    } else {
        let e = s[0];
        let rest = s.drop_first();
        let seen_before = seen && e.key.key == last;
        if e.key.ts > watermark {
            seq![e] + kept(rest, to_bottom, watermark, e.key.key, seen_before)
        } else if seen_before || (to_bottom && e.value.len() == 0) {
            kept(rest, to_bottom, watermark, e.key.key, true)
        } else {
            seq![e] + kept(rest, to_bottom, watermark, e.key.key, true)
        }
    }
}

/// What is kept stands in order, and is among what was there.
pub proof fn lemma_kept(s: Seq<Entry>, to_bottom: bool, watermark: u64, last: Seq<u8>, seen: bool)
    requires
        key::sorted(s),
    ensures
        key::sorted(kept(s, to_bottom, watermark, last, seen)),
        forall|k: KeyView| #[trigger]
            key::all_after(s, k) ==> key::all_after(kept(s, to_bottom, watermark, last, seen), k),
        forall|i: int|
            0 <= i < kept(s, to_bottom, watermark, last, seen).len() ==> s.contains(
                #[trigger] kept(s, to_bottom, watermark, last, seen)[i],
            ),
    decreases s.len(),
{
    if s.len() > 0 {
        let e = s[0];
        let t = s.drop_first();
        key::lemma_sorted_drop_first(s);
        let seen_before = seen && e.key.key == last;
        let seen_after = e.key.ts <= watermark || seen_before;
        lemma_kept(t, to_bottom, watermark, e.key.key, seen_after);
        let rest = kept(t, to_bottom, watermark, e.key.key, seen_after);
        let all = kept(s, to_bottom, watermark, last, seen);
        assert(key::all_after(t, e.key));
        assert(key::all_after(rest, e.key));
        key::lemma_sorted_cons(e, rest);
        assert forall|k: KeyView| #[trigger] key::all_after(s, k)
            implies key::all_after(all, k) by {
            assert(key::key_lt(k, s[0].key));
            assert(key::all_after(t, k)) by {
                assert forall|i: int| 0 <= i < t.len()
                    implies key::key_lt(k, #[trigger] t[i].key) by {
                    assert(t[i] == s[i + 1]);
                }
            }
            key::lemma_all_after_cons(e, rest, k);
        }
        assert forall|i: int| 0 <= i < all.len() implies s.contains(#[trigger] all[i]) by {
            if all.len() == rest.len() + 1 && i == 0 {
                assert(s[0] == e);
            } else {
                let j = if all.len() == rest.len() + 1 {
                    i - 1
                } else {
                    i
                };
                assert(all[i] == rest[j]);
                let x = choose|x: int| 0 <= x < t.len() && t[x] == rest[j];
                assert(s[x + 1] == t[x]);
            }
        }
    }
}

/// Once a version up to the watermark has come by, no further one of its user key is kept.
proof fn lemma_kept_skips(s: Seq<Entry>, to_bottom: bool, watermark: u64, last: Seq<u8>, ts: u64)
    requires
        key::sorted(s),
        forall|i: int| 0 <= i < s.len() ==> !key::bytes_lt(#[trigger] s[i].key.key, last),
        forall|i: int|
            0 <= i < s.len() && #[trigger] s[i].key.key == last ==> s[i].key.ts <= watermark,
    ensures
        lsm_iterator::snapshot(kept(s, to_bottom, watermark, last, true), last, ts) is None,
    decreases s.len(),
{
    broadcast use key::group_key_order, key::group_bytes_order;

    if s.len() > 0 {
        let e = s[0];
        let t = s.drop_first();
        key::lemma_sorted_drop_first(s);
        if e.key.key == last {
            assert(e.key.ts <= watermark);
            assert forall|i: int| 0 <= i < t.len() implies !key::bytes_lt(
                #[trigger] t[i].key.key,
                last,
            ) by {
                assert(t[i] == s[i + 1]);
            }
            assert forall|i: int|
                0 <= i < t.len() && #[trigger] t[i].key.key == last implies t[i].key.ts
                <= watermark by {
                assert(t[i] == s[i + 1]);
            }
            lemma_kept_skips(t, to_bottom, watermark, last, ts);
        } else {
            lemma_kept(s, to_bottom, watermark, last, true);
            let all = kept(s, to_bottom, watermark, last, true);
            assert forall|i: int| 0 <= i < all.len() implies #[trigger] all[i].key.key != last by {
                assert(s.contains(all[i]));
                let x = choose|x: int| 0 <= x < s.len() && s[x] == all[i];
                assert(!key::bytes_lt(s[0].key.key, last));
                if x > 0 {
                    assert(key::key_lt(s[0].key, s[x].key));
                }
            }
            lsm_iterator::lemma_snapshot_none(all, last, ts);
        }
    }
}

proof fn lemma_kept_snapshot(
    s: Seq<Entry>,
    to_bottom: bool,
    watermark: u64,
    last: Seq<u8>,
    seen: bool,
    k: Seq<u8>,
    ts: u64,
)
    requires
        key::sorted(s),
        watermark <= ts,
        k != last || !seen,
    ensures
        lsm_iterator::live(lsm_iterator::snapshot(kept(s, to_bottom, watermark, last, seen), k, ts))
            == lsm_iterator::live(
            lsm_iterator::snapshot(s, k, ts),
        ),
        !to_bottom
            ==> lsm_iterator::snapshot(kept(s, to_bottom, watermark, last, seen), k, ts)
                == lsm_iterator::snapshot(
            s,
            k,
            ts,
        ),
    decreases s.len(),
{
    broadcast use key::group_key_order, key::group_bytes_order;

    if s.len() > 0 {
        let e = s[0];
        let key = e.key.key;
        let t = s.drop_first();
        key::lemma_sorted_drop_first(s);
        let seen_before = seen && key == last;
        if e.key.ts > watermark {
            lemma_kept_snapshot(t, to_bottom, watermark, key, seen_before, k, ts);
            let rest = kept(t, to_bottom, watermark, key, seen_before);
            assert((seq![e] + rest).drop_first() =~= rest);
        } else {
            let rest = kept(t, to_bottom, watermark, key, true);
            assert((seq![e] + rest).drop_first() =~= rest);
            if k != key {
                lemma_kept_snapshot(t, to_bottom, watermark, key, true, k, ts);
            } else {
                assert forall|i: int| 0 <= i < t.len() implies !key::bytes_lt(
                    #[trigger] t[i].key.key,
                    key,
                ) by {
                    assert(key::key_lt(e.key, t[i].key));
                }
                assert forall|i: int|
                    0 <= i < t.len() && #[trigger] t[i].key.key == key implies t[i].key.ts
                    <= watermark by {
                    assert(key::key_lt(e.key, t[i].key));
                }
                lemma_kept_skips(t, to_bottom, watermark, key, ts);
            }
        }
    }
}

/// A compaction does not change what a reader at or above the watermark sees. Where something lies
/// below its output, it also keeps the deletions that such a reader meets.
pub proof fn law_compaction_keeps_snapshots(
    s: Seq<Entry>,
    to_bottom: bool,
    watermark: u64,
    k: Seq<u8>,
    ts: u64,
)
    requires
        key::sorted(s),
        watermark <= ts,
    ensures
        key::sorted(kept(s, to_bottom, watermark, Seq::empty(), false)),
        lsm_iterator::live(
            lsm_iterator::snapshot(kept(s, to_bottom, watermark, Seq::empty(), false), k, ts)
        ) == lsm_iterator::live(
            lsm_iterator::snapshot(s, k, ts),
        ),
        !to_bottom
            ==> lsm_iterator::snapshot(kept(s, to_bottom, watermark, Seq::empty(), false), k, ts)
            == lsm_iterator::snapshot(s, k, ts),
{
    lemma_kept(s, to_bottom, watermark, Seq::empty(), false);
    lemma_kept_snapshot(s, to_bottom, watermark, Seq::empty(), false, k, ts);
}

proof fn lemma_kept_exactly(
    s: Seq<Entry>,
    to_bottom: bool,
    watermark: u64,
    last: Seq<u8>,
    seen: bool,
    i: int,
)
    requires
        key::sorted(s),
        seen ==> forall|j: int| 0 <= j < s.len() ==> !key::bytes_lt(#[trigger] s[j].key.key, last),
        0 <= i < s.len(),
    ensures
        kept(s, to_bottom, watermark, last, seen).contains(s[i]) <==> s[i].key.ts > watermark || {
            &&& !(seen && s[i].key.key == last)
            &&& forall|j: int|
                0 <= j < s.len() && (#[trigger] s[j]).key.key == s[i].key.key && s[j].key.ts
                    <= watermark ==> s[j].key.ts <= s[i].key.ts
            &&& !(to_bottom && s[i].value.len() == 0)
        },
    decreases s.len(),
{
    broadcast use key::group_key_order, key::group_bytes_order;

    let e = s[0];
    let t = s.drop_first();
    key::lemma_sorted_drop_first(s);
    let seen_before = seen && e.key.key == last;
    let seen_after = e.key.ts <= watermark || seen_before;
    let rest = kept(t, to_bottom, watermark, e.key.key, seen_after);
    let all = kept(s, to_bottom, watermark, last, seen);
    lemma_kept(t, to_bottom, watermark, e.key.key, seen_after);
    assert(all == rest || all == seq![e] + rest);
    assert forall|j: int| 0 <= j < t.len() implies key::key_lt(e.key, #[trigger] t[j].key) by {
        assert(t[j] == s[j + 1]);
        assert(key::key_lt(s[0].key, s[j + 1].key));
    }
    assert(!rest.contains(e)) by {
        if rest.contains(e) {
            let x = choose|x: int| 0 <= x < rest.len() && rest[x] == e;
            assert(t.contains(rest[x]));
            let y = choose|y: int| 0 <= y < t.len() && t[y] == rest[x];
            assert(key::key_lt(e.key, t[y].key));
        }
    }
    if all == seq![e] + rest {
        assert(all[0] == e);
    }
    if i == 0 {
        assert forall|j: int|
            0 <= j < s.len() && (#[trigger] s[j]).key.key == s[i].key.key && s[j].key.ts
                <= watermark implies s[j].key.ts <= s[i].key.ts by {
            if j > 0 {
                assert(s[j] == t[j - 1]);
            }
        }
    } else {
        let x = t[i - 1];
        assert(s[i] == x);
        assert(key::key_lt(e.key, x.key));
        assert(all.contains(x) <==> rest.contains(x)) by {
            if all == seq![e] + rest {
                if rest.contains(x) {
                    let y = choose|y: int| 0 <= y < rest.len() && rest[y] == x;
                    assert(all[y + 1] == x);
                }
                if all.contains(x) {
                    let y = choose|y: int| 0 <= y < all.len() && all[y] == x;
                    assert(y > 0);
                    assert(rest[y - 1] == x);
                }
            }
        }
        lemma_kept_exactly(t, to_bottom, watermark, e.key.key, seen_after, i - 1);
        assert(forall|j: int| 0 < j < s.len() ==> #[trigger] s[j] == t[j - 1]);
        assert(forall|j: int| 0 <= j < t.len() ==> #[trigger] t[j] == s[j + 1]);
        let newest_s = forall|j: int|
            0 <= j < s.len() && (#[trigger] s[j]).key.key == x.key.key && s[j].key.ts <= watermark
                ==> s[j].key.ts <= x.key.ts;
        let newest_t = forall|j: int|
            0 <= j < t.len() && (#[trigger] t[j]).key.key == x.key.key && t[j].key.ts <= watermark
                ==> t[j].key.ts <= x.key.ts;
        if newest_s {
            assert forall|j: int|
                0 <= j < t.len() && (#[trigger] t[j]).key.key == x.key.key && t[j].key.ts
                    <= watermark implies t[j].key.ts <= x.key.ts by {
                assert(s[j + 1] == t[j]);
            }
            assert(s[0] == e);
        }
        if newest_t && !(e.key.key == x.key.key && e.key.ts <= watermark) {
            assert forall|j: int|
                0 <= j < s.len() && (#[trigger] s[j]).key.key == x.key.key && s[j].key.ts
                    <= watermark implies s[j].key.ts <= x.key.ts by {
                if j > 0 {
                    assert(t[j - 1] == s[j]);
                }
            }
        }
        if seen {
            assert(!key::bytes_lt(s[0].key.key, last));
        }
    }
}

/// What a compaction keeps, on every level: all versions above the watermark, and of the others of a
/// user key only the newest one; where nothing lies below the output, not even that one if it is a
/// deletion. It keeps nothing else, and nothing that was not there.
pub proof fn law_compaction_keeps_exactly(s: Seq<Entry>, to_bottom: bool, watermark: u64)
    requires
        key::sorted(s),
    ensures
        ({
            let r = kept(s, to_bottom, watermark, Seq::empty(), false);
            &&& key::sorted(r)
            &&& forall|i: int| 0 <= i < r.len() ==> s.contains(#[trigger] r[i])
            &&& forall|i: int|
                0 <= i < s.len() ==> (r.contains(#[trigger] s[i]) <==> s[i].key.ts > watermark || {
                    &&& forall|j: int|
                        0 <= j < s.len() && (#[trigger] s[j]).key.key == s[i].key.key && s[j].key.ts
                            <= watermark ==> s[j].key.ts <= s[i].key.ts
                    &&& !(to_bottom && s[i].value.len() == 0)
                })
            &&& forall|x: int, y: int|
                {
                    &&& 0 <= x < r.len()
                    &&& 0 <= y < r.len()
                    &&& (#[trigger] r[x]).key.key == (#[trigger] r[y]).key.key
                    &&& r[x].key.ts <= watermark
                    &&& r[y].key.ts <= watermark
                } ==> x == y
            &&& to_bottom ==> forall|x: int|
                0 <= x < r.len() && (#[trigger] r[x]).key.ts <= watermark ==> r[x].value.len() > 0
        }),
{
    broadcast use key::group_key_order, key::group_bytes_order;

    let r = kept(s, to_bottom, watermark, Seq::empty(), false);
    lemma_kept(s, to_bottom, watermark, Seq::empty(), false);
    assert forall|i: int| 0 <= i < s.len() implies (r.contains(#[trigger] s[i]) <==> s[i].key.ts
        > watermark || {
        &&& forall|j: int|
            0 <= j < s.len() && (#[trigger] s[j]).key.key == s[i].key.key && s[j].key.ts
                <= watermark ==> s[j].key.ts <= s[i].key.ts
        &&& !(to_bottom && s[i].value.len() == 0)
    }) by {
        lemma_kept_exactly(s, to_bottom, watermark, Seq::empty(), false, i);
    }
    assert forall|x: int, y: int|
        {
            &&& 0 <= x < r.len()
            &&& 0 <= y < r.len()
            &&& (#[trigger] r[x]).key.key == (#[trigger] r[y]).key.key
            &&& r[x].key.ts <= watermark
            &&& r[y].key.ts <= watermark
        } implies x == y by {
        let i = choose|i: int| 0 <= i < s.len() && s[i] == r[x];
        let j = choose|j: int| 0 <= j < s.len() && s[j] == r[y];
        assert(s.contains(r[x]) && s.contains(r[y]));
        assert(r.contains(s[i]) && r.contains(s[j]));
        assert(r[x].key == r[y].key);
        if x < y {
            assert(key::key_lt(r[x].key, r[y].key));
        } else if y < x {
            assert(key::key_lt(r[y].key, r[x].key));
        }
    }
    if to_bottom {
        assert forall|x: int|
            0 <= x < r.len() && (#[trigger] r[x]).key.ts <= watermark implies r[x].value.len()
            > 0 by {
            assert(s.contains(r[x]));
            let i = choose|i: int| 0 <= i < s.len() && s[i] == r[x];
            assert(r.contains(s[i]));
        }
    }
}

/// The tables into which the entries `s` go, the first of which already holds `cur`: a table is
/// closed once its finished blocks reach the target size, but not between two versions of one
/// user key.
pub open spec fn split_tables(
    s: Seq<Entry>,
    cur: Seq<Entry>,
    block_size: usize,
    target: usize,
) -> Seq<Seq<Entry>>
    decreases s.len(),
{
    if s.len() == 0 {
        if cur.len() == 0 {
            Seq::empty()
        } else {
            seq![cur]
        }
    } else if closes(cur, s[0], block_size, target) {
        seq![cur] + split_tables(s.drop_first(), seq![s[0]], block_size, target)
    } else {
        split_tables(s.drop_first(), cur.push(s[0]), block_size, target)
    }
}

/// A table that holds `cur` is closed before `e` is added.
pub open spec fn closes(cur: Seq<Entry>, e: Entry, block_size: usize, target: usize) -> bool {
    &&& builder::draft_of(cur, block_size).data.len() >= target
    &&& cur.len() > 0
    &&& cur.last().key.key != e.key.key
}

/// The entries of several tables one after the other.
pub open spec fn flatten_tables(ts: Seq<Seq<Entry>>) -> Seq<Entry>
    decreases ts.len(),
{
    if ts.len() == 0 {
        Seq::empty()
    } else {
        ts[0] + flatten_tables(ts.drop_first())
    }
}

/// Every table holds something.
pub open spec fn none_empty(ts: Seq<Seq<Entry>>) -> bool {
    forall|i: int| 0 <= i < ts.len() ==> (#[trigger] ts[i]).len() > 0
}

/// No table ends with the user key that the next one begins with.
pub open spec fn cut_between_keys(ts: Seq<Seq<Entry>>) -> bool {
    forall|i: int| 0 < i < ts.len() ==> ts[i - 1].last().key.key != (#[trigger] ts[i])[0].key.key
}

proof fn lemma_split_tables(s: Seq<Entry>, cur: Seq<Entry>, block_size: usize, target: usize)
    ensures
        flatten_tables(split_tables(s, cur, block_size, target)) == cur + s,
        none_empty(split_tables(s, cur, block_size, target)),
        cur.len() > 0 ==> {
            let ts = split_tables(s, cur, block_size, target);
            ts.len() > 0 && cur.is_prefix_of(ts[0])
        },
        cur.len() == 0 && s.len() > 0 ==> {
            let ts = split_tables(s, cur, block_size, target);
            ts.len() > 0 && ts[0][0] == s[0]
        },
        cut_between_keys(split_tables(s, cur, block_size, target)),
    decreases s.len(),
{
    let ts = split_tables(s, cur, block_size, target);
    if s.len() == 0 {
        if cur.len() > 0 {
            let none = ts.drop_first();
            assert(none.len() == 0);
            assert(flatten_tables(none) =~= Seq::empty());
            assert(flatten_tables(ts) =~= cur + s);
        }
    } else if closes(cur, s[0], block_size, target) {
        let t = s.drop_first();
        let one = seq![s[0]];
        let rest = split_tables(t, one, block_size, target);
        lemma_split_tables(t, one, block_size, target);
        assert(ts.drop_first() =~= rest);
        assert(cur + (one + t) =~= cur + s);
        assert(one + t =~= s);
        assert(rest[0][0] == one[0]);
        assert forall|i: int| 0 < i < ts.len() implies ts[i - 1].last().key.key != (
        #[trigger] ts[i])[0].key.key by {
            assert(ts[i] == rest[i - 1]);
            if i > 1 {
                assert(ts[i - 1] == rest[i - 2]);
            }
        }
        assert forall|i: int| 0 <= i < ts.len() implies (#[trigger] ts[i]).len() > 0 by {
            if i > 0 {
                assert(ts[i] == rest[i - 1]);
            }
        }
    } else {
        let t = s.drop_first();
        lemma_split_tables(t, cur.push(s[0]), block_size, target);
        assert(cur.push(s[0]) + t =~= cur + s);
        let ts2 = split_tables(t, cur.push(s[0]), block_size, target);
        assert(cur.push(s[0]).is_prefix_of(ts2[0]));
        assert(ts2[0].take(cur.len() as int + 1) == cur.push(s[0]));
        if cur.len() == 0 {
            assert(ts2[0][0] == ts2[0].take(1)[0]);
        } else {
            assert(cur =~= ts2[0].take(cur.len() as int));
        }
    }
}

proof fn lemma_split_sizes(s: Seq<Entry>, cur: Seq<Entry>, block_size: usize, target: usize)
    requires
        forall|m: int|
            0 < m < cur.len() && cur[m - 1].key.key != cur[m].key.key ==> builder::draft_of(
                #[trigger] cur.take(m),
                block_size,
            ).data.len() < target,
    ensures
        ({
            let ts = split_tables(s, cur, block_size, target);
            &&& forall|i: int|
                0 <= i < ts.len() - 1 ==> builder::draft_of(#[trigger] ts[i], block_size).data.len()
                    >= target
            &&& forall|i: int, m: int|
                0 <= i < ts.len() && 0 < m < ts[i].len() && ts[i][m - 1].key.key
                    != ts[i][m].key.key ==> builder::draft_of(
                    #[trigger] ts[i].take(m),
                    block_size,
                ).data.len() < target
        }),
    decreases s.len(),
{
    let ts = split_tables(s, cur, block_size, target);
    if s.len() > 0 {
        let t = s.drop_first();
        if closes(cur, s[0], block_size, target) {
            let one = seq![s[0]];
            let rest = split_tables(t, one, block_size, target);
            lemma_split_sizes(t, one, block_size, target);
            assert forall|i: int| 0 <= i < ts.len() - 1 implies builder::draft_of(
                #[trigger] ts[i],
                block_size,
            ).data.len() >= target by {
                if i > 0 {
                    assert(ts[i] == rest[i - 1]);
                }
            }
            assert forall|i: int, m: int|
                0 <= i < ts.len() && 0 < m < ts[i].len() && ts[i][m - 1].key.key
                    != ts[i][m].key.key implies builder::draft_of(
                #[trigger] ts[i].take(m),
                block_size,
            ).data.len() < target by {
                if i > 0 {
                    assert(ts[i] == rest[i - 1]);
                    assert(rest[i - 1].take(m) == ts[i].take(m));
                }
            }
        } else {
            let more = cur.push(s[0]);
            assert forall|m: int|
                0 < m < more.len() && more[m - 1].key.key != more[m].key.key
                    implies builder::draft_of(
                #[trigger] more.take(m),
                block_size,
            ).data.len() < target by {
                assert(more.take(m) =~= cur.take(m));
                if m == cur.len() {
                    assert(cur.take(m) =~= cur);
                } else {
                    assert(more[m] == cur[m]);
                }
            }
            lemma_split_sizes(t, more, block_size, target);
            assert(ts == split_tables(t, more, block_size, target));
        }
    } else if cur.len() > 0 {
        assert forall|i: int, m: int|
            0 <= i < ts.len() && 0 < m < ts[i].len() && ts[i][m - 1].key.key
                != ts[i][m].key.key implies builder::draft_of(
            #[trigger] ts[i].take(m),
            block_size,
        ).data.len() < target by {
            assert(ts[i] == cur);
            assert(builder::draft_of(cur.take(m), block_size).data.len() < target);
        }
    }
}

/// The tables of a compaction hold all that was kept, in order; none is empty, and no user key has
/// versions in two neighbouring ones. The finished blocks of every table but the last reach the
/// target size, and no table goes on beyond the user key with which they do.
pub proof fn law_split_tables(s: Seq<Entry>, block_size: usize, target: usize)
    ensures
        ({
            let ts = split_tables(s, Seq::empty(), block_size, target);
            &&& flatten_tables(ts) == s
            &&& none_empty(ts)
            &&& cut_between_keys(ts)
            &&& forall|i: int|
                0 <= i < ts.len() - 1 ==> builder::draft_of(#[trigger] ts[i], block_size).data.len()
                    >= target
            &&& forall|i: int, m: int|
                0 <= i < ts.len() && 0 < m < ts[i].len() && ts[i][m - 1].key.key
                    != ts[i][m].key.key ==> builder::draft_of(
                    #[trigger] ts[i].take(m),
                    block_size,
                ).data.len() < target
        }),
{
    lemma_split_tables(s, Seq::empty(), block_size, target);
    lemma_split_sizes(s, Seq::empty(), block_size, target);
    assert(Seq::<Entry>::empty() + s =~= s);
}

} // verus!
