//! An ordered map from versioned keys to values, held in a skip list.
//!
//! The skip list orders its keys upwards. A version is kept under the pair of its user key and
//! its rank, which counts down from the newest timestamp: the order of these pairs is that of the
//! versioned keys.
use crate::bound::{self, Bound};
use crate::iterators;
use crate::key::{self, Entry, KeySlice, KeyVec, KeyView, copy_bytes};
use crossbeam_skiplist::SkipMap;
use vstd::prelude::*;

verus! {

/// A skip list that holds values under pairs of a user key and a rank.
pub type VersionMap = SkipMap<(Vec<u8>, u64), Vec<u8>>;

/// `crossbeam_skiplist::SkipMap`.
#[verifier::external_type_specification]
#[verifier::external_body]
#[verifier::reject_recursive_types(K)]
#[verifier::reject_recursive_types(V)]
pub struct ExSkipMap<K, V>(SkipMap<K, V>);

/// What a skip list holds.
pub uninterp spec fn contents(m: VersionMap) -> Map<(Seq<u8>, u64), Seq<u8>>;

/// The order of the keys of the skip list: pairs compare by their first parts, and where these
/// are equal by their second parts.
pub open spec fn slot_lt(a: (Seq<u8>, u64), b: (Seq<u8>, u64)) -> bool {
    key::bytes_lt(a.0, b.0) || (a.0 == b.0 && a.1 < b.1)
}

/// One end of a range of pairs as a mathematical value.
pub open spec fn slot_bound(b: Bound<(Vec<u8>, u64)>) -> Bound<(Seq<u8>, u64)> {
    match b {
        Bound::Included(k) => Bound::Included((k.0@, k.1)),
        Bound::Excluded(k) => Bound::Excluded((k.0@, k.1)),
        Bound::Unbounded => Bound::Unbounded,
    }
}

/// A pair lies between two ends.
pub open spec fn slot_in(
    s: (Seq<u8>, u64),
    lower: Bound<(Seq<u8>, u64)>,
    upper: Bound<(Seq<u8>, u64)>,
) -> bool {
    &&& match lower {
        Bound::Included(l) => !slot_lt(s, l),
        Bound::Excluded(l) => slot_lt(l, s),
        Bound::Unbounded => true,
    }
    &&& match upper {
        Bound::Included(u) => !slot_lt(u, s),
        Bound::Excluded(u) => slot_lt(s, u),
        Bound::Unbounded => true,
    }
}

/// The pair under which an item was found.
pub open spec fn slot_of_item(item: (Vec<u8>, u64, Vec<u8>)) -> (Seq<u8>, u64) {
    (item.0@, item.1)
}

/// `items` are what `c` holds between two ends, in order.
pub open spec fn lists_range(
    items: Seq<(Vec<u8>, u64, Vec<u8>)>,
    c: Map<(Seq<u8>, u64), Seq<u8>>,
    lower: Bound<(Seq<u8>, u64)>,
    upper: Bound<(Seq<u8>, u64)>,
) -> bool {
    &&& forall|i: int, j: int|
        0 <= i < j < items.len() ==> slot_lt(
            slot_of_item(#[trigger] items[i]),
            slot_of_item(#[trigger] items[j]),
        )
    &&& forall|i: int|
        0 <= i < items.len() ==> {
            &&& c.contains_key(slot_of_item(#[trigger] items[i]))
            &&& c[slot_of_item(items[i])] == items[i].2@
            &&& slot_in(slot_of_item(items[i]), lower, upper)
        }
    &&& forall|s: (Seq<u8>, u64)| #[trigger]
        c.contains_key(s) && slot_in(s, lower, upper) ==> exists|i: int|
            0 <= i < items.len() && slot_of_item(#[trigger] items[i]) == s
}

/// `SkipMap::new`: a skip list that holds nothing.
#[verifier::external_body]
pub(crate) fn map_new() -> (m: VersionMap)
    ensures
        contents(m).is_empty(),
{
    SkipMap::new()
}

/// `SkipMap::insert`: puts a value under a key, in place of the one that was there.
#[verifier::external_body]
pub(crate) fn map_insert(m: &mut VersionMap, key: Vec<u8>, rank: u64, value: Vec<u8>)
    ensures
        contents(*final(m)) == contents(*old(m)).insert((key@, rank), value@),
{
    m.insert((key, rank), value);
}

/// `SkipMap::get`: the value under a key, if there is one.
#[verifier::external_body]
pub(crate) fn map_get(m: &VersionMap, key: Vec<u8>, rank: u64) -> (r: Option<Vec<u8>>)
    ensures
        r is Some <==> contents(*m).contains_key((key@, rank)),
        r matches Some(v) ==> v@ == contents(*m)[(key@, rank)],
{
    m.get(&(key, rank)).map(|e| e.value().clone())
}

/// `SkipMap::range`: what the skip list holds between two ends, in order. If the lower end lies
/// above the upper one, that is nothing.
#[verifier::external_body]
pub(crate) fn map_range(
    m: &VersionMap,
    lower: Bound<(Vec<u8>, u64)>,
    upper: Bound<(Vec<u8>, u64)>,
) -> (r: Vec<(Vec<u8>, u64, Vec<u8>)>)
    ensures
        lists_range(r@, contents(*m), slot_bound(lower), slot_bound(upper)),
{
    let lo = match lower {
        Bound::Included(k) => std::ops::Bound::Included(k),
        Bound::Excluded(k) => std::ops::Bound::Excluded(k),
        Bound::Unbounded => std::ops::Bound::Unbounded,
    };
    let hi = match upper {
        Bound::Included(k) => std::ops::Bound::Included(k),
        Bound::Excluded(k) => std::ops::Bound::Excluded(k),
        Bound::Unbounded => std::ops::Bound::Unbounded,
    };
    m.range((lo, hi)).map(|e| (e.key().0.clone(), e.key().1, e.value().clone())).collect()
}

/// `SkipMap::iter`: all that the skip list holds, in order.
#[verifier::external_body]
pub(crate) fn map_iter(m: &VersionMap) -> (r: Vec<(Vec<u8>, u64, Vec<u8>)>)
    ensures
        lists_range(r@, contents(*m), Bound::Unbounded, Bound::Unbounded),
{
    m.iter().map(|e| (e.key().0.clone(), e.key().1, e.value().clone())).collect()
}

/// `SkipMap::is_empty`: whether the skip list holds nothing.
#[verifier::external_body]
pub(crate) fn map_is_empty(m: &VersionMap) -> (r: bool)
    ensures
        r == contents(*m).is_empty(),
{
    m.is_empty()
}

/// The pair under which a version is kept.
pub open spec fn slot_of(k: KeyView) -> (Seq<u8>, u64) {
    (k.key, (u64::MAX - k.ts) as u64)
}

/// The version that is kept under a pair.
pub open spec fn key_of(s: (Seq<u8>, u64)) -> KeyView {
    KeyView { key: s.0, ts: (u64::MAX - s.1) as u64 }
}

/// The value of a version.
pub open spec fn version(c: Map<(Seq<u8>, u64), Seq<u8>>, k: KeyView) -> Option<Seq<u8>> {
    if c.contains_key(slot_of(k)) {
        Some(c[slot_of(k)])
    } else {
        None
    }
}

/// `s` is the sorted sequence of all versions.
pub open spec fn is_listing(s: Seq<Entry>, c: Map<(Seq<u8>, u64), Seq<u8>>) -> bool {
    key::sorted(s) && forall|k: KeyView| #[trigger] key::lookup(s, k) == version(c, k)
}

/// All versions, sorted.
pub open spec fn listing(c: Map<(Seq<u8>, u64), Seq<u8>>) -> Seq<Entry> {
    choose|s: Seq<Entry>| is_listing(s, c)
}

/// The order of versions is that of the pairs under which they are kept.
pub proof fn lemma_slot_order(a: KeyView, b: KeyView)
    ensures
        slot_lt(slot_of(a), slot_of(b)) == key::key_lt(a, b),
        key_of(slot_of(a)) == a,
        slot_of(a) == slot_of(b) <==> a == b,
{
    assert(key_of(slot_of(a)) =~= a);
    assert(key_of(slot_of(b)) =~= b);
}

/// A version can be put into a sorted sequence.
pub proof fn lemma_put(s: Seq<Entry>, e: Entry) -> (r: Seq<Entry>)
    requires
        key::sorted(s),
    ensures
        key::sorted(r),
        forall|k: KeyView| #[trigger]
            key::lookup(r, k) == if k == e.key {
                Some(e.value)
            } else {
                key::lookup(s, k)
            },
{
    let one = seq![e];
    assert(key::sorted(one));
    assert forall|k: KeyView| #[trigger]
        key::lookup(iterators::merge2(one, s), k) == if k == e.key {
            Some(e.value)
        } else {
            key::lookup(s, k)
        } by {
        iterators::law_merge2(one, s, k);
        key::lemma_lookup(one, k);
        assert(one[0].key == e.key);
    }
    iterators::law_merge2(one, s, e.key);
    iterators::merge2(one, s)
}

/// What a finite map holds can be listed.
pub proof fn lemma_listing(c: Map<(Seq<u8>, u64), Seq<u8>>)
    requires
        c.dom().finite(),
    ensures
        is_listing(listing(c), c),
    decreases c.dom().len(),
{
    let s = lemma_some_listing(c);
    assert(is_listing(s, c));
}

proof fn lemma_some_listing(c: Map<(Seq<u8>, u64), Seq<u8>>) -> (s: Seq<Entry>)
    requires
        c.dom().finite(),
    ensures
        is_listing(s, c),
    decreases c.dom().len(),
{
    if c.dom().len() == 0 {
        assert(c.dom() =~= Set::empty());
        assert forall|k: KeyView| #[trigger]
            key::lookup(Seq::<Entry>::empty(), k) == version(c, k) by {
            assert(!c.dom().contains(slot_of(k)));
        }
        Seq::empty()
    } else {
        let slot = c.dom().choose();
        assert(c.dom().contains(slot));
        let k0 = key_of(slot);
        assert(slot_of(k0) =~= slot);
        let rest = lemma_some_listing(c.remove(slot));
        let r = lemma_put(rest, Entry { key: k0, value: c[slot] });
        assert forall|k: KeyView| #[trigger] key::lookup(r, k) == version(c, k) by {
            lemma_slot_order(k, k0);
            assert(key::lookup(rest, k) == version(c.remove(slot), k));
        }
        r
    }
}

/// A listing is pinned down by what it lists.
pub proof fn lemma_listing_unique(s: Seq<Entry>, c: Map<(Seq<u8>, u64), Seq<u8>>)
    requires
        is_listing(s, c),
    ensures
        s == listing(c),
{
    let t = listing(c);
    assert forall|k: KeyView| #[trigger] key::lookup(s, k) == key::lookup(t, k) by {
        assert(key::lookup(s, k) == version(c, k));
        assert(key::lookup(t, k) == version(c, k));
    }
    key::lemma_same_lookups(s, t);
}

/// Key-value pairs as entries.
pub open spec fn pairs_view(pairs: Seq<(KeyVec, Vec<u8>)>) -> Seq<Entry> {
    pairs.map_values(|p: (KeyVec, Vec<u8>)| Entry { key: p.0@, value: p.1@ })
}

/// The versions that items of a skip list stand for.
fn items_to_pairs(items: Vec<(Vec<u8>, u64, Vec<u8>)>) -> (pairs: Vec<(KeyVec, Vec<u8>)>)
    ensures
        pairs@.len() == items@.len(),
        forall|i: int|
            0 <= i < items@.len() ==> #[trigger] pairs_view(pairs@)[i] == (Entry {
                key: key_of(slot_of_item(items@[i])),
                value: items@[i].2@,
            }),
{
    let mut pairs: Vec<(KeyVec, Vec<u8>)> = Vec::new();
    let mut i: usize = 0;
    while i < items.len()
        invariant
            i <= items@.len(),
            pairs@.len() == i,
            forall|j: int|
                0 <= j < i ==> #[trigger] pairs_view(pairs@)[j] == (Entry {
                    key: key_of(slot_of_item(items@[j])),
                    value: items@[j].2@,
                }),
        decreases items@.len() - i,
    {
        let item: &(Vec<u8>, u64, Vec<u8>) = &items[i];
        let ghost before = pairs@;
        let key: KeyVec = KeyVec::from_vec_with_ts(
            copy_bytes(item.0.as_slice()),
            u64::MAX - item.1,
        );
        pairs.push((key, copy_bytes(item.2.as_slice())));
        assert forall|j: int| 0 <= j < i implies #[trigger] pairs_view(pairs@)[j] == pairs_view(
            before,
        )[j] by {}
        i = i + 1;
    }
    pairs
}

/// Where a range of user keys begins among the pairs.
fn lower_slot(lower: &Bound<&[u8]>) -> (r: Bound<(Vec<u8>, u64)>)
    ensures
        forall|k: KeyView| #[trigger]
            bound::above_lower(k.key, lower@)
                <==> slot_in(slot_of(k), slot_bound(r), Bound::Unbounded),
{
    let r: Bound<(Vec<u8>, u64)> = match lower {
        Bound::Included(k) => Bound::Included((copy_bytes(*k), 0)),
        Bound::Excluded(k) => Bound::Excluded((copy_bytes(*k), u64::MAX)),
        Bound::Unbounded => Bound::Unbounded,
    };
    assert forall|k: KeyView| #[trigger]
        bound::above_lower(k.key, lower@)
            <==> slot_in(slot_of(k), slot_bound(r), Bound::Unbounded) by {
        match lower@ {
            Bound::Included(l) => key::lemma_bytes_trichotomy(k.key, l),
            Bound::Excluded(l) => key::lemma_bytes_trichotomy(k.key, l),
            Bound::Unbounded => {},
        }
    }
    r
}

/// Where a range of user keys ends among the pairs.
fn upper_slot(upper: &Bound<&[u8]>) -> (r: Bound<(Vec<u8>, u64)>)
    ensures
        forall|k: KeyView| #[trigger]
            bound::below_upper(k.key, upper@)
                <==> slot_in(slot_of(k), Bound::Unbounded, slot_bound(r)),
{
    let r: Bound<(Vec<u8>, u64)> = match upper {
        Bound::Included(k) => Bound::Included((copy_bytes(*k), u64::MAX)),
        Bound::Excluded(k) => Bound::Excluded((copy_bytes(*k), 0)),
        Bound::Unbounded => Bound::Unbounded,
    };
    assert forall|k: KeyView| #[trigger]
        bound::below_upper(k.key, upper@)
            <==> slot_in(slot_of(k), Bound::Unbounded, slot_bound(r)) by {
        match upper@ {
            Bound::Included(u) => key::lemma_bytes_trichotomy(k.key, u),
            Bound::Excluded(u) => key::lemma_bytes_trichotomy(k.key, u),
            Bound::Unbounded => {},
        }
    }
    r
}

/// What the items of a range stand for.
proof fn lemma_items_sorted(
    items: Seq<(Vec<u8>, u64, Vec<u8>)>,
    c: Map<(Seq<u8>, u64), Seq<u8>>,
    lower: Bound<(Seq<u8>, u64)>,
    upper: Bound<(Seq<u8>, u64)>,
    es: Seq<Entry>,
)
    requires
        lists_range(items, c, lower, upper),
        es.len() == items.len(),
        forall|i: int|
            0 <= i < items.len() ==> #[trigger] es[i] == (Entry {
                key: key_of(slot_of_item(items[i])),
                value: items[i].2@,
            }),
    ensures
        key::sorted(es),
        forall|k: KeyView| #[trigger]
            key::lookup(es, k) == if slot_in(slot_of(k), lower, upper) {
                version(c, k)
            } else {
                None
            },
{
    assert forall|i: int| 0 <= i < items.len() implies slot_of(#[trigger] es[i].key)
        == slot_of_item(items[i]) by {
        assert(es[i].key == key_of(slot_of_item(items[i])));
        assert(slot_of(key_of(slot_of_item(items[i]))) =~= slot_of_item(items[i]));
    }
    assert forall|i: int, j: int| 0 <= i < j < es.len() implies key::key_lt(
        #[trigger] es[i].key,
        #[trigger] es[j].key,
    ) by {
        assert(slot_lt(slot_of_item(items[i]), slot_of_item(items[j])));
        lemma_slot_order(es[i].key, es[j].key);
    }
    assert forall|k: KeyView| #[trigger]
        key::lookup(es, k) == if slot_in(slot_of(k), lower, upper) {
            version(c, k)
        } else {
            None
        } by {
        key::lemma_lookup(es, k);
        if key::lookup(es, k) is Some {
            let i = choose|i: int| 0 <= i < es.len() && #[trigger] es[i].key == k;
            assert(slot_of(es[i].key) == slot_of_item(items[i]));
            assert(key::lookup(es, k) == Some(es[i].value));
        } else if slot_in(slot_of(k), lower, upper) && c.contains_key(slot_of(k)) {
            let i = choose|i: int|
                0 <= i < items.len() && slot_of_item(#[trigger] items[i]) == slot_of(k);
            assert(slot_of(es[i].key) == slot_of_item(items[i]));
            lemma_slot_order(es[i].key, k);
            assert(es[i].key == k);
        }
    }
}

/// Keeps a version in place of one with the same key.
pub(crate) fn put_version(m: &mut VersionMap, key: KeySlice<'_>, value: &[u8])
    ensures
        contents(*final(m)) == contents(*old(m)).insert(slot_of(key@), value@),
{
    map_insert(m, copy_bytes(key.key), u64::MAX - key.ts, copy_bytes(value))
}

/// The value of a version.
pub(crate) fn get_version(m: &VersionMap, key: KeySlice<'_>) -> (r: Option<Vec<u8>>)
    ensures
        r is Some <==> version(contents(*m), key@) is Some,
        r matches Some(v) ==> version(contents(*m), key@) == Some(v@),
{
    map_get(m, copy_bytes(key.key), u64::MAX - key.ts)
}

/// All versions, sorted.
pub(crate) fn all_versions(m: &VersionMap) -> (pairs: Vec<(KeyVec, Vec<u8>)>)
    ensures
        is_listing(pairs_view(pairs@), contents(*m)),
        pairs_view(pairs@) == listing(contents(*m)),
{
    let items: Vec<(Vec<u8>, u64, Vec<u8>)> = map_iter(m);
    let ghost its = items@;
    let pairs: Vec<(KeyVec, Vec<u8>)> = items_to_pairs(items);
    proof {
        lemma_items_sorted(
            its,
            contents(*m),
            Bound::Unbounded,
            Bound::Unbounded,
            pairs_view(pairs@),
        );
        lemma_listing_unique(pairs_view(pairs@), contents(*m));
    }
    pairs
}

/// The versions of the user keys in a range, sorted.
pub(crate) fn versions_in(m: &VersionMap, lower: &Bound<&[u8]>, upper: &Bound<&[u8]>) -> (pairs:
    Vec<(KeyVec, Vec<u8>)>)
    requires
        contents(*m).dom().finite(),
    ensures
        pairs_view(pairs@) == bound::clip(listing(contents(*m)), lower@, upper@),
        key::sorted(pairs_view(pairs@)),
{
    let lo: Bound<(Vec<u8>, u64)> = lower_slot(lower);
    let hi: Bound<(Vec<u8>, u64)> = upper_slot(upper);
    let ghost slo = slot_bound(lo);
    let ghost shi = slot_bound(hi);
    let items: Vec<(Vec<u8>, u64, Vec<u8>)> = map_range(m, lo, hi);
    let ghost its = items@;
    let pairs: Vec<(KeyVec, Vec<u8>)> = items_to_pairs(items);
    proof {
        let c = contents(*m);
        let es = pairs_view(pairs@);
        lemma_items_sorted(its, c, slo, shi, es);
        lemma_listing(c);
        let all = listing(c);
        bound::lemma_clip(all, lower@, upper@);
        assert forall|k: KeyView| #[trigger] key::lookup(es, k)
            == key::lookup(bound::clip(all, lower@, upper@), k) by {
            assert(
                bound::above_lower(k.key, lower@) <==> slot_in(slot_of(k), slo, Bound::Unbounded)
            );
            assert(
                bound::below_upper(k.key, upper@) <==> slot_in(slot_of(k), Bound::Unbounded, shi)
            );
            assert(key::lookup(all, k) == version(c, k));
        }
        key::lemma_same_lookups(es, bound::clip(all, lower@, upper@));
    }
    pairs
}

} // verus!
