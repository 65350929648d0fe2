//! Versioned keys: a user key and the timestamp at which it was written.
//!
//! Keys are ordered by user key, and the versions of one user key from the newest to the oldest.
use vstd::prelude::*;

verus! {

/// The timestamp of a key that was written outside any transaction.
pub const TS_DEFAULT: u64 = 0;

/// A versioned key as a mathematical value.
#[verifier::ext_equal]
pub struct KeyView {
    pub key: Seq<u8>,
    pub ts: u64,
}

/// A key with the value that it was given. An empty value marks a deletion.
#[verifier::ext_equal]
pub struct Entry {
    pub key: KeyView,
    pub value: Seq<u8>,
}

/// `a` comes before `b` in the order of byte strings.
pub open spec fn bytes_lt(a: Seq<u8>, b: Seq<u8>) -> bool
    decreases a.len(),
{
    if b.len() == 0 {
        false
    } else if a.len() == 0 {
        true
    } else if a[0] != b[0] {
        a[0] < b[0]
    } else {
        bytes_lt(a.drop_first(), b.drop_first())
    }
}

/// `a` comes before `b`: a smaller user key, or a newer version of the same one.
pub open spec fn key_lt(a: KeyView, b: KeyView) -> bool {
    bytes_lt(a.key, b.key) || (a.key == b.key && a.ts > b.ts)
}

/// `a` does not come after `b`.
pub open spec fn key_le(a: KeyView, b: KeyView) -> bool {
    !key_lt(b, a)
}

/// The key that a plain user key stands for.
pub open spec fn user_key(key: Seq<u8>) -> KeyView {
    KeyView { key, ts: TS_DEFAULT }
}

/// The entries stand in the order of their keys, and no key occurs twice.
pub open spec fn sorted(s: Seq<Entry>) -> bool {
    forall|i: int, j: int| 0 <= i < j < s.len() ==> key_lt(#[trigger] s[i].key, #[trigger] s[j].key)
}

/// All keys are plain user keys.
pub open spec fn plain_keys(s: Seq<Entry>) -> bool {
    forall|i: int| 0 <= i < s.len() ==> (#[trigger] s[i]).key.ts == TS_DEFAULT
}

/// The value of the first entry of `s` with the key `k`.
pub open spec fn lookup(s: Seq<Entry>, k: KeyView) -> Option<Seq<u8>>
    decreases s.len(),
{
    if s.len() == 0 {
        None
    } else if s[0].key == k {
        Some(s[0].value)
    } else {
        lookup(s.drop_first(), k)
    }
}

/// How many entries of `s` stand before the first one whose key is `k` or comes after `k`.
pub open spec fn lower_bound(s: Seq<Entry>, k: KeyView) -> nat
    decreases s.len(),
{
    if s.len() == 0 || key_le(k, s[0].key) {
        0
    } else {
        1 + lower_bound(s.drop_first(), k)
    }
}

/// Of two byte strings exactly one of these holds: the first is smaller, they are equal, the
/// second is smaller.
pub broadcast proof fn lemma_bytes_trichotomy(a: Seq<u8>, b: Seq<u8>)
    ensures
        #[trigger] bytes_lt(a, b) ==> a != b && !bytes_lt(b, a),
        bytes_lt(b, a) ==> a != b,
        bytes_lt(a, b) || a == b || bytes_lt(b, a),
    decreases a.len(),
{
    if a.len() > 0 && b.len() > 0 && a[0] == b[0] {
        lemma_bytes_trichotomy(a.drop_first(), b.drop_first());
        if a.drop_first() == b.drop_first() {
            assert(a =~= seq![a[0]] + a.drop_first());
            assert(b =~= seq![b[0]] + b.drop_first());
        }
    } else if a.len() == 0 && b.len() == 0 {
        assert(a =~= b);
    }
}

/// The order of byte strings is transitive.
pub broadcast proof fn lemma_bytes_lt_transitive(a: Seq<u8>, b: Seq<u8>, c: Seq<u8>)
    requires
        #[trigger] bytes_lt(a, b),
        #[trigger] bytes_lt(b, c),
    ensures
        bytes_lt(a, c),
    decreases a.len(),
{
    if a.len() > 0 && a[0] == b[0] && b[0] == c[0] {
        lemma_bytes_lt_transitive(a.drop_first(), b.drop_first(), c.drop_first());
    }
}

pub broadcast group group_bytes_order {
    lemma_bytes_trichotomy,
    lemma_bytes_lt_transitive,
}

/// Of two keys exactly one of these holds: the first comes before, they are equal, the second
/// comes before.
pub broadcast proof fn lemma_key_trichotomy(a: KeyView, b: KeyView)
    ensures
        #[trigger] key_lt(a, b) ==> a != b && !key_lt(b, a),
        key_lt(a, b) || a == b || key_lt(b, a),
        key_lt(b, a) ==> a != b,
{
    lemma_bytes_trichotomy(a.key, b.key);
    if a.key == b.key && a.ts == b.ts {
        assert(a =~= b);
    }
}

/// The order of keys is transitive.
pub broadcast proof fn lemma_key_lt_transitive(a: KeyView, b: KeyView, c: KeyView)
    requires
        #[trigger] key_lt(a, b),
        #[trigger] key_lt(b, c),
    ensures
        key_lt(a, c),
{
    if bytes_lt(a.key, b.key) && bytes_lt(b.key, c.key) {
        lemma_bytes_lt_transitive(a.key, b.key, c.key);
    }
}

pub broadcast group group_key_order {
    lemma_key_trichotomy,
    lemma_key_lt_transitive,
}

/// The order of byte strings looks past a common prefix.
proof fn lemma_bytes_lt_skip(a: Seq<u8>, b: Seq<u8>, n: nat)
    requires
        n <= a.len(),
        n <= b.len(),
        a.take(n as int) == b.take(n as int),
    ensures
        bytes_lt(a, b) == bytes_lt(a.skip(n as int), b.skip(n as int)),
    decreases n,
{
    if n == 0 {
        assert(a.skip(0) =~= a);
        assert(b.skip(0) =~= b);
    } else {
        assert(a[0] == a.take(n as int)[0]);
        assert(b[0] == b.take(n as int)[0]);
        assert(a.drop_first().take(n - 1) =~= a.take(n as int).drop_first());
        assert(b.drop_first().take(n - 1) =~= b.take(n as int).drop_first());
        lemma_bytes_lt_skip(a.drop_first(), b.drop_first(), (n - 1) as nat);
        assert(a.drop_first().skip(n - 1) =~= a.skip(n as int));
        assert(b.drop_first().skip(n - 1) =~= b.skip(n as int));
    }
}

/// Whether `a` comes before `b`.
pub fn bytes_less(a: &[u8], b: &[u8]) -> (r: bool)
    ensures
        r == bytes_lt(a@, b@),
{
    let mut i: usize = 0;
    while i < a.len() && i < b.len() && a[i] == b[i]
        invariant
            i <= a@.len(),
            i <= b@.len(),
            a@.take(i as int) == b@.take(i as int),
        decreases a@.len() - i,
    {
        assert(a@.take(i + 1) =~= a@.take(i as int).push(a@[i as int]));
        assert(b@.take(i + 1) =~= b@.take(i as int).push(b@[i as int]));
        i = i + 1;
    }
    proof {
        lemma_bytes_lt_skip(a@, b@, i as nat);
    }
    if i == b.len() {
        false
    } else if i == a.len() {
        true
    } else {
        a[i] < b[i]
    }
}

/// Whether `a` and `b` hold the same bytes.
pub fn bytes_equal(a: &[u8], b: &[u8]) -> (r: bool)
    ensures
        r == (a@ == b@),
{
    if a.len() != b.len() {
        return false;
    }
    let mut i: usize = 0;
    while i < a.len()
        invariant
            a@.len() == b@.len(),
            i <= a@.len(),
            forall|j: int| 0 <= j < i ==> a@[j] == b@[j],
        decreases a@.len() - i,
    {
        if a[i] != b[i] {
            return false;
        }
        i = i + 1;
    }
    assert(a@ =~= b@);
    true
}

/// A copy of the bytes of `s`.
pub fn copy_bytes(s: &[u8]) -> (v: Vec<u8>)
    ensures
        v@ == s@,
{
    let mut v: Vec<u8> = Vec::new();
    v.extend_from_slice(s);
    assert(v@ =~= s@);
    v
}

/// What iterators hand out as keys: something that stands for a versioned key.
pub trait StorageKey: Sized {
    spec fn key_view(&self) -> KeyView;

    /// Whether this key comes before `other`.
    fn less(&self, other: &Self) -> (r: bool)
        ensures
            r == key_lt(self.key_view(), other.key_view()),
    ;

    /// Whether this key is `other`.
    fn same(&self, other: &Self) -> (r: bool)
        ensures
            r == (self.key_view() == other.key_view()),
    ;
}

/// A borrowed key.
#[derive(Clone, Copy, Debug)]
pub struct KeySlice<'a> {
    pub key: &'a [u8],
    pub ts: u64,
}

impl<'a> View for KeySlice<'a> {
    type V = KeyView;

    open spec fn view(&self) -> KeyView {
        KeyView { key: self.key@, ts: self.ts }
    }
}

impl<'a> StorageKey for KeySlice<'a> {
    open spec fn key_view(&self) -> KeyView {
        self@
    }

    fn less(&self, other: &Self) -> (r: bool) {
        proof {
            lemma_bytes_trichotomy(self.key@, other.key@);
        }
        if bytes_less(self.key, other.key) {
            true
        } else if self.ts > other.ts {
            bytes_equal(self.key, other.key)
        } else {
            false
        }
    }

    fn same(&self, other: &Self) -> (r: bool) {
        self.ts == other.ts && bytes_equal(self.key, other.key)
    }
}

impl<'a> StorageKey for &'a [u8] {
    open spec fn key_view(&self) -> KeyView {
        user_key(self@)
    }

    fn less(&self, other: &Self) -> (r: bool) {
        bytes_less(*self, *other)
    }

    fn same(&self, other: &Self) -> (r: bool) {
        bytes_equal(*self, *other)
    }
}

impl<'a> KeySlice<'a> {
    /// The key that a plain user key stands for.
    pub fn from_slice(key: &'a [u8]) -> (r: Self)
        ensures
            r@ == user_key(key@),
            r.key == key,
    {
        KeySlice { key, ts: TS_DEFAULT }
    }

    /// One version of a user key.
    pub fn from_slice_with_ts(key: &'a [u8], ts: u64) -> (r: Self)
        ensures
            r@ == (KeyView { key: key@, ts }),
            r.key == key,
    {
        KeySlice { key, ts }
    }

    /// The user key.
    pub fn key_ref(&self) -> (r: &'a [u8])
        ensures
            r == self.key,
    {
        self.key
    }

    /// The length of the user key.
    pub fn key_len(&self) -> (r: usize)
        ensures
            r == self@.key.len(),
    {
        self.key.len()
    }

    pub fn ts(&self) -> (r: u64)
        ensures
            r == self@.ts,
    {
        self.ts
    }

    pub fn to_key_vec(&self) -> (r: KeyVec)
        ensures
            r@ == self@,
    {
        KeyVec { key: copy_bytes(self.key), ts: self.ts }
    }
}

/// An owned key.
#[derive(Debug)]
pub struct KeyVec {
    pub key: Vec<u8>,
    pub ts: u64,
}

/// A key as block and table metadata keep it.
pub type KeyBytes = KeyVec;

impl View for KeyVec {
    type V = KeyView;

    open spec fn view(&self) -> KeyView {
        KeyView { key: self.key@, ts: self.ts }
    }
}

impl Clone for KeyVec {
    fn clone(&self) -> (r: Self)
        ensures
            r@ == self@,
    {
        KeyVec { key: copy_bytes(self.key.as_slice()), ts: self.ts }
    }
}

impl KeyVec {
    /// The empty key.
    pub fn new() -> (r: Self)
        ensures
            r@ == user_key(Seq::empty()),
    {
        KeyVec { key: Vec::new(), ts: TS_DEFAULT }
    }

    /// The key that a plain user key stands for.
    pub fn from_vec(key: Vec<u8>) -> (r: Self)
        ensures
            r@ == user_key(key@),
    {
        KeyVec { key, ts: TS_DEFAULT }
    }

    /// One version of a user key.
    pub fn from_vec_with_ts(key: Vec<u8>, ts: u64) -> (r: Self)
        ensures
            r@ == (KeyView { key: key@, ts }),
    {
        KeyVec { key, ts }
    }

    pub fn as_key_slice(&self) -> (r: KeySlice<'_>)
        ensures
            r@ == self@,
    {
        KeySlice { key: self.key.as_slice(), ts: self.ts }
    }

    /// The user key.
    pub fn key_ref(&self) -> (r: &[u8])
        ensures
            r@ == self@.key,
    {
        self.key.as_slice()
    }

    /// The length of the user key.
    pub fn key_len(&self) -> (r: usize)
        ensures
            r == self@.key.len(),
    {
        self.key.len()
    }

    pub fn ts(&self) -> (r: u64)
        ensures
            r == self@.ts,
    {
        self.ts
    }

    /// Whether the user key is empty.
    pub fn is_empty(&self) -> (r: bool)
        ensures
            r == (self@.key.len() == 0),
    {
        self.key.len() == 0
    }

    /// Makes this key a copy of `other`.
    pub fn set_from_slice(&mut self, other: KeySlice<'_>)
        ensures
            final(self)@ == other@,
    {
        self.key = copy_bytes(other.key);
        self.ts = other.ts;
    }
}

/// A first entry at or after `k` divides a sorted sequence: all before it come before `k`, none
/// from it on does.
pub proof fn lemma_lower_bound(s: Seq<Entry>, k: KeyView)
    ensures
        lower_bound(s, k) <= s.len(),
        forall|i: int| 0 <= i < lower_bound(s, k) ==> key_lt(#[trigger] s[i].key, k),
        lower_bound(s, k) < s.len() ==> key_le(k, s[lower_bound(s, k) as int].key),
        sorted(s) ==> forall|i: int|
            lower_bound(s, k) <= i < s.len() ==> key_le(k, #[trigger] s[i].key),
    decreases s.len(),
{
    broadcast use group_key_order;

    if s.len() > 0 && key_lt(s[0].key, k) {
        let t = s.drop_first();
        lemma_lower_bound(t, k);
        assert forall|i: int| 0 <= i < lower_bound(s, k) implies key_lt(#[trigger] s[i].key, k) by {
            if i > 0 {
                assert(s[i] == t[i - 1]);
            }
        }
    }
    if sorted(s) {
        let p = lower_bound(s, k) as int;
        assert forall|i: int| p <= i < s.len() implies key_le(k, #[trigger] s[i].key) by {
            if p < i {
                assert(key_lt(s[p].key, s[i].key));
            }
        }
    }
}

/// `lower_bound` is pinned down by what it divides.
pub proof fn lemma_lower_bound_unique(s: Seq<Entry>, k: KeyView, p: int)
    requires
        0 <= p <= s.len(),
        forall|i: int| 0 <= i < p ==> key_lt(#[trigger] s[i].key, k),
        p < s.len() ==> key_le(k, s[p].key),
    ensures
        lower_bound(s, k) == p,
{
    lemma_lower_bound(s, k);
    let q = lower_bound(s, k) as int;
    if p < q {
        assert(key_lt(s[p].key, k));
    } else if q < p {
        assert(key_lt(s[q].key, k));
    }
}

/// A key is found in a sequence exactly if one of the entries has it, and then in the first such.
pub proof fn lemma_lookup(s: Seq<Entry>, k: KeyView)
    ensures
        lookup(s, k) is None <==> (forall|i: int| 0 <= i < s.len() ==> #[trigger] s[i].key != k),
        sorted(s) ==> forall|i: int|
            0 <= i < s.len() && #[trigger] s[i].key == k ==> lookup(s, k) == Some(s[i].value),
    decreases s.len(),
{
    broadcast use group_key_order;

    if s.len() > 0 {
        let t = s.drop_first();
        lemma_lookup(t, k);
        assert forall|i: int| 0 < i < s.len() implies #[trigger] s[i] == t[i - 1] by {}
        if lookup(s, k) is None {
            assert forall|i: int| 0 <= i < s.len() implies #[trigger] s[i].key != k by {
                if i > 0 {
                    assert(s[i] == t[i - 1]);
                }
            }
        } else if s[0].key != k {
            let j = choose|j: int| 0 <= j < t.len() && #[trigger] t[j].key == k;
            assert(s[j + 1] == t[j]);
        }
        if sorted(s) {
            assert(sorted(t));
            assert forall|i: int| 0 <= i < s.len() && #[trigger] s[i].key == k implies lookup(s, k)
                == Some(s[i].value) by {
                if i > 0 {
                    assert(s[i] == t[i - 1]);
                    assert(key_lt(s[0].key, s[i].key));
                }
            }
        }
    }
}

/// All entries of `s` have keys that come after `k`.
pub open spec fn all_after(s: Seq<Entry>, k: KeyView) -> bool {
    forall|i: int| 0 <= i < s.len() ==> key_lt(k, #[trigger] s[i].key)
}

pub proof fn lemma_sorted_drop_first(s: Seq<Entry>)
    requires
        sorted(s),
        s.len() > 0,
    ensures
        sorted(s.drop_first()),
        all_after(s.drop_first(), s[0].key),
{
    let t = s.drop_first();
    assert forall|i: int, j: int| 0 <= i < j < t.len() implies key_lt(
        #[trigger] t[i].key,
        #[trigger] t[j].key,
    ) by {
        assert(t[i] == s[i + 1]);
        assert(t[j] == s[j + 1]);
    }
    assert forall|i: int| 0 <= i < t.len() implies key_lt(s[0].key, #[trigger] t[i].key) by {
        assert(t[i] == s[i + 1]);
    }
}

pub proof fn lemma_sorted_cons(e: Entry, s: Seq<Entry>)
    requires
        sorted(s),
        all_after(s, e.key),
    ensures
        sorted(seq![e] + s),
{
    let t = seq![e] + s;
    assert forall|i: int, j: int| 0 <= i < j < t.len() implies key_lt(
        #[trigger] t[i].key,
        #[trigger] t[j].key,
    ) by {
        assert(t[j] == s[j - 1]);
        if i > 0 {
            assert(t[i] == s[i - 1]);
        }
    }
}

pub proof fn lemma_all_after_cons(e: Entry, s: Seq<Entry>, k: KeyView)
    requires
        all_after(s, k),
        key_lt(k, e.key),
    ensures
        all_after(seq![e] + s, k),
{
    let t = seq![e] + s;
    assert forall|i: int| 0 <= i < t.len() implies key_lt(k, #[trigger] t[i].key) by {
        if i > 0 {
            assert(t[i] == s[i - 1]);
        }
    }
}

/// A key before all entries is not found among them.
pub proof fn lemma_lookup_before(s: Seq<Entry>, k: KeyView)
    requires
        all_after(s, k),
    ensures
        lookup(s, k) is None,
{
    broadcast use group_key_order;

    lemma_lookup(s, k);
}

pub proof fn lemma_all_after_le(s: Seq<Entry>, j: KeyView, k: KeyView)
    requires
        all_after(s, k),
        key_le(j, k),
    ensures
        all_after(s, j),
{
    broadcast use group_key_order;

}

/// Sorted sequences in which every key is found with the same value are the same.
pub proof fn lemma_same_lookups(a: Seq<Entry>, b: Seq<Entry>)
    requires
        sorted(a),
        sorted(b),
        forall|k: KeyView| #[trigger] lookup(a, k) == lookup(b, k),
    ensures
        a == b,
    decreases a.len(),
{
    broadcast use group_key_order;

    if a.len() == 0 {
        if b.len() > 0 {
            assert(lookup(a, b[0].key) == lookup(b, b[0].key));
        }
        assert(a =~= b);
    } else {
        let ta = a.drop_first();
        let tb = b.drop_first();
        assert(lookup(a, a[0].key) == lookup(b, a[0].key));
        assert(b.len() > 0);
        assert(lookup(a, b[0].key) == lookup(b, b[0].key));
        lemma_lookup(b, a[0].key);
        lemma_lookup(a, b[0].key);
        assert(a[0].key == b[0].key);
        lemma_sorted_drop_first(a);
        lemma_sorted_drop_first(b);
        assert forall|k: KeyView| #[trigger] lookup(ta, k) == lookup(tb, k) by {
            assert(lookup(a, k) == lookup(b, k));
            if k == a[0].key {
                lemma_lookup_before(ta, k);
                lemma_lookup_before(tb, k);
            }
        }
        lemma_same_lookups(ta, tb);
        assert(a =~= seq![a[0]] + ta);
        assert(b =~= seq![b[0]] + tb);
    }
}

/// The order of byte strings is that of their first bytes that differ; a string comes before those
/// that it begins.
pub proof fn law_bytes_order(a: Seq<u8>, b: Seq<u8>)
    ensures
        bytes_lt(a, b) <==> exists|p: int|
            {
                &&& 0 <= p <= a.len()
                &&& p < b.len()
                &&& #[trigger] a.take(p) == b.take(p)
                &&& p == a.len() || a[p] < b[p]
            },
    decreases a.len(),
{
    if b.len() > 0 {
        if a.len() == 0 || a[0] != b[0] {
            assert(a.take(0) =~= b.take(0));
            if exists|p: int|
                {
                    &&& 0 <= p <= a.len()
                    &&& p < b.len()
                    &&& #[trigger] a.take(p) == b.take(p)
                    &&& p == a.len() || a[p] < b[p]
                } {
                let p = choose|p: int|
                    {
                        &&& 0 <= p <= a.len()
                        &&& p < b.len()
                        &&& #[trigger] a.take(p) == b.take(p)
                        &&& p == a.len() || a[p] < b[p]
                    };
                if p > 0 {
                    assert(a[0] == a.take(p)[0]);
                    assert(b[0] == b.take(p)[0]);
                }
            }
        } else {
            let x = a.drop_first();
            let y = b.drop_first();
            law_bytes_order(x, y);
            assert forall|p: int| 0 <= p <= x.len() && p < y.len() && #[trigger] x.take(p)
                == y.take(p) implies a.take(p + 1) == b.take(p + 1) by {
                assert(a.take(p + 1) =~= seq![a[0]] + x.take(p));
                assert(b.take(p + 1) =~= seq![b[0]] + y.take(p));
            }
            if bytes_lt(x, y) {
                let p = choose|p: int|
                    {
                        &&& 0 <= p <= x.len()
                        &&& p < y.len()
                        &&& #[trigger] x.take(p) == y.take(p)
                        &&& p == x.len() || x[p] < y[p]
                    };
                assert(a.take(p + 1) == b.take(p + 1));
            }
            if exists|p: int|
                {
                    &&& 0 <= p <= a.len()
                    &&& p < b.len()
                    &&& #[trigger] a.take(p) == b.take(p)
                    &&& p == a.len() || a[p] < b[p]
                } {
                let p = choose|p: int|
                    {
                        &&& 0 <= p <= a.len()
                        &&& p < b.len()
                        &&& #[trigger] a.take(p) == b.take(p)
                        &&& p == a.len() || a[p] < b[p]
                    };
                assert(p > 0);
                assert(x.take(p - 1) =~= a.take(p).drop_first());
                assert(y.take(p - 1) =~= b.take(p).drop_first());
            }
        }
    }
}

/// Versions stand in the order of their user keys, and those of one user key from the newest to the
/// oldest. A plain user key stands for the version with the timestamp 0.
pub proof fn law_key_order(a: KeyView, b: KeyView)
    ensures
        bytes_lt(a.key, b.key) ==> key_lt(a, b) && !key_lt(b, a),
        a.key == b.key ==> (key_lt(a, b) <==> a.ts > b.ts),
        key_le(a, b) <==> a == b || key_lt(a, b),
        user_key(a.key).key == a.key,
        user_key(a.key).ts == 0,
{
    broadcast use group_key_order, group_bytes_order;

}

/// A sorted sequence gives for the key of each of its entries the value of that entry, and nothing
/// for any other key.
pub proof fn law_lookup(s: Seq<Entry>, k: KeyView)
    requires
        sorted(s),
    ensures
        forall|i: int| 0 <= i < s.len() && #[trigger] s[i].key == k
            ==> lookup(s, k) == Some(s[i].value),
        (forall|i: int| 0 <= i < s.len() ==> #[trigger] s[i].key != k) ==> lookup(s, k) is None,
{
    lemma_lookup(s, k);
}

} // verus!
