//! Ends of key ranges.
use crate::key::{self, Entry, KeyView, TS_DEFAULT, copy_bytes};
use vstd::prelude::*;

verus! {

/// One end of a range of user keys.
#[derive(Debug)]
pub enum Bound<T> {
    /// The range ends with this key.
    Included(T),
    /// The range ends right before or right behind this key.
    Excluded(T),
    /// The range has no end on this side.
    Unbounded,
}

impl<T: View> View for Bound<T> {
    type V = Bound<T::V>;

    open spec fn view(&self) -> Bound<T::V> {
        match self {
            Bound::Included(k) => Bound::Included(k@),
            Bound::Excluded(k) => Bound::Excluded(k@),
            Bound::Unbounded => Bound::Unbounded,
        }
    }
}

/// A user key is not cut off by the lower end of a range.
pub open spec fn above_lower(k: Seq<u8>, lower: Bound<Seq<u8>>) -> bool {
    match lower {
        Bound::Included(l) => !key::bytes_lt(k, l),
        Bound::Excluded(l) => key::bytes_lt(l, k),
        Bound::Unbounded => true,
    }
}

/// A user key is not cut off by the upper end of a range.
pub open spec fn below_upper(k: Seq<u8>, upper: Bound<Seq<u8>>) -> bool {
    match upper {
        Bound::Included(u) => !key::bytes_lt(u, k),
        Bound::Excluded(u) => key::bytes_lt(k, u),
        Bound::Unbounded => true,
    }
}

/// A user key lies in a range.
pub open spec fn in_range(k: Seq<u8>, lower: Bound<Seq<u8>>, upper: Bound<Seq<u8>>) -> bool {
    above_lower(k, lower) && below_upper(k, upper)
}

/// The entries whose user keys lie in a range.
pub open spec fn clip(s: Seq<Entry>, lower: Bound<Seq<u8>>, upper: Bound<Seq<u8>>) -> Seq<Entry>
    decreases s.len(),
{
    if s.len() == 0 {
        s
    } else if in_range(s[0].key.key, lower, upper) {
        seq![s[0]] + clip(s.drop_first(), lower, upper)
    } else {
        clip(s.drop_first(), lower, upper)
    }
}

/// A clipped sequence keeps the order, and loses the keys outside the range only.
pub proof fn lemma_clip(s: Seq<Entry>, lower: Bound<Seq<u8>>, upper: Bound<Seq<u8>>)
    requires
        key::sorted(s),
    ensures
        key::sorted(clip(s, lower, upper)),
        forall|k: KeyView| #[trigger]
            key::lookup(clip(s, lower, upper), k) == if in_range(k.key, lower, upper) {
                key::lookup(s, k)
            } else {
                None
            },
        forall|b: KeyView| key::all_after(s, b)
            ==> #[trigger] key::all_after(clip(s, lower, upper), b),
    decreases s.len(),
{
    broadcast use key::group_key_order;

    if s.len() > 0 {
        let t = s.drop_first();
        key::lemma_sorted_drop_first(s);
        lemma_clip(t, lower, upper);
        let c = clip(t, lower, upper);
        assert(key::all_after(c, s[0].key));
        assert forall|b: KeyView| key::all_after(s, b) implies #[trigger] key::all_after(
            clip(s, lower, upper),
            b,
        ) by {
            assert(key::key_lt(b, s[0].key));
            assert(key::all_after(t, b)) by {
                assert forall|i: int| 0 <= i < t.len()
                    implies key::key_lt(b, #[trigger] t[i].key) by {
                    assert(t[i] == s[i + 1]);
                }
            }
            assert(key::all_after(c, b));
            key::lemma_all_after_cons(s[0], c, b);
        }
        if in_range(s[0].key.key, lower, upper) {
            key::lemma_sorted_cons(s[0], c);
            assert((seq![s[0]] + c).drop_first() =~= c);
        }
        assert forall|k: KeyView| #[trigger]
            key::lookup(clip(s, lower, upper), k) == if in_range(k.key, lower, upper) {
                key::lookup(s, k)
            } else {
                None
            } by {
            assert(key::lookup(c, k) == if in_range(k.key, lower, upper) {
                key::lookup(t, k)
            } else {
                None
            });
        }
    }
}

/// Clipped plain user keys are plain user keys.
pub proof fn lemma_clip_plain(s: Seq<Entry>, lower: Bound<Seq<u8>>, upper: Bound<Seq<u8>>)
    requires
        key::plain_keys(s),
    ensures
        key::plain_keys(clip(s, lower, upper)),
    decreases s.len(),
{
    if s.len() > 0 {
        let t = s.drop_first();
        assert(key::plain_keys(t)) by {
            assert forall|i: int| 0 <= i < t.len() implies (#[trigger] t[i]).key.ts
                == TS_DEFAULT by {
                assert(t[i] == s[i + 1]);
            }
        }
        assert(s[0].key.ts == TS_DEFAULT);
        lemma_clip_plain(t, lower, upper);
    }
}

impl<'a> Bound<&'a [u8]> {
    /// A copy of this end.
    pub fn to_owned_bound(&self) -> (r: Bound<Vec<u8>>)
        ensures
            r@ == self@,
    {
        match self {
            Bound::Included(k) => Bound::Included(copy_bytes(*k)),
            Bound::Excluded(k) => Bound::Excluded(copy_bytes(*k)),
            Bound::Unbounded => Bound::Unbounded,
        }
    }
}

/// An end that is included belongs to the range, and one that is excluded does not; any other key
/// belongs to it if it lies on the right side of both ends.
pub proof fn law_range(k: Seq<u8>, a: Seq<u8>, b: Seq<u8>)
    ensures
        in_range(k, Bound::Unbounded, Bound::Unbounded),
        in_range(k, Bound::Included(a), Bound::Unbounded) <==> k == a || key::bytes_lt(a, k),
        in_range(k, Bound::Excluded(a), Bound::Unbounded) <==> key::bytes_lt(a, k),
        in_range(k, Bound::Unbounded, Bound::Included(b)) <==> k == b || key::bytes_lt(k, b),
        in_range(k, Bound::Unbounded, Bound::Excluded(b)) <==> key::bytes_lt(k, b),
        forall|lower: Bound<Seq<u8>>, upper: Bound<Seq<u8>>| #[trigger]
            in_range(k, lower, upper) <==> in_range(k, lower, Bound::Unbounded) && in_range(
                k,
                Bound::Unbounded,
                upper,
            ),
{
    broadcast use key::group_bytes_order;

}

/// Clipping keeps the order, keeps the entries whose user keys lie in the range, and no others.
pub proof fn law_clip(s: Seq<Entry>, lower: Bound<Seq<u8>>, upper: Bound<Seq<u8>>, k: KeyView)
    requires
        key::sorted(s),
    ensures
        key::sorted(clip(s, lower, upper)),
        in_range(k.key, lower, upper)
            ==> key::lookup(clip(s, lower, upper), k) == key::lookup(s, k),
        !in_range(k.key, lower, upper) ==> key::lookup(clip(s, lower, upper), k) is None,
{
    lemma_clip(s, lower, upper);
}

} // verus!
