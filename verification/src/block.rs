//! Blocks: sorted runs of entries, the smallest unit of reading and caching.
//!
//! An entry is laid out as
//! `overlap (2) | rest length (2) | rest of the key | timestamp (8) | value length (2) | value`,
//! where `overlap` bytes of the user key are those of the block's first key. The numbers are
//! stored least significant byte first.
use crate::codec::{self, put_slice, put_u16_le, read_u16_le};
use crate::key::{Entry, KeyView, copy_bytes};
use vstd::prelude::*;

pub mod builder;
pub mod iterator;

pub use builder::BlockBuilder;
pub use iterator::BlockIterator;

verus! {

/// How many bytes of the key of the entry at `off` are shared with the first key of the block.
pub open spec fn entry_overlap(data: Seq<u8>, off: int) -> nat {
    codec::le_value(data.subrange(off, off + 2))
}

/// How many bytes of its key the entry at `off` stores itself.
pub open spec fn entry_rest_len(data: Seq<u8>, off: int) -> nat {
    codec::le_value(data.subrange(off + 2, off + 4))
}

pub open spec fn entry_rest(data: Seq<u8>, off: int) -> Seq<u8> {
    data.subrange(off + 4, off + 4 + entry_rest_len(data, off))
}

pub open spec fn entry_ts(data: Seq<u8>, off: int) -> u64 {
    let p = off + 4 + entry_rest_len(data, off);
    codec::le_value(data.subrange(p, p + 8)) as u64
}

pub open spec fn entry_value_len(data: Seq<u8>, off: int) -> nat {
    let p = off + 12 + entry_rest_len(data, off);
    codec::le_value(data.subrange(p, p + 2))
}

/// Where the value of the entry at `off` begins.
pub open spec fn entry_value_start(data: Seq<u8>, off: int) -> int {
    off + 14 + entry_rest_len(data, off)
}

pub open spec fn entry_value(data: Seq<u8>, off: int) -> Seq<u8> {
    let p = entry_value_start(data, off);
    data.subrange(p, p + entry_value_len(data, off))
}

/// An entry stands at `off` and ends within `data`.
pub open spec fn entry_fits(data: Seq<u8>, off: int) -> bool {
    &&& 0 <= off
    &&& off + 4 <= data.len()
    &&& entry_value_start(data, off) <= data.len()
    &&& entry_value_start(data, off) + entry_value_len(data, off) <= data.len()
}

/// The first key of a block, from which the others borrow.
pub open spec fn first_user_key(data: Seq<u8>, offsets: Seq<u16>) -> Seq<u8> {
    entry_rest(data, offsets[0] as int)
}

/// The `i`-th entry of a block.
pub open spec fn block_entry(data: Seq<u8>, offsets: Seq<u16>, i: int) -> Entry {
    let off = offsets[i] as int;
    let rest = entry_rest(data, off);
    let user = if i == 0 {
        rest
    } else {
        first_user_key(data, offsets).take(entry_overlap(data, off) as int) + rest
    };
    Entry { key: KeyView { key: user, ts: entry_ts(data, off) }, value: entry_value(data, off) }
}

/// All entries of a block, in the order of their offsets.
pub open spec fn block_entries(data: Seq<u8>, offsets: Seq<u16>) -> Seq<Entry> {
    Seq::new(offsets.len(), |i: int| block_entry(data, offsets, i))
}

/// Every offset leads to an entry with a key.
pub open spec fn block_wf(data: Seq<u8>, offsets: Seq<u16>) -> bool {
    forall|i: int|
        0 <= i < offsets.len() ==> {
            &&& #[trigger] entry_fits(data, offsets[i] as int)
            &&& block_entry(data, offsets, i).key.key.len() > 0
            &&& i > 0 ==> entry_overlap(data, offsets[i] as int) <= first_user_key(
                data,
                offsets,
            ).len()
        }
}

/// The offset `i` leads to an entry with a key.
spec fn entry_sound(data: Seq<u8>, offsets: Seq<u16>, i: int) -> bool {
    &&& entry_fits(data, offsets[i] as int)
    &&& block_entry(data, offsets, i).key.key.len() > 0
    &&& i > 0 ==> entry_overlap(data, offsets[i] as int) <= first_user_key(data, offsets).len()
}

/// How many bytes two byte strings share at their front.
pub open spec fn common_prefix(a: Seq<u8>, b: Seq<u8>) -> nat
    decreases a.len(),
{
    if a.len() == 0 || b.len() == 0 || a[0] != b[0] {
        0
    } else {
        1 + common_prefix(a.drop_first(), b.drop_first())
    }
}

/// The bytes of an entry whose key shares `overlap` bytes with the first key of its block.
pub open spec fn entry_bytes(overlap: nat, e: Entry) -> Seq<u8> {
    codec::le_bytes(overlap, 2) + codec::le_bytes((e.key.key.len() - overlap) as nat, 2)
        + e.key.key.skip(
        overlap as int,
    ) + codec::le_bytes(e.key.ts as nat, 8) + codec::le_bytes(e.value.len(), 2) + e.value
}

/// Offsets as an encoded block lists them.
pub open spec fn offsets_le(offsets: Seq<u16>) -> Seq<u8>
    decreases offsets.len(),
{
    if offsets.len() == 0 {
        Seq::empty()
    } else {
        offsets_le(offsets.drop_last()) + codec::le_bytes(offsets.last() as nat, 2)
    }
}

/// The bytes of a block: its data, its offsets, and how many offsets there are (modulo 2^16).
pub open spec fn encoded_block(data: Seq<u8>, offsets: Seq<u16>) -> Seq<u8> {
    data + offsets_le(offsets) + codec::le_bytes((offsets.len() as u16) as nat, 2)
}

/// The number of offsets that the bytes of a block end with.
pub open spec fn encoded_count(s: Seq<u8>) -> nat {
    codec::le_value(s.subrange(s.len() - 2, s.len() as int))
}

/// The bytes are long enough for the offsets that they announce.
pub open spec fn decodable(s: Seq<u8>) -> bool {
    2 <= s.len() && 2 + 2 * encoded_count(s) <= s.len()
}

/// Where the offsets of an encoded block begin.
pub open spec fn offsets_start(s: Seq<u8>) -> int {
    s.len() - 2 - 2 * encoded_count(s)
}

pub open spec fn decoded_data(s: Seq<u8>) -> Seq<u8> {
    s.take(offsets_start(s))
}

pub open spec fn decoded_offsets(s: Seq<u8>) -> Seq<u16> {
    Seq::new(
        encoded_count(s),
        |i: int|
            codec::le_value(s.subrange(offsets_start(s) + 2 * i, offsets_start(s) + 2 * i + 2)) as u16,
    )
}

/// A block is a collection of sorted key-value pairs.
#[derive(Debug)]
pub struct Block {
    pub data: Vec<u8>,
    pub offsets: Vec<u16>,
}

impl Block {
    pub open spec fn wf(&self) -> bool {
        block_wf(self.data@, self.offsets@)
    }

    pub open spec fn entries(&self) -> Seq<Entry> {
        block_entries(self.data@, self.offsets@)
    }

    /// Encodes the block: its data, its offsets, the number of its offsets.
    pub fn encode(&self) -> (buf: Vec<u8>)
        ensures
            buf@ == encoded_block(self.data@, self.offsets@),
    {
        let mut buf: Vec<u8> = Vec::new();
        put_slice(&mut buf, self.data.as_slice());
        assert(buf@ =~= self.data@);
        let mut i: usize = 0;
        assert(buf@ =~= self.data@ + offsets_le(self.offsets@.take(0)));
        while i < self.offsets.len()
            invariant
                i <= self.offsets@.len(),
                buf@ == self.data@ + offsets_le(self.offsets@.take(i as int)),
            decreases self.offsets@.len() - i,
        {
            put_u16_le(&mut buf, self.offsets[i]);
            proof {
                let t = self.offsets@.take(i + 1);
                assert(t.drop_last() =~= self.offsets@.take(i as int));
                assert(t.last() == self.offsets@[i as int]);
            }
            i = i + 1;
            assert(buf@ =~= self.data@ + offsets_le(self.offsets@.take(i as int)));
        }
        assert(self.offsets@.take(i as int) =~= self.offsets@);
        put_u16_le(&mut buf, self.offsets.len() as u16);
        buf
    }

    /// Whether a block can be read out of `data`.
    pub fn is_decodable(data: &[u8]) -> (r: bool)
        ensures
            r == decodable(data@),
    {
        let n: usize = data.len();
        if n < 2 {
            return false;
        }
        let count: usize = read_u16_le(data, n - 2) as usize;
        (n - 2) / 2 >= count
    }

    /// Whether every offset of the block leads to an entry with a key.
    pub fn is_sound(&self) -> (r: bool)
        ensures
            r == self.wf(),
    {
        let data: &[u8] = self.data.as_slice();
        let n: usize = data.len();
        let mut first_len: usize = 0;
        let mut i: usize = 0;
        while i < self.offsets.len()
            invariant
                i <= self.offsets@.len(),
                data@ == self.data@,
                n == data@.len(),
                i > 0 ==> entry_fits(self.data@, self.offsets@[0] as int) && first_len
                    == first_user_key(self.data@, self.offsets@).len(),
                forall|j: int|
                    0 <= j < i ==> #[trigger] entry_sound(self.data@, self.offsets@, j),
            decreases self.offsets@.len() - i,
        {
            let off: usize = self.offsets[i] as usize;
            let ghost at = self.offsets@[i as int] as int;
            if n < off + 4 {
                assert(!entry_fits(self.data@, at));
                return false;
            }
            let overlap: usize = read_u16_le(data, off) as usize;
            let rest_len: usize = read_u16_le(data, off + 2) as usize;
            if n < off + 14 + rest_len {
                assert(!entry_fits(self.data@, at));
                return false;
            }
            let value_len: usize = read_u16_le(data, off + 12 + rest_len) as usize;
            if n < off + 14 + rest_len + value_len {
                assert(!entry_fits(self.data@, at));
                return false;
            }
            assert(entry_fits(self.data@, at));
            assert(entry_rest(self.data@, at).len() == rest_len);
            if i == 0 {
                first_len = rest_len;
                assert(block_entry(self.data@, self.offsets@, 0).key.key.len() == rest_len);
                if rest_len == 0 {
                    return false;
                }
            } else {
                if overlap > first_len {
                    assert(entry_overlap(self.data@, at) > first_user_key(
                        self.data@,
                        self.offsets@,
                    ).len());
                    return false;
                }
                assert(block_entry(self.data@, self.offsets@, i as int).key.key.len() == overlap
                    + rest_len);
                if overlap + rest_len == 0 {
                    return false;
                }
            }
            assert(entry_sound(self.data@, self.offsets@, i as int));
            i = i + 1;
        }
        assert forall|j: int| 0 <= j < self.offsets@.len() implies {
            &&& #[trigger] entry_fits(self.data@, self.offsets@[j] as int)
            &&& block_entry(self.data@, self.offsets@, j).key.key.len() > 0
            &&& j > 0 ==> entry_overlap(self.data@, self.offsets@[j] as int) <= first_user_key(
                self.data@,
                self.offsets@,
            ).len()
        } by {
            assert(entry_sound(self.data@, self.offsets@, j));
        }
        true
    }

    /// Reads a block out of its encoding.
    pub fn decode(data: &[u8]) -> (b: Self)
        requires
            decodable(data@),
        ensures
            b.data@ == decoded_data(data@),
            b.offsets@ == decoded_offsets(data@),
    {
        let count_pos: usize = data.len() - 2;
        let count: usize = read_u16_le(data, count_pos) as usize;
        let offsets_pos: usize = count_pos - count * 2;
        let mut offsets: Vec<u16> = Vec::new();
        let mut i: usize = 0;
        while i < count
            invariant
                i <= count,
                decodable(data@),
                count == encoded_count(data@),
                count <= u16::MAX,
                offsets_pos == offsets_start(data@),
                offsets_pos + 2 * count + 2 == data.len(),
                offsets@ == decoded_offsets(data@).take(i as int),
            decreases count - i,
        {
            let off: u16 = read_u16_le(data, offsets_pos + i * 2);
            offsets.push(off);
            i = i + 1;
            assert(offsets@ =~= decoded_offsets(data@).take(i as int));
        }
        assert(decoded_offsets(data@).take(count as int) =~= decoded_offsets(data@));
        Block { data: copy_bytes(&data[0..offsets_pos]), offsets }
    }
}

/// The place of each offset in an encoded block.
proof fn lemma_offsets_le(offsets: Seq<u16>)
    ensures
        offsets_le(offsets).len() == 2 * offsets.len(),
        forall|i: int|
            0 <= i < offsets.len() ==> #[trigger] offsets_le(offsets).subrange(2 * i, 2 * i + 2)
                == codec::le_bytes(offsets[i] as nat, 2),
    decreases offsets.len(),
{
    broadcast use codec::lemma_le_bytes_len;

    if offsets.len() > 0 {
        let t = offsets.drop_last();
        lemma_offsets_le(t);
        assert forall|i: int| 0 <= i < offsets.len() implies #[trigger] offsets_le(
            offsets,
        ).subrange(2 * i, 2 * i + 2) == codec::le_bytes(offsets[i] as nat, 2) by {
            if i < t.len() {
                assert(offsets_le(offsets).subrange(2 * i, 2 * i + 2) =~= offsets_le(t).subrange(
                    2 * i,
                    2 * i + 2,
                ));
            } else {
                assert(offsets_le(offsets).subrange(2 * i, 2 * i + 2) =~= codec::le_bytes(
                    offsets.last() as nat,
                    2,
                ));
            }
        }
    }
}

/// Decoding the encoding of a block gives the block back.
pub proof fn law_block_decode_encode(data: Seq<u8>, offsets: Seq<u16>)
    requires
        offsets.len() <= u16::MAX,
    ensures
        decodable(encoded_block(data, offsets)),
        decoded_data(encoded_block(data, offsets)) == data,
        decoded_offsets(encoded_block(data, offsets)) == offsets,
{
    broadcast use codec::lemma_le_bytes_len;

    codec::lemma_byte_capacities();
    lemma_offsets_le(offsets);
    let s = encoded_block(data, offsets);
    let n = offsets.len();
    assert(s.subrange(s.len() - 2, s.len() as int) =~= codec::le_bytes(n, 2));
    codec::lemma_le_round_trip(n, 2);
    assert(encoded_count(s) == n);
    assert(offsets_start(s) == data.len());
    assert(decoded_data(s) =~= data);
    assert forall|i: int| 0 <= i < n implies decoded_offsets(s)[i] == offsets[i] by {
        let p = data.len() + 2 * i;
        assert(s.subrange(p, p + 2) =~= offsets_le(offsets).subrange(2 * i, 2 * i + 2));
        codec::lemma_le_round_trip(offsets[i] as nat, 2);
    }
    assert(decoded_offsets(s) =~= offsets);
}

/// Bytes after an entry do not change it.
pub proof fn lemma_entry_extend(data: Seq<u8>, more: Seq<u8>, off: int)
    requires
        entry_fits(data, off),
    ensures
        entry_fits(data + more, off),
        entry_overlap(data + more, off) == entry_overlap(data, off),
        entry_rest(data + more, off) == entry_rest(data, off),
        entry_ts(data + more, off) == entry_ts(data, off),
        entry_value(data + more, off) == entry_value(data, off),
{
    let d = data + more;
    assert(d.subrange(off, off + 2) =~= data.subrange(off, off + 2));
    assert(d.subrange(off + 2, off + 4) =~= data.subrange(off + 2, off + 4));
    let r = entry_rest_len(data, off);
    assert(d.subrange(off + 4, off + 4 + r) =~= data.subrange(off + 4, off + 4 + r));
    assert(d.subrange(off + 4 + r, off + 12 + r) =~= data.subrange(off + 4 + r, off + 12 + r));
    assert(d.subrange(off + 12 + r, off + 14 + r) =~= data.subrange(off + 12 + r, off + 14 + r));
    let v = entry_value_len(data, off);
    let p = entry_value_start(data, off);
    assert(d.subrange(p, p + v) =~= data.subrange(p, p + v));
}

/// Bytes after the entries of a block do not change them.
pub proof fn lemma_block_extend(data: Seq<u8>, more: Seq<u8>, offsets: Seq<u16>)
    requires
        block_wf(data, offsets),
    ensures
        block_wf(data + more, offsets),
        block_entries(data + more, offsets) == block_entries(data, offsets),
{
    let d = data + more;
    if offsets.len() > 0 {
        assert(entry_fits(data, offsets[0] as int));
        lemma_entry_extend(data, more, offsets[0] as int);
    }
    assert forall|i: int| 0 <= i < offsets.len() implies {
        &&& #[trigger] entry_fits(d, offsets[i] as int)
        &&& block_entry(d, offsets, i) == block_entry(data, offsets, i)
        &&& block_entry(d, offsets, i).key.key.len() > 0
        &&& i > 0 ==> entry_overlap(d, offsets[i] as int) <= first_user_key(d, offsets).len()
    } by {
        assert(entry_fits(data, offsets[i] as int));
        lemma_entry_extend(data, more, offsets[i] as int);
    }
    assert(block_entries(d, offsets) =~= block_entries(data, offsets)) by {
        assert forall|i: int| 0 <= i < offsets.len() implies block_entries(d, offsets)[i]
            == block_entries(data, offsets)[i] by {
            assert(entry_fits(d, offsets[i] as int));
        }
    }
}

/// An entry that is written after `data` is read back.
pub proof fn lemma_entry_read_back(data: Seq<u8>, overlap: nat, e: Entry)
    requires
        overlap <= e.key.key.len() <= u16::MAX,
        e.value.len() <= u16::MAX,
    ensures
        ({
            let d = data + entry_bytes(overlap, e);
            let off = data.len() as int;
            &&& entry_fits(d, off)
            &&& entry_overlap(d, off) == overlap
            &&& entry_rest(d, off) == e.key.key.skip(overlap as int)
            &&& entry_ts(d, off) == e.key.ts
            &&& entry_value(d, off) == e.value
        }),
        entry_bytes(overlap, e).len() == 14 + e.key.key.len() - overlap + e.value.len(),
{
    broadcast use codec::lemma_le_bytes_len;

    codec::lemma_byte_capacities();
    let d = data + entry_bytes(overlap, e);
    let off = data.len() as int;
    let r = (e.key.key.len() - overlap) as nat;
    assert(d.subrange(off, off + 2) =~= codec::le_bytes(overlap, 2));
    codec::lemma_le_round_trip(overlap, 2);
    assert(d.subrange(off + 2, off + 4) =~= codec::le_bytes(r, 2));
    codec::lemma_le_round_trip(r, 2);
    assert(d.subrange(off + 4, off + 4 + r) =~= e.key.key.skip(overlap as int));
    assert(d.subrange(off + 4 + r, off + 12 + r) =~= codec::le_bytes(e.key.ts as nat, 8));
    codec::lemma_le_round_trip(e.key.ts as nat, 8);
    assert(d.subrange(off + 12 + r, off + 14 + r) =~= codec::le_bytes(e.value.len(), 2));
    codec::lemma_le_round_trip(e.value.len(), 2);
    let p = off + 14 + r;
    assert(d.subrange(p, p + e.value.len()) =~= e.value);
}

/// Where the parts of an entry stand in a block, numbers with their least significant byte first: how
/// many bytes of its key it shares, how many it has itself, these, the timestamp, the length of the
/// value, and the value.
pub proof fn law_entry_layout(overlap: nat, e: Entry)
    requires
        overlap <= e.key.key.len() <= u16::MAX,
        e.value.len() <= u16::MAX,
    ensures
        ({
            let s = entry_bytes(overlap, e);
            let n = e.key.key.len() - overlap;
            &&& s.len() == 14 + n + e.value.len()
            &&& codec::le_value(s.subrange(0, 2)) == overlap
            &&& codec::le_value(s.subrange(2, 4)) == n
            &&& s.subrange(4, 4 + n) == e.key.key.skip(overlap as int)
            &&& codec::le_value(s.subrange(4 + n, 12 + n)) == e.key.ts
            &&& codec::le_value(s.subrange(12 + n, 14 + n)) == e.value.len()
            &&& s.skip(14 + n) == e.value
        }),
{
    broadcast use codec::lemma_le_bytes_len;

    let s = entry_bytes(overlap, e);
    let n = e.key.key.len() - overlap;
    codec::lemma_byte_capacities();
    codec::lemma_le_round_trip(overlap, 2);
    codec::lemma_le_round_trip(n as nat, 2);
    codec::lemma_le_round_trip(e.key.ts as nat, 8);
    codec::lemma_le_round_trip(e.value.len(), 2);
    assert(s.subrange(0, 2) =~= codec::le_bytes(overlap, 2));
    assert(s.subrange(2, 4) =~= codec::le_bytes(n as nat, 2));
    assert(s.subrange(4, 4 + n) =~= e.key.key.skip(overlap as int));
    assert(s.subrange(4 + n, 12 + n) =~= codec::le_bytes(e.key.ts as nat, 8));
    assert(s.subrange(12 + n, 14 + n) =~= codec::le_bytes(e.value.len(), 2));
    assert(s.skip(14 + n) =~= e.value);
}

/// A block ends with its offsets, each in two bytes with the least significant one first, and their
/// number; its data stands before them.
pub proof fn law_block_layout(data: Seq<u8>, offsets: Seq<u16>, i: int)
    requires
        offsets.len() <= u16::MAX,
        0 <= i < offsets.len(),
    ensures
        ({
            let s = encoded_block(data, offsets);
            let p = data.len() as int;
            &&& s.len() == p + 2 * offsets.len() + 2
            &&& s.take(p) == data
            &&& codec::le_value(s.subrange(p + 2 * i, p + 2 * i + 2)) == offsets[i]
            &&& codec::le_value(s.skip(p + 2 * offsets.len())) == offsets.len()
        }),
{
    broadcast use codec::lemma_le_bytes_len;

    let s = encoded_block(data, offsets);
    let p = data.len() as int;
    let n = offsets.len() as int;
    lemma_offsets_le(offsets);
    codec::lemma_byte_capacities();
    codec::lemma_le_round_trip(n as nat, 2);
    assert(s.take(p) =~= data);
    assert(s.skip(p + 2 * n) =~= codec::le_bytes(n as nat, 2));
    law_block_decode_encode(data, offsets);
    assert(s.subrange(s.len() - 2, s.len() as int) =~= s.skip(p + 2 * n));
    assert(decoded_offsets(s)[i] == offsets[i]);
    let w = s.subrange(p + 2 * i, p + 2 * i + 2);
    lemma_two_bytes(w);
}

proof fn lemma_two_bytes(w: Seq<u8>)
    requires
        w.len() == 2,
    ensures
        codec::le_value(w) <= u16::MAX,
{
    reveal_with_fuel(codec::le_value, 3);
    assert(w.drop_first().drop_first().len() == 0);
}

} // verus!
