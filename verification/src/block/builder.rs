//! Building blocks.
use crate::block::{self, Block};
use crate::codec::{self, put_slice, put_u16, put_u16_le, put_u64_le};
use crate::key::{self, Entry, KeyBytes, KeySlice, KeyVec, copy_bytes};
use vstd::prelude::*;

verus! {

/// Offsets as a finished block repeats them after its entries.
pub open spec fn offsets_be(offsets: Seq<u16>) -> Seq<u8>
    decreases offsets.len(),
{
    if offsets.len() == 0 {
        Seq::empty()
    } else {
        offsets_be(offsets.drop_last()) + codec::be_bytes(offsets.last() as nat, 2)
    }
}

/// What follows the entries in the data of a finished block: the offsets and their number, most
/// significant byte first.
pub open spec fn block_trailer(offsets: Seq<u16>) -> Seq<u8> {
    offsets_be(offsets) + codec::be_bytes((offsets.len() as u16) as nat, 2)
}

/// How many bytes the entries of a block may take: the block size, as far as the offsets of a
/// block reach.
pub open spec fn block_limit(block_size: usize) -> int {
    if block_size < u16::MAX {
        block_size as int
    } else {
        u16::MAX as int
    }
}

/// Builds a block.
#[derive(Debug)]
pub struct BlockBuilder {
    /// Offsets of the entries.
    pub offsets: Vec<u16>,
    /// All entries, serialized.
    pub data: Vec<u8>,
    /// The expected block size.
    pub block_size: usize,
    /// The first key in the block.
    pub first_key: KeyVec,
}

impl BlockBuilder {
    pub open spec fn entries(&self) -> Seq<Entry> {
        block::block_entries(self.data@, self.offsets@)
    }

    pub open spec fn inv(&self) -> bool {
        &&& block::block_wf(self.data@, self.offsets@)
        &&& self.offsets@.len() == 0 <==> self.first_key@.key.len() == 0
        &&& self.offsets@.len() > 0 ==> self.first_key@ == self.entries()[0].key
        &&& self.first_key@.key.len() <= u16::MAX
    }

    /// How many bytes of `key` an entry borrows from the first key.
    pub open spec fn overlap(&self, key: Seq<u8>) -> nat {
        if self.first_key@.key.len() == 0 {
            0
        } else {
            block::common_prefix(self.first_key@.key, key)
        }
    }

    /// The bytes that an entry takes in this block.
    pub open spec fn entry_len(&self, e: Entry) -> int {
        14 + e.key.key.len() - self.overlap(e.key.key) + e.value.len()
    }

    /// The block takes this entry: it is the first one, or it ends within the block size.
    pub open spec fn has_room(&self, e: Entry) -> bool {
        self.first_key@.key.len() == 0 || self.data@.len() + self.entry_len(e) <= block_limit(
            self.block_size,
        )
    }

    /// Creates a block builder without entries.
    pub fn new(block_size: usize) -> (b: Self)
        ensures
            b.inv(),
            b.entries() == Seq::<Entry>::empty(),
            b.offsets@.len() == 0,
            b.data@.len() == 0,
            b.block_size == block_size,
            b.first_key@ == key::user_key(Seq::empty()),
    {
        let b = BlockBuilder {
            offsets: Vec::new(),
            data: Vec::new(),
            block_size,
            first_key: KeyVec::new(),
        };
        assert(b.entries() =~= Seq::<Entry>::empty());
        b
    }

    /// The first key that was added; the empty key if there was none.
    pub fn first_key(&self) -> (k: KeyBytes)
        ensures
            k@ == self.first_key@,
    {
        self.first_key.clone()
    }

    /// How many bytes of `key` an entry borrows from the first key.
    fn overlap_len(&self, key: &[u8]) -> (n: usize)
        ensures
            n == self.overlap(key@),
            n <= key@.len(),
            n <= self.first_key@.key.len(),
    {
        let a: &[u8] = self.first_key.key_ref();
        let mut n: usize = 0;
        assert(a@.skip(0) =~= a@);
        assert(key@.skip(0) =~= key@);
        while n < a.len() && n < key.len() && a[n] == key[n]
            invariant
                n <= a@.len(),
                n <= key@.len(),
                block::common_prefix(a@, key@) == n + block::common_prefix(
                    a@.skip(n as int),
                    key@.skip(n as int),
                ),
            decreases a@.len() - n,
        {
            assert(a@.skip(n as int).drop_first() =~= a@.skip(n + 1));
            assert(key@.skip(n as int).drop_first() =~= key@.skip(n + 1));
            n = n + 1;
        }
        n
    }

    /// Adds a key-value pair to the block. Returns false when the block is full.
    #[must_use]
    pub fn add(&mut self, key: KeySlice<'_>, value: &[u8]) -> (added: bool)
        requires
            old(self).inv(),
            0 < key@.key.len() <= u16::MAX,
            value@.len() <= u16::MAX,
            old(self).offsets@.len() == 0 ==> old(self).data@.len() <= u16::MAX,
        ensures
            final(self).inv(),
            final(self).block_size == old(self).block_size,
            added == old(self).has_room((Entry { key: key@, value: value@ })),
            !added ==> *final(self) == *old(self),
            added ==> {
                let e = Entry { key: key@, value: value@ };
                &&& final(self).entries() == old(self).entries().push(e)
                &&& final(self).data@ == old(self).data@ + block::entry_bytes(
                    old(self).overlap(key@.key),
                    e,
                )
                &&& final(self).offsets@ == old(self).offsets@.push(old(self).data@.len() as u16)
                &&& final(self).first_key@ == if old(self).offsets@.len() == 0 {
                    key@
                } else {
                    old(self).first_key@
                }
            },
    {
        let ghost e = Entry { key: key@, value: value@ };
        let ghost before = *self;
        let overlap_len: usize = self.overlap_len(key.key_ref());
        let rest_len: usize = key.key_len() - overlap_len;
        let entry_size: usize = 2 + 2 + rest_len + 8 + 2 + value.len();
        let limit: usize = if self.block_size < u16::MAX as usize {
            self.block_size
        } else {
            u16::MAX as usize
        };
        if !self.first_key.is_empty() && (self.data.len() > limit || self.data.len() + entry_size
            > limit) {
            return false;
        }
        if self.first_key.is_empty() {
            self.first_key = key.to_key_vec();
        }
        let offset: u16 = self.data.len() as u16;
        self.offsets.push(offset);
        put_u16_le(&mut self.data, overlap_len as u16);
        put_u16_le(&mut self.data, rest_len as u16);
        let rest: &[u8] = &key.key_ref()[overlap_len..key.key_len()];
        put_slice(&mut self.data, rest);
        put_u64_le(&mut self.data, key.ts());
        put_u16_le(&mut self.data, value.len() as u16);
        put_slice(&mut self.data, value);
        proof {
            let overlap = overlap_len as nat;
            assert(rest@ =~= key@.key.skip(overlap_len as int));
            assert(self.data@ =~= before.data@ + block::entry_bytes(overlap, e));
            block::lemma_entry_read_back(before.data@, overlap, e);
            lemma_appended(before, *self, e);
        }
        true
    }

    /// Whether there is no key-value pair in the block.
    pub fn is_empty(&self) -> (r: bool)
        ensures
            r == (self.offsets@.len() == 0),
    {
        self.offsets.len() == 0
    }

    /// Finalizes the block.
    pub fn build(&mut self) -> (b: Block)
        requires
            old(self).inv(),
        ensures
            final(self).inv(),
            final(self).data@ == old(self).data@ + block_trailer(old(self).offsets@),
            final(self).offsets@ == old(self).offsets@,
            final(self).block_size == old(self).block_size,
            final(self).first_key@ == old(self).first_key@,
            final(self).entries() == old(self).entries(),
            b.data@ == final(self).data@,
            b.offsets@ == final(self).offsets@,
            b.wf(),
            b.entries() == old(self).entries(),
    {
        let ghost before = self.data@;
        let mut i: usize = 0;
        assert(self.data@ =~= before + offsets_be(self.offsets@.take(0)));
        while i < self.offsets.len()
            invariant
                i <= self.offsets@.len(),
                self.offsets@ == old(self).offsets@,
                self.block_size == old(self).block_size,
                self.first_key == old(self).first_key,
                self.data@ == before + offsets_be(self.offsets@.take(i as int)),
            decreases self.offsets@.len() - i,
        {
            put_u16(&mut self.data, self.offsets[i]);
            proof {
                let t = self.offsets@.take(i + 1);
                assert(t.drop_last() =~= self.offsets@.take(i as int));
                assert(t.last() == self.offsets@[i as int]);
            }
            i = i + 1;
            assert(self.data@ =~= before + offsets_be(self.offsets@.take(i as int)));
        }
        assert(self.offsets@.take(i as int) =~= self.offsets@);
        put_u16(&mut self.data, self.offsets.len() as u16);
        proof {
            assert(self.data@ =~= before + block_trailer(self.offsets@));
            block::lemma_block_extend(before, block_trailer(self.offsets@), self.offsets@);
        }
        let data: Vec<u8> = copy_bytes(self.data.as_slice());
        let offsets: Vec<u16> = copy_offsets(&self.offsets);
        Block { data, offsets }
    }
}

fn copy_offsets(v: &Vec<u16>) -> (r: Vec<u16>)
    ensures
        r@ == v@,
{
    let r: Vec<u16> = v.clone();
    assert(r@ =~= v@);
    r
}

/// The shared front of two byte strings is the front of both.
pub proof fn lemma_common_prefix(a: Seq<u8>, b: Seq<u8>)
    ensures
        block::common_prefix(a, b) <= a.len(),
        block::common_prefix(a, b) <= b.len(),
        a.take(block::common_prefix(a, b) as int) == b.take(block::common_prefix(a, b) as int),
    decreases a.len(),
{
    let n = block::common_prefix(a, b) as int;
    if n > 0 {
        lemma_common_prefix(a.drop_first(), b.drop_first());
        assert(a.take(n) =~= seq![a[0]] + a.drop_first().take(n - 1));
        assert(b.take(n) =~= seq![b[0]] + b.drop_first().take(n - 1));
    } else {
        assert(a.take(0) =~= b.take(0));
    }
}

/// A key is made up of what it shares with another one and of the rest.
proof fn lemma_borrowed_key(first: Seq<u8>, key: Seq<u8>)
    ensures
        block::common_prefix(first, key) <= first.len(),
        block::common_prefix(first, key) <= key.len(),
        first.take(block::common_prefix(first, key) as int)
            + key.skip(block::common_prefix(first, key) as int)
            == key,
{
    let n = block::common_prefix(first, key) as int;
    lemma_common_prefix(first, key);
    assert(key.take(n) + key.skip(n) =~= key);
}

/// What a builder becomes that takes one more entry.
spec fn appended(before: BlockBuilder, after: BlockBuilder, e: Entry) -> bool {
    &&& before.inv()
    &&& 0 < e.key.key.len() <= u16::MAX
    &&& e.value.len() <= u16::MAX
    &&& before.data@.len() <= u16::MAX
    &&& after.offsets@ == before.offsets@.push(before.data@.len() as u16)
    &&& after.data@ == before.data@ + block::entry_bytes(before.overlap(e.key.key), e)
    &&& before.offsets@.len() == 0 ==> after.first_key@ == e.key
    &&& before.offsets@.len() > 0 ==> after.first_key@ == before.first_key@
}

/// The entries from before are read as before.
#[verifier::spinoff_prover]
#[verifier::rlimit(40)]
proof fn lemma_appended_before(before: BlockBuilder, after: BlockBuilder, e: Entry, i: int)
    requires
        appended(before, after, e),
        0 <= i < before.offsets@.len(),
    ensures
        block::block_entry(after.data@, after.offsets@, i) == before.entries()[i],
        block::entry_fits(after.data@, after.offsets@[i] as int),
        block::first_user_key(after.data@, after.offsets@) == before.first_key@.key,
        block::block_entry(after.data@, after.offsets@, i).key.key.len() > 0,
        i > 0
            ==> block::entry_overlap(after.data@, after.offsets@[i] as int)
                <= before.first_key@.key.len(),
{
    let more = block::entry_bytes(before.overlap(e.key.key), e);
    block::lemma_block_extend(before.data@, more, before.offsets@);
    assert(after.offsets@[i] == before.offsets@[i]);
    assert(after.offsets@[0] == before.offsets@[0]);
    assert(block::entry_fits(before.data@, before.offsets@[i] as int));
    assert(block::entry_fits(before.data@, before.offsets@[0] as int));
    block::lemma_entry_extend(before.data@, more, before.offsets@[i] as int);
    block::lemma_entry_extend(before.data@, more, before.offsets@[0] as int);
    assert(before.entries()[i] == block::block_entry(before.data@, before.offsets@, i));
    assert(before.entries()[0] == block::block_entry(before.data@, before.offsets@, 0));
    assert(block::block_entries(after.data@, before.offsets@)[i] == block::block_entry(
        after.data@,
        before.offsets@,
        i,
    ));
}

/// The new entry is read back.
#[verifier::spinoff_prover]
#[verifier::rlimit(40)]
proof fn lemma_appended_last(before: BlockBuilder, after: BlockBuilder, e: Entry)
    requires
        appended(before, after, e),
    ensures
        ({
            let n = before.offsets@.len() as int;
            &&& block::block_entry(after.data@, after.offsets@, n) == e
            &&& block::entry_fits(after.data@, after.offsets@[n] as int)
            &&& n > 0 ==> block::entry_overlap(after.data@, after.offsets@[n] as int)
                <= before.first_key@.key.len()
        }),
{
    let key = e.key.key;
    let overlap = before.overlap(key);
    let n = before.offsets@.len() as int;
    let off = before.data@.len() as int;
    lemma_borrowed_key(before.first_key@.key, key);
    block::lemma_entry_read_back(before.data@, overlap, e);
    assert(after.offsets@[n] as int == off);
    let read = block::block_entry(after.data@, after.offsets@, n);
    if n > 0 {
        lemma_appended_before(before, after, e, 0);
        assert(read.key.key == before.first_key@.key.take(overlap as int) + key.skip(
            overlap as int,
        ));
    } else {
        assert(read.key.key == key.skip(0));
        assert(key.skip(0) =~= key);
    }
    assert(read.key =~= e.key);
}

/// A builder that has taken one more entry holds the entries from before and that one.
proof fn lemma_appended(before: BlockBuilder, after: BlockBuilder, e: Entry)
    requires
        appended(before, after, e),
    ensures
        after.inv(),
        after.entries() == before.entries().push(e),
{
    let n = before.offsets@.len() as int;
    lemma_appended_last(before, after, e);
    assert forall|i: int| 0 <= i < n implies {
        &&& #[trigger] block::entry_fits(after.data@, after.offsets@[i] as int)
        &&& block::block_entry(after.data@, after.offsets@, i).key.key.len() > 0
        &&& i > 0
            ==> block::entry_overlap(after.data@, after.offsets@[i] as int)
                <= block::first_user_key(
            after.data@,
            after.offsets@,
        ).len()
    } by {
        lemma_appended_before(before, after, e, i);
    }
    assert forall|i: int| 0 <= i < n implies #[trigger] after.entries()[i]
        == before.entries()[i] by {
        lemma_appended_before(before, after, e, i);
    }
    if n > 0 {
        lemma_appended_before(before, after, e, 0);
    }
    assert(block::block_wf(after.data@, after.offsets@));
    assert(after.entries()[n] == e);
    assert(after.entries() =~= before.entries().push(e));
}

/// `common_prefix` is the length of the longest beginning that two byte strings share.
pub proof fn law_common_prefix(a: Seq<u8>, b: Seq<u8>)
    ensures
        block::common_prefix(a, b) <= a.len(),
        block::common_prefix(a, b) <= b.len(),
        a.take(block::common_prefix(a, b) as int) == b.take(block::common_prefix(a, b) as int),
        forall|n: int|
            0 <= n <= a.len() && n <= b.len() && #[trigger] a.take(n) == b.take(n) ==> n
                <= block::common_prefix(a, b),
{
    lemma_common_prefix(a, b);
    lemma_prefix_ends(a, b);
    let m = block::common_prefix(a, b) as int;
    assert forall|n: int|
        0 <= n <= a.len() && n <= b.len() && #[trigger] a.take(n) == b.take(n) implies n <= m by {
        if n > m {
            assert(a[m] == a.take(n)[m]);
            assert(b[m] == b.take(n)[m]);
        }
    }
}

/// Behind what two byte strings share one of them ends, or they differ.
proof fn lemma_prefix_ends(a: Seq<u8>, b: Seq<u8>)
    ensures
        ({
            let n = block::common_prefix(a, b) as int;
            n == a.len() || n == b.len() || a[n] != b[n]
        }),
    decreases a.len(),
{
    if a.len() > 0 && b.len() > 0 && a[0] == b[0] {
        lemma_prefix_ends(a.drop_first(), b.drop_first());
        lemma_common_prefix(a.drop_first(), b.drop_first());
    }
}

/// A block takes an entry as its first one whatever its size, and any other one exactly if the
/// entries then take no more than the block size, as far as the offsets of a block reach. An entry
/// takes 14 bytes, its value, and of its key what it does not share with the first key of the block.
pub proof fn law_block_room(b: BlockBuilder, e: Entry, n: int)
    requires
        b.inv(),
        0 <= n <= b.first_key@.key.len(),
        n <= e.key.key.len(),
        b.first_key@.key.take(n) == e.key.key.take(n),
        n == b.first_key@.key.len() || n == e.key.key.len() || b.first_key@.key[n] != e.key.key[n],
    ensures
        b.entries().len() == 0 ==> b.has_room(e),
        b.entries().len() > 0 ==> {
            let size = b.data@.len() + 14 + e.key.key.len() - n + e.value.len();
            b.has_room(e) <==> size <= b.block_size && size <= 65535
        },
        block::entry_bytes(b.overlap(e.key.key), e).len()
            == 14 + e.key.key.len() - n + e.value.len(),
{
    broadcast use codec::lemma_le_bytes_len;

    let first = b.first_key@.key;
    let m = block::common_prefix(first, e.key.key) as int;
    law_common_prefix(first, e.key.key);
    lemma_prefix_ends(first, e.key.key);
    if n < m {
        assert(first[n] == first.take(m)[n]);
        assert(e.key.key[n] == e.key.key.take(m)[n]);
    }
    assert(n == m);
    if first.len() == 0 {
        assert(b.overlap(e.key.key) == 0);
    }
}

/// Behind its entries a finished block repeats its offsets, each in two bytes with the most
/// significant one first, and their number.
pub proof fn law_trailer_layout(offsets: Seq<u16>, i: int)
    requires
        offsets.len() <= u16::MAX,
        0 <= i < offsets.len(),
    ensures
        ({
            let s = block_trailer(offsets);
            &&& s.len() == 2 * offsets.len() + 2
            &&& codec::be_value(s.subrange(2 * i, 2 * i + 2)) == offsets[i]
            &&& codec::be_value(s.skip(2 * offsets.len() as int)) == offsets.len()
        }),
{
    broadcast use codec::lemma_be_bytes_len;

    let s = block_trailer(offsets);
    let n = offsets.len() as int;
    lemma_offsets_be(offsets);
    codec::lemma_byte_capacities();
    codec::lemma_be_round_trip(n as nat, 2);
    codec::lemma_be_round_trip(offsets[i] as nat, 2);
    assert(s.skip(2 * n) =~= codec::be_bytes(n as nat, 2));
    assert(s.subrange(2 * i, 2 * i + 2) =~= offsets_be(offsets).subrange(2 * i, 2 * i + 2));
}

proof fn lemma_offsets_be(offsets: Seq<u16>)
    ensures
        offsets_be(offsets).len() == 2 * offsets.len(),
        forall|i: int|
            0 <= i < offsets.len()
                ==> offsets_be(offsets).subrange(2 * i, 2 * i + 2) == codec::be_bytes(
                #[trigger] offsets[i] as nat,
                2,
            ),
    decreases offsets.len(),
{
    broadcast use codec::lemma_be_bytes_len;

    if offsets.len() > 0 {
        let front = offsets.drop_last();
        lemma_offsets_be(front);
        let s = offsets_be(offsets);
        assert forall|i: int| 0 <= i < offsets.len() implies s.subrange(2 * i, 2 * i + 2)
            == codec::be_bytes(#[trigger] offsets[i] as nat, 2) by {
            if i < front.len() {
                assert(front[i] == offsets[i]);
                assert(s.subrange(2 * i, 2 * i + 2) =~= offsets_be(front).subrange(
                    2 * i,
                    2 * i + 2,
                ));
            } else {
                assert(s.subrange(2 * i, 2 * i + 2) =~= codec::be_bytes(offsets[i] as nat, 2));
            }
        }
    }
}

} // verus!
