//! Fixed-width integers as bytes, in both byte orders.
use bytes::{Buf, BufMut};
use vstd::prelude::*;

verus! {

/// The `n` low-order bytes of `v`, least significant byte first.
pub open spec fn le_bytes(v: nat, n: nat) -> Seq<u8>
    decreases n,
{
    if n == 0 {
        Seq::empty()
    } else {
        seq![(v % 256) as u8] + le_bytes(v / 256, (n - 1) as nat)
    }
}

/// The number whose bytes are `s`, least significant byte first.
pub open spec fn le_value(s: Seq<u8>) -> nat
    decreases s.len(),
{
    if s.len() == 0 {
        0
    } else {
        s[0] as nat + 256 * le_value(s.drop_first())
    }
}

/// The `n` low-order bytes of `v`, most significant byte first.
pub open spec fn be_bytes(v: nat, n: nat) -> Seq<u8>
    decreases n,
{
    if n == 0 {
        Seq::empty()
    } else {
        be_bytes(v / 256, (n - 1) as nat).push((v % 256) as u8)
    }
}

/// The number whose bytes are `s`, most significant byte first.
pub open spec fn be_value(s: Seq<u8>) -> nat
    decreases s.len(),
{
    if s.len() == 0 {
        0
    } else {
        s.last() as nat + 256 * be_value(s.drop_last())
    }
}

/// How many values `n` bytes can tell apart.
pub open spec fn byte_capacity(n: nat) -> nat
    decreases n,
{
    if n == 0 {
        1
    } else {
        256 * byte_capacity((n - 1) as nat)
    }
}

pub broadcast proof fn lemma_le_bytes_len(v: nat, n: nat)
    ensures
        #[trigger] le_bytes(v, n).len() == n,
    decreases n,
{
    if n > 0 {
        lemma_le_bytes_len(v / 256, (n - 1) as nat);
    }
}

pub broadcast proof fn lemma_be_bytes_len(v: nat, n: nat)
    ensures
        #[trigger] be_bytes(v, n).len() == n,
    decreases n,
{
    if n > 0 {
        lemma_be_bytes_len(v / 256, (n - 1) as nat);
    }
}

/// Little-endian bytes give back the number they were made from.
pub proof fn lemma_le_round_trip(v: nat, n: nat)
    requires
        v < byte_capacity(n),
    ensures
        le_value(le_bytes(v, n)) == v,
    decreases n,
{
    if n > 0 {
        lemma_le_round_trip(v / 256, (n - 1) as nat);
        assert(le_bytes(v, n).drop_first() =~= le_bytes(v / 256, (n - 1) as nat));
    }
}

/// Big-endian bytes give back the number they were made from.
pub proof fn lemma_be_round_trip(v: nat, n: nat)
    requires
        v < byte_capacity(n),
    ensures
        be_value(be_bytes(v, n)) == v,
    decreases n,
{
    if n > 0 {
        lemma_be_round_trip(v / 256, (n - 1) as nat);
        assert(be_bytes(v, n).drop_last() =~= be_bytes(v / 256, (n - 1) as nat));
    }
}

pub proof fn lemma_byte_capacities()
    ensures
        byte_capacity(2) == 0x1_0000,
        byte_capacity(4) == 0x1_0000_0000,
        byte_capacity(8) == 0x1_0000_0000_0000_0000,
{
    reveal_with_fuel(byte_capacity, 9);
}

/// Reads a number of `n` bytes at `pos`, least significant first.
fn read_le(data: &[u8], pos: usize, n: usize) -> (v: u64)
    requires
        pos + n <= data.len(),
        n <= 8,
    ensures
        v == le_value(data@.subrange(pos as int, pos + n)),
        v < byte_capacity(n as nat),
    decreases n,
{
    if n == 0 {
        return 0;
    }
    let rest: u64 = read_le(data, pos + 1, n - 1);
    proof {
        let s = data@.subrange(pos as int, pos + n);
        assert(s.drop_first() =~= data@.subrange(pos + 1, pos + n));
        reveal_with_fuel(byte_capacity, 9);
    }
    data[pos] as u64 + 256 * rest
}

/// Reads a number of `n` bytes at `pos`, most significant first.
fn read_be(data: &[u8], pos: usize, n: usize) -> (v: u64)
    requires
        pos + n <= data.len(),
        n <= 8,
    ensures
        v == be_value(data@.subrange(pos as int, pos + n)),
        v < byte_capacity(n as nat),
    decreases n,
{
    if n == 0 {
        return 0;
    }
    let rest: u64 = read_be(data, pos, n - 1);
    proof {
        let s = data@.subrange(pos as int, pos + n);
        assert(s.drop_last() =~= data@.subrange(pos as int, pos + n - 1));
        reveal_with_fuel(byte_capacity, 9);
    }
    data[pos + n - 1] as u64 + 256 * rest
}

/// Reads two bytes at `pos`, least significant first.
pub fn read_u16_le(data: &[u8], pos: usize) -> (v: u16)
    requires
        pos + 2 <= data.len(),
    ensures
        v == le_value(data@.subrange(pos as int, pos + 2)),
{
    proof {
        lemma_byte_capacities();
    }
    read_le(data, pos, 2) as u16
}

/// Reads four bytes at `pos`, least significant first.
pub fn read_u32_le(data: &[u8], pos: usize) -> (v: u32)
    requires
        pos + 4 <= data.len(),
    ensures
        v == le_value(data@.subrange(pos as int, pos + 4)),
{
    proof {
        lemma_byte_capacities();
    }
    read_le(data, pos, 4) as u32
}

/// Reads eight bytes at `pos`, least significant first.
pub fn read_u64_le(data: &[u8], pos: usize) -> (v: u64)
    requires
        pos + 8 <= data.len(),
    ensures
        v == le_value(data@.subrange(pos as int, pos + 8)),
{
    read_le(data, pos, 8)
}

/// Reads two bytes at `pos`, most significant first.
pub fn read_u16_be(data: &[u8], pos: usize) -> (v: u16)
    requires
        pos + 2 <= data.len(),
    ensures
        v == be_value(data@.subrange(pos as int, pos + 2)),
{
    proof {
        lemma_byte_capacities();
    }
    read_be(data, pos, 2) as u16
}

/// Reads four bytes at `pos`, most significant first.
pub fn read_u32_be(data: &[u8], pos: usize) -> (v: u32)
    requires
        pos + 4 <= data.len(),
    ensures
        v == be_value(data@.subrange(pos as int, pos + 4)),
{
    proof {
        lemma_byte_capacities();
    }
    read_be(data, pos, 4) as u32
}

/// Reads eight bytes at `pos`, most significant first.
pub fn read_u64_be(data: &[u8], pos: usize) -> (v: u64)
    requires
        pos + 8 <= data.len(),
    ensures
        v == be_value(data@.subrange(pos as int, pos + 8)),
{
    read_be(data, pos, 8)
}

/// Appends the `n` low-order bytes of `v`, least significant first.
pub fn append_le(buf: &mut Vec<u8>, v: u64, n: usize)
    ensures
        final(buf)@ == old(buf)@ + le_bytes(v as nat, n as nat),
    decreases n,
{
    if n > 0 {
        let ghost before = buf@;
        buf.push((v % 256) as u8);
        append_le(buf, v / 256, n - 1);
        assert(buf@ =~= before + le_bytes(v as nat, n as nat));
    } else {
        assert(buf@ =~= old(buf)@ + le_bytes(v as nat, 0));
    }
}

/// Appends the `n` low-order bytes of `v`, most significant first.
pub fn append_be(buf: &mut Vec<u8>, v: u64, n: usize)
    ensures
        final(buf)@ == old(buf)@ + be_bytes(v as nat, n as nat),
    decreases n,
{
    if n > 0 {
        let ghost before = buf@;
        append_be(buf, v / 256, n - 1);
        buf.push((v % 256) as u8);
        assert(buf@ =~= before + be_bytes(v as nat, n as nat));
    } else {
        assert(buf@ =~= old(buf)@ + be_bytes(v as nat, 0));
    }
}

/// `BufMut::put_u16_le` of a vector: the two bytes of `n` are appended, least significant first.
#[verifier::external_body]
pub(crate) fn put_u16_le(buf: &mut Vec<u8>, n: u16)
    ensures
        final(buf)@ == old(buf)@ + le_bytes(n as nat, 2),
{
    buf.put_u16_le(n)
}

/// `BufMut::put_u16` of a vector: the two bytes of `n` are appended, most significant first.
#[verifier::external_body]
pub(crate) fn put_u16(buf: &mut Vec<u8>, n: u16)
    ensures
        final(buf)@ == old(buf)@ + be_bytes(n as nat, 2),
{
    buf.put_u16(n)
}

/// `BufMut::put_u64_le` of a vector: the eight bytes of `n` are appended, least significant first.
#[verifier::external_body]
pub(crate) fn put_u64_le(buf: &mut Vec<u8>, n: u64)
    ensures
        final(buf)@ == old(buf)@ + le_bytes(n as nat, 8),
{
    buf.put_u64_le(n)
}

/// `BufMut::put_u64` of a vector: the eight bytes of `n` are appended, most significant first.
#[verifier::external_body]
pub(crate) fn put_u64(buf: &mut Vec<u8>, n: u64)
    ensures
        final(buf)@ == old(buf)@ + be_bytes(n as nat, 8),
{
    buf.put_u64(n)
}

/// `BufMut::put_slice` of a vector: the bytes of `src` are appended.
#[verifier::external_body]
pub(crate) fn put_slice(buf: &mut Vec<u8>, src: &[u8])
    ensures
        final(buf)@ == old(buf)@ + src@,
{
    buf.put_slice(src)
}

/// `Buf::get_u64_le` of a slice: the number that its first eight bytes hold, least significant
/// first. It panics on fewer bytes.
#[verifier::external_body]
pub(crate) fn get_u64_le(buf: &[u8]) -> (v: u64)
    requires
        buf@.len() >= 8,
    ensures
        v == le_value(buf@.take(8)),
{
    let mut rest = buf;
    rest.get_u64_le()
}

/// `Buf::get_u16_le` of a slice: the number that its first two bytes hold, least significant
/// first. It panics on fewer bytes.
#[verifier::external_body]
pub(crate) fn get_u16_le(buf: &[u8]) -> (v: u16)
    requires
        buf@.len() >= 2,
    ensures
        v == le_value(buf@.take(2)),
{
    let mut rest = buf;
    rest.get_u16_le()
}

/// `Buf::copy_to_bytes` of a slice: its first `len` bytes. It panics if there are fewer.
#[verifier::external_body]
pub(crate) fn copy_to_bytes(buf: &[u8], len: usize) -> (v: Vec<u8>)
    requires
        len <= buf@.len(),
    ensures
        v@ == buf@.take(len as int),
{
    let mut rest = buf;
    rest.copy_to_bytes(len).to_vec()
}

/// The bytes of a number are its digits to the base 256: from the lowest on in the one order, from
/// the highest on in the other.
pub proof fn law_digits(v: nat, n: nat, i: nat)
    requires
        i < n,
    ensures
        le_bytes(v, n)[i as int] == (v / byte_capacity(i)) % 256,
        be_bytes(v, n)[n - 1 - i] == (v / byte_capacity(i)) % 256,
    decreases n,
{
    broadcast use {lemma_le_bytes_len, lemma_be_bytes_len};

    if i == 0 {
        assert(byte_capacity(0) == 1);
        assert(v / 1 == v);
        assert(be_bytes(v / 256, (n - 1) as nat).len() == n - 1);
    } else {
        let j = (i - 1) as nat;
        let m = (n - 1) as nat;
        law_digits(v / 256, m, j);
        let rest = be_bytes(v / 256, m);
        assert(be_bytes(v, n) == rest.push((v % 256) as u8));
        assert(be_bytes(v, n)[n - 1 - i] == rest[m - 1 - j]);
        lemma_capacity_positive(j);
        assert((v / 256) / byte_capacity(j) == v / (256 * byte_capacity(j))) by {
            vstd::arithmetic::div_mod::lemma_div_denominator(
                v as int,
                256,
                byte_capacity(j) as int,
            );
        }
    }
}

proof fn lemma_capacity_positive(n: nat)
    ensures
        byte_capacity(n) > 0,
    decreases n,
{
    if n > 0 {
        lemma_capacity_positive((n - 1) as nat);
    }
}

} // verus!
