//! Checksums and fingerprints.
use crate::codec::{self, read_u32_le};
use vstd::prelude::*;

verus! {

/// The CRC-32 checksum of `data`, as `crc32fast` computes it.
pub uninterp spec fn crc32(data: Seq<u8>) -> u32;

/// `crc32fast::hash`: the checksum of `buf`, which depends on its bytes alone.
#[verifier::external_body]
pub(crate) fn checksum(buf: &[u8]) -> (r: u32)
    ensures
        r == crc32(buf@),
{
    crc32fast::hash(buf)
}

/// The four bytes of `s` from `p` on as a number, least significant byte first.
pub open spec fn word_at(s: Seq<u8>, p: int) -> int {
    codec::le_value(s.subrange(p, p + 4)) as int
}

/// None of the plain additions that `farmhash::fingerprint32` makes on keys of 5 to 24 bytes
/// exceeds 32 bits.
pub open spec fn fingerprintable(s: Seq<u8>) -> bool {
    if 5 <= s.len() <= 12 {
        &&& s.len() + word_at(s, 0) <= u32::MAX
        &&& 5 * s.len() + word_at(s, s.len() - 4) <= u32::MAX
        &&& 9 + word_at(
            s,
            if s.len() >= 8 {
                4
            } else {
                0
            },
        ) <= u32::MAX
    } else if 13 <= s.len() <= 24 {
        (word_at(s, s.len() as int / 2) * 0xcc9e2d51) % 0x1_0000_0000 + s.len() <= u32::MAX
    } else {
        true
    }
}

/// The 32-bit fingerprint of `data`, as `farmhash` computes it.
pub uninterp spec fn fingerprint32(data: Seq<u8>) -> u32;

/// `farmhash::fingerprint32`: the fingerprint of `data`, the same on every platform. Its plain
/// additions overflow, and with overflow checks panic, unless `data` is `fingerprintable`.
#[verifier::external_body]
fn fingerprint(data: &[u8]) -> (r: u32)
    requires
        fingerprintable(data@),
    ensures
        r == fingerprint32(data@),
{
    farmhash::fingerprint32(data)
}

/// The fingerprint under which a bloom filter knows a user key, if it has one.
pub open spec fn key_hash_of(key: Seq<u8>) -> Option<u32> {
    if fingerprintable(key) {
        Some(fingerprint32(key))
    } else {
        None
    }
}

/// The fingerprint under which a bloom filter knows a user key. A key that is not
/// `fingerprintable` has none: filters then say nothing of it.
pub fn key_hash(key: &[u8]) -> (r: Option<u32>)
    ensures
        r == key_hash_of(key@),
{
    let n: usize = key.len();
    let safe: bool = if 5 <= n && n <= 12 {
        let a: u64 = read_u32_le(key, 0) as u64;
        let b: u64 = read_u32_le(key, n - 4) as u64;
        let c: u64 = read_u32_le(
            key,
            if n >= 8 {
                4
            } else {
                0
            },
        ) as u64;
        n as u64 + a <= u32::MAX as u64 && 5 * (n as u64) + b <= u32::MAX as u64 && 9 + c
            <= u32::MAX as u64
    } else if 13 <= n && n <= 24 {
        let d: u32 = read_u32_le(key, n / 2);
        let m: u32 = d.wrapping_mul(0xcc9e2d51);
        m as u64 + n as u64 <= u32::MAX as u64
    } else {
        true
    };
    if safe {
        Some(fingerprint(key))
    } else {
        None
    }
}

/// A key of fewer than five or of more than 24 bytes has its fingerprint, and so has one of up to
/// twelve bytes of ASCII. No key has another one than `farmhash` gives.
pub proof fn law_keys_have_fingerprints(s: Seq<u8>)
    ensures
        s.len() < 5 || s.len() > 24 ==> key_hash_of(s) == Some(fingerprint32(s)),
        s.len() <= 12 && (forall|i: int| 0 <= i < s.len() ==> #[trigger] s[i] < 128)
            ==> key_hash_of(s)
            == Some(fingerprint32(s)),
        key_hash_of(s) is Some ==> key_hash_of(s) == Some(fingerprint32(s)),
{
    if 5 <= s.len() <= 12 && (forall|i: int| 0 <= i < s.len() ==> #[trigger] s[i] < 128) {
        lemma_small_word(s, 0);
        lemma_small_word(s, s.len() - 4);
        if s.len() >= 8 {
            lemma_small_word(s, 4);
        }
    }
}

/// Four bytes whose highest bits are not set make a number of less than 32 bits.
proof fn lemma_small_word(s: Seq<u8>, p: int)
    requires
        0 <= p,
        p + 4 <= s.len(),
        forall|i: int| 0 <= i < s.len() ==> #[trigger] s[i] < 128,
    ensures
        word_at(s, p) < 0x8000_0000,
{
    let w = s.subrange(p, p + 4);
    reveal_with_fuel(codec::le_value, 5);
    assert(w[0] == s[p] && w[1] == s[p + 1] && w[2] == s[p + 2] && w[3] == s[p + 3]);
    let a = w.drop_first();
    let b = a.drop_first();
    let c = b.drop_first();
    let d = c.drop_first();
    assert(a[0] == w[1] && b[0] == w[2] && c[0] == w[3]);
    assert(d.len() == 0);
    assert(codec::le_value(d) == 0);
    assert(codec::le_value(c) == w[3] as nat);
    assert(codec::le_value(b) == w[2] as nat + 256 * codec::le_value(c));
    assert(codec::le_value(a) == w[1] as nat + 256 * codec::le_value(b));
    assert(codec::le_value(w) == w[0] as nat + 256 * codec::le_value(a));
}

} // verus!
