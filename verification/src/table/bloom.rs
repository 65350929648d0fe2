//! Bloom filters over key fingerprints.
use crate::error::LsmError;
use crate::key::copy_bytes;
use vstd::prelude::*;

verus! {

/// How far apart the probes of a fingerprint lie.
pub open spec fn probe_step(h: u32) -> u32 {
    (h >> 17u32) | (h << 15u32)
}

/// The `i`-th probe of a fingerprint, modulo 2^32.
pub open spec fn probe(h: u32, i: nat) -> u32
    decreases i,
{
    if i == 0 {
        h
    } else {
        ((probe(h, (i - 1) as nat) + probe_step(h)) % 0x1_0000_0000) as u32
    }
}

/// The bit `k` of a byte.
pub open spec fn bit_mask(k: int) -> u8 {
    1u8 << (k as u8)
}

/// The bit `pos` of a filter is set.
pub open spec fn bit_set(filter: Seq<u8>, pos: int) -> bool {
    filter[pos / 8] & bit_mask(pos % 8) != 0
}

/// The first `k` probes of `h` all hit.
pub open spec fn probes_hit(filter: Seq<u8>, h: u32, k: nat) -> bool {
    forall|i: nat| i < k
        ==> bit_set(filter, #[trigger] probe(h, i) as int % (8 * filter.len()) as int)
}

/// One of the first `k` probes of `h` hits the bit `pos` of `n` bits.
pub open spec fn hit_by(h: u32, k: nat, n: nat, pos: int) -> bool {
    exists|j: nat| j < k && pos == #[trigger] probe(h, j) as int % n as int
}

/// One of the first `k` probes of one of the fingerprints `hs` hits the bit `pos` of `n` bits.
pub open spec fn hit(hs: Seq<u32>, k: nat, n: nat, pos: int) -> bool {
    exists|i: int| 0 <= i < hs.len() && #[trigger] hit_by(hs[i], k, n, pos)
}

/// Those bits of the filter are set that a probe of one of `hs` hits, and no others.
pub open spec fn marks(filter: Seq<u8>, hs: Seq<u32>, k: nat) -> bool {
    forall|pos: int|
        0 <= pos < 8 * filter.len() ==> (#[trigger] bit_set(filter, pos) <==> hit(
            hs,
            k,
            8 * filter.len(),
            pos,
        ))
}

/// How many probes there are for each fingerprint.
pub open spec fn probe_count(bits_per_key: usize) -> int {
    if bits_per_key < 2 {
        1
    } else if bits_per_key >= 44 {
        30
    } else {
        bits_per_key * 69 / 100
    }
}

/// How many bytes a filter takes: at least eight.
pub open spec fn filter_len(keys: nat, bits_per_key: usize) -> int {
    if keys * bits_per_key <= 64 {
        8
    } else {
        (keys * bits_per_key + 7) / 8
    }
}

/// How many bits each of `entries` keys gets.
pub open spec fn bits_per_key_for(entries: nat) -> usize {
    if entries == 0 {
        0
    } else {
        10
    }
}

/// The filter does not rule out `h`.
pub open spec fn may_hold(filter: Seq<u8>, k: u8, h: u32) -> bool {
    filter.len() == 0 || k > 30 || probes_hit(filter, h, k as nat)
}

/// A filter without bits is that of no fingerprints.
proof fn lemma_no_marks(filter: Seq<u8>, k: nat)
    requires
        forall|i: int| 0 <= i < filter.len() ==> #[trigger] filter[i] == 0u8,
    ensures
        marks(filter, Seq::empty(), k),
{
    assert forall|pos: int| 0 <= pos < 8 * filter.len()
        implies !#[trigger] bit_set(filter, pos) by {
        let m = bit_mask(pos % 8);
        assert(0u8 & m == 0) by (bit_vector);
        assert(filter[pos / 8] == 0);
    }
}

/// The probes of one more fingerprint set the bits of that fingerprint too.
proof fn lemma_marks_more(before: Seq<u8>, after: Seq<u8>, hs: Seq<u32>, i: int, k: nat)
    requires
        0 <= i < hs.len(),
        marks(before, hs.take(i), k),
        after.len() == before.len(),
        forall|pos: int|
            0 <= pos < 8 * before.len()
                ==> (#[trigger] bit_set(after, pos) <==> bit_set(before, pos)
                || hit_by(hs[i], k, 8 * before.len(), pos)),
    ensures
        marks(after, hs.take(i + 1), k),
{
    let n = 8 * before.len();
    let few = hs.take(i);
    let more = hs.take(i + 1);
    assert forall|pos: int| 0 <= pos < n implies (#[trigger] bit_set(after, pos) <==> hit(
        more,
        k,
        n,
        pos,
    )) by {
        assert(bit_set(before, pos) <==> hit(few, k, n, pos));
        if hit(few, k, n, pos) {
            let j = choose|j: int| 0 <= j < few.len() && #[trigger] hit_by(few[j], k, n, pos);
            assert(more[j] == few[j]);
        }
        if hit_by(hs[i], k, n, pos) {
            assert(more[i] == hs[i]);
        }
        if hit(more, k, n, pos) {
            let j = choose|j: int| 0 <= j < more.len() && #[trigger] hit_by(more[j], k, n, pos);
            if j < i {
                assert(few[j] == more[j]);
            }
        }
    }
}

/// The filter of some fingerprints rules out none of them.
proof fn lemma_marked_hit(filter: Seq<u8>, hs: Seq<u32>, k: nat)
    requires
        filter.len() > 0,
        marks(filter, hs, k),
    ensures
        forall|i: int| 0 <= i < hs.len() ==> probes_hit(filter, #[trigger] hs[i], k),
{
    let n = 8 * filter.len();
    assert forall|i: int| 0 <= i < hs.len() implies probes_hit(filter, #[trigger] hs[i], k) by {
        assert forall|j: nat| j < k implies bit_set(
            filter,
            #[trigger] probe(hs[i], j) as int % n as int,
        ) by {
            let pos = probe(hs[i], j) as int % n as int;
            assert(0 <= pos < n);
            assert(hit_by(hs[i], k, n, pos));
            assert(hit(hs, k, n, pos));
            assert(bit_set(filter, pos) <==> hit(hs, k, n, pos));
        }
    }
}

/// Setting a bit changes no other one.
proof fn lemma_set_bit(before: Seq<u8>, after: Seq<u8>, byte: int, bit: u8, p: int)
    requires
        0 <= byte < before.len(),
        bit < 8,
        after == before.update(byte, before[byte] | (1u8 << bit)),
        0 <= p < 8 * before.len(),
    ensures
        bit_set(after, p) <==> bit_set(before, p) || p == 8 * byte + bit,
{
    let x = before[byte];
    let other = (p % 8) as u8;
    if p / 8 == byte {
        assert((x | (1u8 << bit)) & (1u8 << other) != 0 <==> x & (1u8 << other) != 0 || other
            == bit) by (bit_vector)
            requires
                bit < 8,
                other < 8,
        ;
    }
}

proof fn lemma_one_more_probe(h: u32, k: nat, n: nat, pos: int)
    ensures
        hit_by(h, k + 1, n, pos) <==> hit_by(h, k, n, pos) || pos == probe(h, k) as int % n as int,
{
    if hit_by(h, k + 1, n, pos) {
        let j = choose|j: nat| j < k + 1 && pos == #[trigger] probe(h, j) as int % n as int;
        assert(j < k || j == k);
    }
    if hit_by(h, k, n, pos) {
        let j = choose|j: nat| j < k && pos == #[trigger] probe(h, j) as int % n as int;
        assert(j < k + 1);
    }
}

/// A bloom filter.
#[derive(Debug)]
pub struct Bloom {
    /// The bits of the filter.
    pub filter: Vec<u8>,
    /// How many probes there are for each fingerprint.
    pub k: u8,
}

impl Bloom {
    pub open spec fn holds(&self, h: u32) -> bool {
        may_hold(self.filter@, self.k, h)
    }

    /// The filter of the fingerprints `hs`.
    pub open spec fn made_of(&self, hs: Seq<u32>, bits_per_key: usize) -> bool {
        &&& self.k == probe_count(bits_per_key)
        &&& self.filter@.len() == filter_len(hs.len(), bits_per_key)
        &&& marks(self.filter@, hs, self.k as nat)
    }

    /// The bytes of a filter: its bits, then the number of probes.
    pub open spec fn bytes(&self) -> Seq<u8> {
        self.filter@.push(self.k)
    }

    /// Reads a filter out of its bytes.
    pub fn decode(buf: &[u8]) -> (r: Result<Bloom, LsmError>)
        ensures
            buf@.len() == 0 ==> r == Err::<Bloom, _>(LsmError::MissingBloom),
            buf@.len() > 0 ==> r is Ok && r->Ok_0.bytes() == buf@,
    {
        let n: usize = buf.len();
        if n == 0 {
            return Err(LsmError::MissingBloom);
        }
        let b = Bloom { filter: copy_bytes(&buf[0..n - 1]), k: buf[n - 1] };
        assert(b.bytes() =~= buf@);
        Ok(b)
    }

    /// Appends the bytes of the filter to `buf`.
    pub fn encode(&self, buf: &mut Vec<u8>)
        ensures
            final(buf)@ == old(buf)@ + self.bytes(),
    {
        buf.extend_from_slice(self.filter.as_slice());
        buf.push(self.k);
        assert(buf@ =~= old(buf)@ + self.bytes());
    }

    /// How many bits each of `entries` keys gets so that about one key in a hundred that was not
    /// added is not ruled out: `-ln(0.01) / ln(2)^2`, rounded up.
    pub fn bloom_bits_per_key(entries: usize) -> (n: usize)
        ensures
            n == bits_per_key_for(entries as nat),
    {
        if entries == 0 {
            0
        } else {
            10
        }
    }

    /// Builds the filter of some fingerprints.
    pub fn build_from_key_hashes(keys: &Vec<u32>, bits_per_key: usize) -> (b: Bloom)
        requires
            keys@.len() * bits_per_key + 64 <= usize::MAX,
            bits_per_key <= 64,
        ensures
            b.made_of(keys@, bits_per_key),
            8 * b.filter@.len() <= usize::MAX,
            forall|i: int| 0 <= i < keys@.len() ==> b.holds(#[trigger] keys@[i]),
    {
        let k: usize = if bits_per_key < 2 {
            1
        } else if bits_per_key >= 44 {
            30
        } else {
            bits_per_key * 69 / 100
        };
        assert(0 <= keys@.len() * bits_per_key) by (nonlinear_arith)
            requires
                0 <= bits_per_key,
                0 <= keys@.len(),
        ;
        let wanted: usize = keys.len() * bits_per_key;
        let nbits: usize = if wanted < 64 {
            64
        } else {
            wanted
        };
        let nbytes: usize = (nbits + 7) / 8;
        let mut filter: Vec<u8> = Vec::new();
        filter.resize(nbytes, 0);
        proof {
            lemma_no_marks(filter@, k as nat);
            assert(keys@.take(0) =~= Seq::empty());
        }
        let mut i: usize = 0;
        while i < keys.len()
            invariant
                i <= keys@.len(),
                filter@.len() == nbytes,
                8 <= nbytes,
                8 * nbytes <= usize::MAX,
                1 <= k <= 30,
                marks(filter@, keys@.take(i as int), k as nat),
            decreases keys@.len() - i,
        {
            let h: u32 = keys[i];
            let ghost before = filter@;
            Self::add_hash(&mut filter, h, k);
            proof {
                lemma_marks_more(before, filter@, keys@, i as int, k as nat);
            }
            i = i + 1;
        }
        proof {
            assert(keys@.take(i as int) =~= keys@);
            lemma_marked_hit(filter@, keys@, k as nat);
        }
        Bloom { filter, k: k as u8 }
    }

    /// Sets the bits of the first `k` probes of `h`.
    fn add_hash(filter: &mut Vec<u8>, h: u32, k: usize)
        requires
            old(filter)@.len() > 0,
            8 * old(filter)@.len() <= usize::MAX,
        ensures
            final(filter)@.len() == old(filter)@.len(),
            forall|pos: int|
                0 <= pos < 8 * old(filter)@.len() ==> (#[trigger] bit_set(final(filter)@, pos)
                    <==> bit_set(old(filter)@, pos) || hit_by(
                    h,
                    k as nat,
                    8 * old(filter)@.len(),
                    pos,
                )),
    {
        let delta: u32 = (h >> 17u32) | (h << 15u32);
        let nbits: usize = 8 * filter.len();
        let ghost before = filter@;
        let mut at: u32 = h;
        let mut i: usize = 0;
        while i < k
            invariant
                i <= k,
                at == probe(h, i as nat),
                delta == probe_step(h),
                nbits == 8 * filter@.len(),
                nbits > 0,
                filter@.len() == before.len(),
                forall|pos: int|
                    0 <= pos < nbits ==> (#[trigger] bit_set(filter@, pos) <==> bit_set(before, pos)
                        || hit_by(h, i as nat, nbits as nat, pos)),
            decreases k - i,
        {
            let pos: usize = (at as usize) % nbits;
            let ghost mid = filter@;
            let byte: usize = pos / 8;
            let bit: u8 = (pos % 8) as u8;
            let x: u8 = filter[byte];
            let m: u8 = 1u8 << bit;
            filter.set(byte, x | m);
            proof {
                assert forall|p: int| 0 <= p < nbits implies (#[trigger] bit_set(filter@, p)
                    <==> bit_set(before, p) || hit_by(h, (i + 1) as nat, nbits as nat, p)) by {
                    lemma_set_bit(mid, filter@, byte as int, bit, p);
                    assert(bit_set(mid, p) <==> bit_set(before, p) || hit_by(
                        h,
                        i as nat,
                        nbits as nat,
                        p,
                    ));
                    lemma_one_more_probe(h, i as nat, nbits as nat, p);
                }
            }
            at = at.wrapping_add(delta);
            i = i + 1;
        }
    }

    /// Whether the filter does not rule out `h`.
    pub fn may_contain(&self, h: u32) -> (r: bool)
        requires
            8 * self.filter@.len() <= usize::MAX,
        ensures
            r == self.holds(h),
    {
        if self.filter.len() == 0 || self.k > 30 {
            return true;
        }
        let delta: u32 = (h >> 17u32) | (h << 15u32);
        let nbits: usize = 8 * self.filter.len();
        let mut at: u32 = h;
        let mut i: u8 = 0;
        while i < self.k
            invariant
                i <= self.k,
                at == probe(h, i as nat),
                delta == probe_step(h),
                nbits == 8 * self.filter@.len(),
                nbits > 0,
                self.k <= 30,
                forall|j: nat|
                    j < i ==> bit_set(self.filter@, #[trigger] probe(h, j) as int % nbits as int),
            decreases self.k - i,
        {
            let pos: usize = (at as usize) % nbits;
            if self.filter[pos / 8] & (1u8 << ((pos % 8) as u8)) == 0 {
                assert(!bit_set(self.filter@, probe(h, i as nat) as int % nbits as int));
                return false;
            }
            at = at.wrapping_add(delta);
            i = i + 1;
        }
        true
    }
}

/// The probes of a fingerprint are evenly spaced, modulo 2^32: they go on by the fingerprint with
/// its low 17 bits and its high 15 bits exchanged.
pub proof fn law_probes(h: u32, i: nat)
    ensures
        probe_step(h) == h / 0x2_0000 + (h % 0x2_0000) * 0x8000,
        probe(h, i) == (h + i * probe_step(h)) % 0x1_0000_0000,
    decreases i,
{
    assert((h >> 17u32) | (h << 15u32) == (h / 0x2_0000u32) + (h % 0x2_0000u32) * 0x8000u32)
        by (bit_vector);
    if i > 0 {
        law_probes(h, (i - 1) as nat);
        let step = probe_step(h) as int;
        assert((i - 1) * step + step == i * step) by (nonlinear_arith);
        let x = h + (i - 1) * step;
        vstd::arithmetic::div_mod::lemma_add_mod_noop(x, step, 0x1_0000_0000);
        vstd::arithmetic::div_mod::lemma_small_mod(probe_step(h) as nat, 0x1_0000_0000);
        assert((x % 0x1_0000_0000 + step) % 0x1_0000_0000 == (x + step) % 0x1_0000_0000);
    } else {
        assert(0 * probe_step(h) == 0);
    }
}

/// The filter of some fingerprints has the bits that it is to have for each of them, at least 64 and
/// in whole bytes, and makes 0.69 times as many probes, but at least one and at most 30. It rules out a fingerprint exactly if one of its probes hits a bit that no probe of theirs
/// hits, so it rules out none of them.
pub proof fn law_filter(b: Bloom, hs: Seq<u32>, bits_per_key: usize, h: u32, p: nat)
    requires
        b.made_of(hs, bits_per_key),
    ensures
        8 * b.filter@.len() >= hs.len() * bits_per_key,
        8 * b.filter@.len() >= 64,
        8 * b.filter@.len() > 64 ==> 8 * b.filter@.len() < hs.len() * bits_per_key + 8,
        1 <= b.k <= 30,
        2 <= bits_per_key < 44 ==> 100 * b.k <= 69 * bits_per_key < 100 * b.k + 100,
        bits_per_key < 2 ==> b.k == 1,
        bits_per_key >= 44 ==> b.k == 30,
        b.holds(h) && p < b.k ==> exists|x: int, j: nat|
            #![trigger probe(hs[x], j)]
            {
                &&& 0 <= x < hs.len()
                &&& j < b.k
                &&& probe(h, p) as int % (8 * b.filter@.len()) as int == probe(hs[x], j) as int % (8
                    * b.filter@.len()) as int
            },
        !b.holds(h) ==> exists|i: nat|
            #![trigger probe(h, i)]
            i < b.k && forall|x: int, j: nat|
                #![trigger probe(hs[x], j)]
                0 <= x < hs.len() && j < b.k ==> probe(h, i) as int % (8 * b.filter@.len()) as int
                    != probe(hs[x], j) as int % (8 * b.filter@.len()) as int,
        hs.contains(h) ==> b.holds(h),
{
    let n = 8 * b.filter@.len();
    assert(hs.len() * bits_per_key >= 0) by (nonlinear_arith);
    if 2 <= bits_per_key < 44 {
        assert(100 * (bits_per_key * 69 / 100) <= bits_per_key * 69 < 100 * (bits_per_key * 69
            / 100) + 100);
    }
    assert forall|i: nat| i < b.k
        implies (bit_set(b.filter@, #[trigger] probe(h, i) as int % n as int)
        <==> exists|x: int, j: nat|
        {
            &&& 0 <= x < hs.len()
            &&& j < b.k
            &&& probe(h, i) as int % n as int == #[trigger] probe(hs[x], j) as int % n as int
        }) by {
        let pos = probe(h, i) as int % n as int;
        assert(0 <= pos < n);
        assert(bit_set(b.filter@, pos) <==> hit(hs, b.k as nat, n, pos));
        if hit(hs, b.k as nat, n, pos) {
            let x = choose|x: int| 0 <= x < hs.len()
                && #[trigger] hit_by(hs[x], b.k as nat, n, pos);
            let j = choose|j: nat| j < b.k && pos == #[trigger] probe(hs[x], j) as int % n as int;
            assert(pos == probe(hs[x], j) as int % n as int);
        }
        if exists|x: int, j: nat|
            {
                &&& 0 <= x < hs.len()
                &&& j < b.k
                &&& pos == #[trigger] probe(hs[x], j) as int % n as int
            } {
            let (x, j) = choose|x: int, j: nat|
                {
                    &&& 0 <= x < hs.len()
                    &&& j < b.k
                    &&& pos == #[trigger] probe(hs[x], j) as int % n as int
                };
            assert(hit_by(hs[x], b.k as nat, n, pos));
        }
    }
    if b.holds(h) {
        if p < b.k {
            assert(bit_set(b.filter@, probe(h, p) as int % n as int));
        }
    } else {
        let i = choose|i: nat|
            i < b.k && !bit_set(b.filter@, #[trigger] probe(h, i) as int % n as int);
        assert(i < b.k && forall|x: int, j: nat|
            #![trigger probe(hs[x], j)]
            0 <= x < hs.len() && j < b.k ==> probe(h, i) as int % n as int != probe(
                hs[x],
                j,
            ) as int % n as int);
    }
    if hs.contains(h) {
        lemma_marked_hit(b.filter@, hs, b.k as nat);
    }
}

/// A filter that claims more than 30 probes rules out nothing, and neither does one without bits.
pub proof fn law_strange_filter(b: Bloom, h: u32)
    requires
        b.k > 30 || b.filter@.len() == 0,
    ensures
        b.holds(h),
{
}

/// The bytes of a filter tell the filter.
pub proof fn law_filter_bytes(a: Bloom, b: Bloom)
    requires
        a.bytes() == b.bytes(),
    ensures
        a.k == b.k,
        a.filter@ == b.filter@,
{
    assert(a.bytes().last() == a.k);
    assert(b.bytes().last() == b.k);
    assert(a.filter@ =~= a.bytes().drop_last());
    assert(b.filter@ =~= b.bytes().drop_last());
}

} // verus!
