//! Probabilistic membership filter over 64-bit hashes, used to skip delta
//! probes for keys that were never written there.
use vstd::prelude::*;
use crate::mph_delta_index::mph_indexer::{bit_of, bitset, bs_set, bs_get, words_for};
use crate::pow2::{is_pow2, next_power_of_two, lemma_pow2_mask};

verus! {

/// SplitMix64-style mixing of a seed (without the additive step).
pub open spec fn spec_mix64(x0: u64) -> u64 {
    let x1 = x0 ^ (x0 >> 30u64);
    let x2 = vstd::wrapping::u64_specs::wrapping_mul(x1, 0xbf58476d1ce4e5b9u64);
    let x3 = x2 ^ (x2 >> 27u64);
    let x4 = vstd::wrapping::u64_specs::wrapping_mul(x3, 0x94d049bb133111ebu64);
    x4 ^ (x4 >> 31u64)
}

/// The `i`-th probe hash of a seed: `h1 + i * h2` with `h1` the seed and
/// `h2` its mix forced odd (double hashing).
pub open spec fn probe_hash(seed: u64, i: u64) -> u64 {
    vstd::wrapping::u64_specs::wrapping_add(seed, vstd::wrapping::u64_specs::wrapping_mul(i, spec_mix64(seed) | 1u64))
}

/// The bit that probe `i` of `seed` lands on under `mask`.
pub open spec fn probe_at(mask: usize, seed: u64, i: u64) -> int {
    (probe_hash(seed, i) as usize & mask) as int
}

/// Bits for `capacity` keys at about one percent false positives, before
/// rounding: `ceil(c * 9.585058378)` with `c = max(capacity, 1)`.
pub open spec fn sized_bits(capacity: nat) -> int {
    let c: int = if capacity < 1 { 1 } else { capacity as int };
    (c * 9_585_058_378 + 999_999_999) / 1_000_000_000
}

/// Probes for `m` bits and `capacity` keys: `round(m / c * 0.693147181)`,
/// clamped to `1..=64`.
pub open spec fn sized_probes(m: nat, capacity: nat) -> int {
    let c: int = if capacity < 1 { 1 } else { capacity as int };
    let k0 = (m * 693_147_181 + c * 500_000_000) / (c * 1_000_000_000);
    if k0 < 1 { 1 } else if k0 > 64 { 64 } else { k0 }
}

/// Bloom filter with `k` probes into a power-of-two number of bits.
pub struct DeltaBloom {
    bits: Vec<u64>,
    mask: usize,
    k: u32,
}

impl DeltaBloom {
    /// Number of probes per key.
    pub closed spec fn probes(&self) -> u32 {
        self.k
    }

    /// Number of bits.
    pub closed spec fn num_bits(&self) -> nat {
        (self.mask + 1) as nat
    }

    /// The bit that probe `i` of `seed` lands on.
    pub closed spec fn probe_bit(&self, seed: u64, i: u64) -> int {
        probe_at(self.mask, seed, i)
    }

    /// Every probe bit of `seed` is set.
    pub closed spec fn may_contain(&self, seed: u64) -> bool {
        forall|i: u64| i < self.k ==> #[trigger] bit_of(self.bits@, self.probe_bit(seed, i))
    }

    /// The bit array covers the mask, whose size is a power of two.
    pub closed spec fn wf(&self) -> bool {
        &&& is_pow2((self.mask + 1) as usize)
        &&& self.mask + 1 == self.bits@.len() * 64
        &&& self.mask < usize::MAX
    }

    /// An empty filter of `num_bits` bits (a power of two, at least 64) with
    /// `k` probes per key.
    pub fn with_params(num_bits: usize, k: u32) -> (r: Self)
        requires
            is_pow2(num_bits),
            num_bits >= 64,
        ensures
            r.wf(),
            r.num_bits() == num_bits,
            r.probes() == k,
            forall|seed: u64| #[trigger] r.may_contain(seed) <==> k == 0,
    {
        let bits = bitset(num_bits);
        proof {
            lemma_pow2_mask(num_bits);
            assert(num_bits % 64 == 0) by {
                let x = num_bits;
                assert(x & ((x - 1) as usize) == 0usize && x >= 64usize ==> x % 64 == 0) by (bit_vector);
                assert(num_bits & ((num_bits - 1) as usize) == num_bits % num_bits);
            }
        }
        let r = DeltaBloom { bits, mask: num_bits - 1, k };
        proof {
            assert forall|seed: u64| #[trigger] r.may_contain(seed) <==> k == 0 by {
                if k > 0 {
                    let b = r.probe_bit(seed, 0);
                    lemma_probe_in_range(&r, seed, 0);
                    assert(!bit_of(r.bits@, b));
                }
            }
        }
        r
    }

    /// A filter sized for `capacity` keys at a false-positive rate of about
    /// one percent: `ceil(capacity * 9.585)` bits rounded up to a power of
    /// two (at least 64), and `round(bits / capacity * 0.6931)` probes (at
    /// least 1), with the constants as decimal fractions of a billion.
    pub fn with_capacity(capacity: usize) -> (r: Self)
        requires
            capacity <= usize::MAX / 32,
        ensures
            r.wf(),
            r.probes() >= 1,
            r.probes() == sized_probes(r.num_bits(), capacity as nat),
            r.num_bits() >= 64,
            r.num_bits() >= sized_bits(capacity as nat),
            r.num_bits() == 64 || r.num_bits() / 2 < sized_bits(capacity as nat),
            forall|seed: u64| !(#[trigger] r.may_contain(seed)),
    {
        let c: u128 = if capacity < 1 { 1 } else { capacity as u128 };
        let m0: u128 = (c * 9_585_058_378u128 + 999_999_999u128) / 1_000_000_000u128;
        proof {
            vstd::arithmetic::power2::lemma2_to64();
            vstd::arithmetic::power2::lemma2_to64_rest();
            assert(m0 <= c * 10);
        }
        let m1 = next_power_of_two(m0 as usize);
        let m: usize = if m1 < 64 { 64 } else { m1 };
        proof {
            if m1 < 64 {
                assert(64usize == vstd::arithmetic::power2::pow2(6));
            }
        }
        let k0: u128 = (m as u128 * 693_147_181u128 + c * 500_000_000u128) / (c * 1_000_000_000u128);
        let k: u32 = if k0 < 1 { 1 } else if k0 > 64 { 64 } else { k0 as u32 };
        Self::with_params(m, k)
    }

    /// Insert a pre-hashed key: set each of its probe bits.
    pub fn insert_prehashed(&mut self, seed: u64)
        requires
            old(self).wf(),
        ensures
            final(self).wf(),
            final(self).probes() == old(self).probes(),
            final(self).num_bits() == old(self).num_bits(),
            final(self).may_contain(seed),
            forall|s: u64| #[trigger] old(self).may_contain(s) ==> final(self).may_contain(s),
    {
        let h1 = seed;
        let h2 = mix64(seed) | 1;
        let mut i: u32 = 0;
        while i < self.k
            invariant
                self.wf(),
                self.k == old(self).k,
                self.mask == old(self).mask,
                self.bits@.len() == old(self).bits@.len(),
                h1 == seed,
                h2 == spec_mix64(seed) | 1u64,
                i <= self.k,
                forall|j: u64| j < i ==> #[trigger] bit_of(self.bits@, probe_at(self.mask, seed, j)),
                forall|b: int| 0 <= b < self.bits@.len() * 64 && bit_of(old(self).bits@, b) ==> #[trigger] bit_of(self.bits@, b),
            decreases self.k - i,
        {
            let h = h1.wrapping_add((i as u64).wrapping_mul(h2));
            let bit = (#[verifier::truncate] (h as usize)) & self.mask;
            proof {
                lemma_probe_in_range(self, seed, i as u64);
            }
            let ghost before = self.bits@;
            bs_set(&mut self.bits, bit);
            proof {
                assert forall|j: u64| j < i + 1 implies #[trigger] bit_of(self.bits@, probe_at(self.mask, seed, j)) by {
                    lemma_probe_in_range(self, seed, j);
                    if j < i {
                        assert(bit_of(before, probe_at(self.mask, seed, j)));
                    }
                }
            }
            i = i + 1;
        }
        proof {
            assert forall|s: u64| #[trigger] old(self).may_contain(s) implies self.may_contain(s) by {
                assert forall|j: u64| j < self.k implies #[trigger] bit_of(self.bits@, self.probe_bit(s, j)) by {
                    lemma_probe_in_range(old(self), s, j);
                    assert(bit_of(old(self).bits@, old(self).probe_bit(s, j)));
                }
            }
        }
    }

    /// Whether every probe bit of a pre-hashed key is set.
    pub fn might_contain_prehashed(&self, seed: u64) -> (r: bool)
        requires
            self.wf(),
        ensures
            r == self.may_contain(seed),
    {
        let h1 = seed;
        let h2 = mix64(seed) | 1;
        let mut i: u32 = 0;
        while i < self.k
            invariant
                self.wf(),
                h1 == seed,
                h2 == spec_mix64(seed) | 1u64,
                i <= self.k,
                forall|j: u64| j < i ==> #[trigger] bit_of(self.bits@, self.probe_bit(seed, j)),
            decreases self.k - i,
        {
            let h = h1.wrapping_add((i as u64).wrapping_mul(h2));
            let bit = (#[verifier::truncate] (h as usize)) & self.mask;
            proof {
                lemma_probe_in_range(self, seed, i as u64);
            }
            if !bs_get(self.bits.as_slice(), bit) {
                return false;
            }
            i = i + 1;
        }
        true
    }

    /// Reset every bit.
    pub fn clear(&mut self)
        requires
            old(self).wf(),
        ensures
            final(self).wf(),
            final(self).probes() == old(self).probes(),
            final(self).num_bits() == old(self).num_bits(),
            forall|seed: u64| #[trigger] final(self).may_contain(seed) <==> final(self).probes() == 0,
    {
        let n = self.mask + 1;
        proof {
            lemma_pow2_mask(n);
        }
        *self = Self::with_params(n, self.k);
    }
}

/// SplitMix64-style mixing of a seed.
fn mix64(x: u64) -> (r: u64)
    ensures
        r == spec_mix64(x),
{
    let mut x = x;
    x = x ^ (x >> 30);
    x = x.wrapping_mul(0xbf58476d1ce4e5b9);
    x = x ^ (x >> 27);
    x = x.wrapping_mul(0x94d049bb133111eb);
    x ^ (x >> 31)
}

proof fn lemma_probe_in_range(b: &DeltaBloom, seed: u64, i: u64)
    requires
        b.wf(),
    ensures
        0 <= b.probe_bit(seed, i) <= b.mask,
        b.probe_bit(seed, i) / 64 < b.bits@.len(),
{
    let h = probe_hash(seed, i) as usize;
    let m = b.mask;
    assert(h & m <= m) by (bit_vector);
}

} // verus!
