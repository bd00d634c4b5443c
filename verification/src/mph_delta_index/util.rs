//! Hash-derived bucket indices, tags and fingerprints.
use vstd::prelude::*;
use std::hash::Hasher;
use crate::ids::IndexKey;

verus! {

/// The 64-bit hash that `ahash` computes, with its fixed keys, for a byte string.
pub uninterp spec fn ahash_bytes(bytes: Seq<u8>) -> u64;

/// The 64-bit hash that `ahash` computes, with its fixed keys, for a salt
/// followed by a byte string.
pub uninterp spec fn ahash_salted(salt: u64, bytes: Seq<u8>) -> u64;

/// Hash of a byte string: `ahash::AHasher::default()`, one `write` of the
/// bytes, `finish`. `AHasher::default` builds the hasher from
/// `RandomState::with_fixed_keys`; with the features enabled here (neither
/// `runtime-rng` nor `compile-time-rng`) those keys are the hardcoded `PI`
/// constants, so for a given build the result depends on the bytes alone.
/// Nothing is claimed of the value itself.
#[verifier::external_body]
pub(crate) fn hash_bytes(bytes: &[u8]) -> (h: u64)
    ensures
        h == ahash_bytes(bytes@),
{
    let mut hasher = ahash::AHasher::default();
    hasher.write(bytes);
    hasher.finish()
}

/// Salted hash of a byte string: `ahash::AHasher::default()`, `write_u64` of
/// the salt, one `write` of the bytes, `finish`. With the fixed keys described
/// at `hash_bytes`, the result depends on the salt and the bytes alone.
/// Nothing is claimed of the value itself.
#[verifier::external_body]
pub(crate) fn hash_bytes_salted(salt: u64, bytes: &[u8]) -> (h: u64)
    ensures
        h == ahash_salted(salt, bytes@),
{
    let mut hasher = ahash::AHasher::default();
    hasher.write_u64(salt);
    hasher.write(bytes);
    hasher.finish()
}

/// The 64-bit hash of a key.
pub open spec fn key_hash<K: IndexKey>(k: K) -> u64 {
    ahash_bytes(k.key_bytes())
}

/// SplitMix64 finalizer.
pub open spec fn spec_mix(x: u64) -> u64 {
    let z0 = vstd::wrapping::u64_specs::wrapping_add(x, 0x9E3779B97F4A7C15u64);
    let z1 = vstd::wrapping::u64_specs::wrapping_mul(z0 ^ (z0 >> 30u64), 0xBF58476D1CE4E5B9u64);
    let z2 = vstd::wrapping::u64_specs::wrapping_mul(z1 ^ (z1 >> 27u64), 0x94D049BB133111EBu64);
    z2 ^ (z2 >> 31u64)
}

/// Multiplying by an odd `c` modulo 2^64 is undone by multiplying by its
/// inverse `cinv` (`c * cinv == 1 + k * 2^64`).
proof fn lemma_wrapping_mul_cancel(z: u64, c: u64, cinv: u64, k: int)
    requires
        k >= 0,
        c as int * cinv as int == 1 + k * 0x1_0000_0000_0000_0000int,
    ensures
        (vstd::wrapping::u64_specs::wrapping_mul(z, c) as int * cinv as int) % 0x1_0000_0000_0000_0000int == z,
{
    let m: int = 0x1_0000_0000_0000_0000int;
    let zc: int = z as int * c as int;
    assert(vstd::wrapping::u64_specs::wrapping_mul(z, c) as int == zc % m);
    vstd::arithmetic::div_mod::lemma_mul_mod_noop_left(zc, cinv as int, m);
    vstd::arithmetic::mul::lemma_mul_is_associative(z as int, c as int, cinv as int);
    assert(z as int * (1 + k * m) == m * (z as int * k) + z as int) by (nonlinear_arith);
    vstd::arithmetic::div_mod::lemma_mod_multiples_vanish(z as int * k, z as int, m);
    vstd::arithmetic::div_mod::lemma_small_mod(z as nat, m as nat);
}

/// `wrapping_mul` by an odd constant is one to one.
proof fn lemma_wrapping_mul_injective(a: u64, b: u64, c: u64, cinv: u64, k: int)
    requires
        k >= 0,
        c as int * cinv as int == 1 + k * 0x1_0000_0000_0000_0000int,
        vstd::wrapping::u64_specs::wrapping_mul(a, c) == vstd::wrapping::u64_specs::wrapping_mul(b, c),
    ensures
        a == b,
{
    lemma_wrapping_mul_cancel(a, c, cinv, k);
    lemma_wrapping_mul_cancel(b, c, cinv, k);
}

/// `mix` is one to one: distinct inputs give distinct outputs. Each step
/// (adding a constant, xor with a right shift, multiplying by an odd
/// constant) can be undone.
pub proof fn lemma_mix_injective(a: u64, b: u64)
    requires
        spec_mix(a) == spec_mix(b),
    ensures
        a == b,
{
    let za0 = vstd::wrapping::u64_specs::wrapping_add(a, 0x9E3779B97F4A7C15u64);
    let zb0 = vstd::wrapping::u64_specs::wrapping_add(b, 0x9E3779B97F4A7C15u64);
    let xa0 = za0 ^ (za0 >> 30u64);
    let xb0 = zb0 ^ (zb0 >> 30u64);
    let za1 = vstd::wrapping::u64_specs::wrapping_mul(xa0, 0xBF58476D1CE4E5B9u64);
    let zb1 = vstd::wrapping::u64_specs::wrapping_mul(xb0, 0xBF58476D1CE4E5B9u64);
    let xa1 = za1 ^ (za1 >> 27u64);
    let xb1 = zb1 ^ (zb1 >> 27u64);
    let za2 = vstd::wrapping::u64_specs::wrapping_mul(xa1, 0x94D049BB133111EBu64);
    let zb2 = vstd::wrapping::u64_specs::wrapping_mul(xb1, 0x94D049BB133111EBu64);
    assert(za2 ^ (za2 >> 31u64) == zb2 ^ (zb2 >> 31u64));
    assert(za2 == zb2) by (bit_vector)
        requires
            za2 ^ (za2 >> 31u64) == zb2 ^ (zb2 >> 31u64),
    ;
    lemma_wrapping_mul_injective(xa1, xb1, 0x94D049BB133111EBu64, 0x319642b2d24d8ec3u64, 2077064247507883091);
    assert(za1 == zb1) by (bit_vector)
        requires
            za1 ^ (za1 >> 27u64) == zb1 ^ (zb1 >> 27u64),
    ;
    lemma_wrapping_mul_injective(xa0, xb0, 0xBF58476D1CE4E5B9u64, 0x96de1b173f119089u64, 8125545580553827436);
    assert(za0 == zb0) by (bit_vector)
        requires
            za0 ^ (za0 >> 30u64) == zb0 ^ (zb0 >> 30u64),
    ;
}

/// Mix function for tiny open-addressed maps and bucket indexing.
pub fn mix(x: u64) -> (r: u64)
    ensures
        r == spec_mix(x),
{
    let mut z = x.wrapping_add(0x9E3779B97F4A7C15);
    z = (z ^ (z >> 30)).wrapping_mul(0xBF58476D1CE4E5B9);
    z = (z ^ (z >> 27)).wrapping_mul(0x94D049BB133111EB);
    z ^ (z >> 31)
}

/// Compute the 64-bit hash of a key.
pub fn hash64<K: IndexKey>(k: &K) -> (h: u64)
    ensures
        h == key_hash(*k),
{
    let bytes = k.to_key_bytes();
    hash_bytes(bytes.as_slice())
}

/// Low 8 bits of hash used as fp8 bucket index.
pub fn fp8_from_hash(h: u64) -> (r: u8)
    ensures
        r as int == h as int % 256,
{
    assert((h & 0xFF) == h % 256) by (bit_vector);
    (h & 0xFF) as u8
}

/// Bits 8..24 of the hash: the tag for a fast in-bucket filter.
pub open spec fn spec_tag16(h: u64) -> u16 {
    ((h / 256) % 65536) as u16
}

/// Middle 16 bits used as tag for fast in-bucket filter.
pub fn tag16_from_hash(h: u64) -> (r: u16)
    ensures
        r == spec_tag16(h),
        r as int == (h as int / 256) % 65536,
{
    assert(((h >> 8) & 0xFFFF) == (h / 256) % 65536) by (bit_vector);
    ((h >> 8) & 0xFFFF) as u16
}

/// The low `n_bits` bits of a hash, as a bucket index.
pub open spec fn spec_fpn(h: u64, n_bits: u32) -> usize {
    (h as usize & (((1usize << n_bits) - 1) as usize)) as usize
}

/// Derive an fpN bucket index from the low `n_bits` of the hash.
pub fn fpn_from_hash(h: u64, n_bits: u32) -> (r: usize)
    requires
        n_bits < usize::BITS,
    ensures
        r == spec_fpn(h, n_bits),
        r < (1usize << n_bits),
        r == (h as usize) % (1usize << n_bits),
{
    assert(1usize << n_bits >= 1usize) by (bit_vector)
        requires n_bits < usize::BITS;
    let hu = h as usize;
    let r = hu & ((1usize << n_bits) - 1);
    assert((hu & (((1usize << n_bits) - 1) as usize)) < (1usize << n_bits)) by (bit_vector)
        requires n_bits < usize::BITS;
    proof {
        let n = n_bits as nat;
        vstd::bits::lemma_usize_pow2_no_overflow(n);
        vstd::bits::lemma_usize_shl_is_mul(1usize, n_bits as usize);
        assert((1usize << n_bits) == (1usize << (n_bits as usize)));
        vstd::bits::lemma_usize_low_bits_mask_is_mod(hu, n);
        assert(vstd::bits::low_bits_mask(n) as usize == ((1usize << n_bits) - 1) as usize);
    }
    r
}

/// Bits `n_bits..n_bits+16` of the hash.
pub open spec fn spec_tag16_disjoint(h: u64, n_bits: u32) -> u16 {
    ((h >> n_bits) & 0xFFFFu64) as u16
}

/// Derive a 16-bit tag from bits disjoint with the low `n_bits` used for fpN.
pub fn tag16_from_hash_disjoint(h: u64, n_bits: u32) -> (r: u16)
    requires
        n_bits < 64,
    ensures
        r == spec_tag16_disjoint(h, n_bits),
        r as u64 == (h >> n_bits) % 65536,
{
    assert(((h >> n_bits) & 0xFFFFu64) == (h >> n_bits) % 65536) by (bit_vector);
    ((h >> n_bits) & 0xFFFF) as u16
}

/// Bits `n_bits..n_bits+8` of the hash.
pub open spec fn spec_tag8_disjoint(h: u64, n_bits: u32) -> u8 {
    ((h >> n_bits) & 0xFFu64) as u8
}

/// Derive an 8-bit tag from bits disjoint with the low `n_bits` used for fpN.
pub fn tag8_from_hash_disjoint(h: u64, n_bits: u32) -> (r: u8)
    requires
        n_bits < 64,
    ensures
        r == spec_tag8_disjoint(h, n_bits),
        r as u64 == (h >> n_bits) % 256,
{
    assert(((h >> n_bits) & 0xFFu64) == (h >> n_bits) % 256) by (bit_vector);
    ((h >> n_bits) & 0xFF) as u8
}

/// Bits `bucket_bits+8 .. bucket_bits+8+slot_bits` of the hash.
pub open spec fn spec_preferred_slot(h: u64, bucket_bits: u32, slot_bits: u32) -> usize {
    ((h >> ((bucket_bits + 8) as u64)) & (((1u64 << slot_bits) - 1) as u64)) as usize
}

/// Derive preferred slot index from hash using bits disjoint with bucket_bits and tag bits.
/// Returns a slot index within [0, 2^slot_bits).
pub fn preferred_slot_from_hash(h: u64, bucket_bits: u32, slot_bits: u32) -> (r: usize)
    requires
        bucket_bits + 8 < 64,
        slot_bits < 64,
    ensures
        r == spec_preferred_slot(h, bucket_bits, slot_bits),
        r < (1u64 << slot_bits),
        r == ((h >> ((bucket_bits + 8) as u64)) % (1u64 << slot_bits)) as usize,
{
    let shift = bucket_bits + 8;
    assert(1u64 << slot_bits >= 1u64) by (bit_vector)
        requires slot_bits < 64u32;
    let m = (1u64 << slot_bits) - 1;
    let x = h >> shift;
    assert((x & (((1u64 << slot_bits) - 1) as u64)) < (1u64 << slot_bits)) by (bit_vector)
        requires slot_bits < 64u32;
    proof {
        let n = slot_bits as nat;
        vstd::bits::lemma_u64_pow2_no_overflow(n);
        vstd::bits::lemma_u64_shl_is_mul(1u64, slot_bits as u64);
        assert((1u64 << slot_bits) == (1u64 << (slot_bits as u64)));
        vstd::bits::lemma_u64_low_bits_mask_is_mod(x, n);
        assert(vstd::bits::low_bits_mask(n) as u64 == ((1u64 << slot_bits) - 1) as u64);
        assert(x == h >> ((bucket_bits + 8) as u64));
    }
    (x & m) as usize
}

} // verus!
