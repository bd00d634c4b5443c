//! Powers of two: rounding up to one, and masking by one less than one.
use vstd::prelude::*;
use vstd::arithmetic::power2::{pow2, lemma_pow2_unfold, lemma_pow2_strictly_increases};
use vstd::bits::{low_bits_mask, lemma_usize_low_bits_mask_is_mod, lemma_usize_pow2_no_overflow};

verus! {

/// `c` is a power of two that fits in a machine word.
pub open spec fn is_pow2(c: usize) -> bool {
    exists|k: nat| k < usize::BITS && c == pow2(k)
}

/// The smallest power of two that is at least `n` (1 for `n == 0`).
pub open spec fn is_next_pow2(n: usize, r: usize) -> bool {
    &&& is_pow2(r)
    &&& n <= r
    &&& (r == 1 || r / 2 < n)
}

/// For a power of two `c`, masking with `c - 1` is taking the remainder by `c`.
pub proof fn lemma_pow2_mask(c: usize)
    requires
        is_pow2(c),
    ensures
        c > 0,
        forall|x: usize| #[trigger] (x & ((c - 1) as usize)) == x % c,
{
    let k = choose|k: nat| k < usize::BITS && c == pow2(k);
    lemma_usize_pow2_no_overflow(k);
    assert forall|x: usize| #[trigger] (x & ((c - 1) as usize)) == x % c by {
        lemma_usize_low_bits_mask_is_mod(x, k);
    }
}

/// The smallest power of two greater than or equal to `n`.
///
/// Requires the result to fit in a machine word, as `usize::next_power_of_two`
/// does in debug builds.
pub fn next_power_of_two(n: usize) -> (r: usize)
    requires
        n <= usize::MAX / 2 + 1,
    ensures
        is_next_pow2(n, r),
{
    let mut r: usize = 1;
    let ghost mut k: nat = 0;
    proof {
        vstd::arithmetic::power2::lemma2_to64();
        lemma_top_pow2();
    }
    while r < n
        invariant
            k < usize::BITS,
            r == pow2(k),
            r >= 1,
            n <= pow2((usize::BITS - 1) as nat),
            r == 1 || r / 2 < n,
        decreases usize::BITS - k,
    {
        proof {
            if k + 1 >= usize::BITS {
                assert(k == usize::BITS - 1);
            }
            lemma_pow2_unfold(k + 1);
            lemma_usize_pow2_no_overflow(k + 1);
        }
        r = r * 2;
        proof {
            k = k + 1;
        }
    }
    r
}

/// Bound on a power of two that is at most `m`.
pub proof fn lemma_pow2_le(k: nat, j: nat)
    requires
        k <= j,
    ensures
        pow2(k) <= pow2(j),
{
    if k < j {
        lemma_pow2_strictly_increases(k, j);
    }
}

/// A power of two that fits in a word is at most half the word's range.
pub proof fn lemma_pow2_half_word(c: usize)
    requires
        is_pow2(c),
    ensures
        2 * c <= usize::MAX + 1,
{
    let k = choose|k: nat| k < usize::BITS && c == pow2(k);
    lemma_pow2_le(k, (usize::BITS - 1) as nat);
    lemma_pow2_unfold(usize::BITS as nat);
    vstd::arithmetic::power2::lemma2_to64();
    assert(usize::BITS == 32 || usize::BITS == 64);
}

/// The largest power of two in a word is half the word's range.
pub proof fn lemma_top_pow2()
    ensures
        pow2((usize::BITS - 1) as nat) == usize::MAX / 2 + 1,
{
    vstd::arithmetic::power2::lemma2_to64();
    vstd::arithmetic::power2::lemma2_to64_rest();
    assert(usize::BITS == 32 || usize::BITS == 64);
}

/// The only power of two in `n..2n`, for a power of two `n`, is `n`.
pub proof fn lemma_pow2_unique_between(c: usize, n: usize)
    requires
        is_pow2(c),
        is_pow2(n),
        n <= c,
        c / 2 < n,
    ensures
        c == n,
{
    let kc = choose|k: nat| k < usize::BITS && c == pow2(k);
    let kn = choose|k: nat| k < usize::BITS && n == pow2(k);
    if kc > kn {
        lemma_pow2_le(kn + 1, kc);
        lemma_pow2_unfold(kn + 1);
    } else if kc < kn {
        lemma_pow2_strictly_increases(kc, kn);
    }
}

/// Two is a power of two.
pub proof fn lemma_two_is_pow2()
    ensures
        is_pow2(2),
{
    vstd::arithmetic::power2::lemma2_to64();
    assert(2usize == pow2(1));
}

} // verus!
