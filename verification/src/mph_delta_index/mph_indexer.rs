//! Minimal perfect hash indexer built by BBHash-style multi-level peeling.
//!
//! Each level hashes the keys that are still unplaced into `m` bins with a
//! level seed; keys alone in their bin are placed there, the rest go on to
//! the next level. The bins that hold exactly one key, over all levels in
//! order, are then numbered densely `0..n`.
use vstd::prelude::*;
use vstd::set_lib::{set_int_range, lemma_int_range, lemma_len_subset, lemma_subset_equality};
use core::marker::PhantomData;
use crate::ids::IndexKey;
use crate::mph_delta_index::util::{ahash_salted, hash_bytes_salted};

verus! {

/// Bound on the retries of one level with a fresh seed: a level is retried
/// until some key lands alone in its bin, and the bound is the range of the
/// retry counter, which only keeps the construction finite.
pub const MAX_RESEEDS: usize = usize::MAX;

/// Seed of the first level.
pub const INITIAL_SALT: u64 = 0x9E37_79B9_7F4A_7C15;

// ---------------------------------------------------------------------------
// Bitsets
// ---------------------------------------------------------------------------

/// Bit `b` of a word-packed bitset.
pub open spec fn bit_of(words: Seq<u64>, b: int) -> bool {
    (words[b / 64] >> ((b % 64) as u64)) & 1u64 == 1u64
}

/// Number of 64-bit words needed for `len_bits` bits.
pub open spec fn words_for(len_bits: nat) -> nat {
    (len_bits + 63) / 64
}

proof fn lemma_bit_or(x: u64, o: u64, o2: u64)
    requires
        o < 64,
        o2 < 64,
    ensures
        ((x | (1u64 << o)) >> o2) & 1u64 == (if o == o2 { 1u64 } else { (x >> o2) & 1u64 }),
{
    assert(((x | (1u64 << o)) >> o2) & 1u64 == (if o == o2 { 1u64 } else { (x >> o2) & 1u64 }))
        by (bit_vector)
        requires
            o < 64,
            o2 < 64,
    ;
}

proof fn lemma_bit_and_not(x: u64, o: u64, o2: u64)
    requires
        o < 64,
        o2 < 64,
    ensures
        ((x & !(1u64 << o)) >> o2) & 1u64 == (if o == o2 { 0u64 } else { (x >> o2) & 1u64 }),
{
    assert(((x & !(1u64 << o)) >> o2) & 1u64 == (if o == o2 { 0u64 } else { (x >> o2) & 1u64 }))
        by (bit_vector)
        requires
            o < 64,
            o2 < 64,
    ;
}

proof fn lemma_bit_zero(o: u64)
    ensures
        (0u64 >> o) & 1u64 == 0u64,
{
    assert((0u64 >> o) & 1u64 == 0u64) by (bit_vector);
}

/// A zeroed bitset with room for `len_bits` bits.
pub(crate) fn bitset(len_bits: usize) -> (r: Vec<u64>)
    ensures
        r@.len() == words_for(len_bits as nat),
        forall|b: int| 0 <= b < len_bits ==> !bit_of(r@, b),
{
    let nwords = len_bits / 64 + if len_bits % 64 != 0 { 1usize } else { 0usize };
    let mut v: Vec<u64> = Vec::new();
    let mut i: usize = 0;
    while i < nwords
        invariant
            0 <= i <= nwords,
            v@.len() == i,
            forall|j: int| 0 <= j < i ==> v@[j] == 0u64,
        decreases nwords - i,
    {
        v.push(0u64);
        i = i + 1;
    }
    assert forall|b: int| 0 <= b < len_bits implies !bit_of(v@, b) by {
        lemma_bit_zero((b % 64) as u64);
    }
    v
}

/// Set bit `idx`.
pub(crate) fn bs_set(bs: &mut Vec<u64>, idx: usize)
    requires
        idx / 64 < old(bs)@.len(),
    ensures
        final(bs)@.len() == old(bs)@.len(),
        bit_of(final(bs)@, idx as int),
        forall|j: int| 0 <= j < old(bs)@.len() * 64 && j != idx ==> bit_of(final(bs)@, j) == bit_of(old(bs)@, j),
{
    let w = idx / 64;
    let o = (idx % 64) as u64;
    let x = bs[w];
    bs.set(w, x | (1u64 << o));
    proof {
        assert forall|j: int| 0 <= j < old(bs)@.len() * 64 && j != idx implies bit_of(bs@, j) == bit_of(old(bs)@, j) by {
            if j / 64 == w as int {
                lemma_bit_or(x, o, (j % 64) as u64);
            }
        }
        lemma_bit_or(x, o, o);
    }
}

/// Clear bit `idx`.
fn bs_clear(bs: &mut Vec<u64>, idx: usize)
    requires
        idx / 64 < old(bs)@.len(),
    ensures
        final(bs)@.len() == old(bs)@.len(),
        !bit_of(final(bs)@, idx as int),
        forall|j: int| 0 <= j < old(bs)@.len() * 64 && j != idx ==> bit_of(final(bs)@, j) == bit_of(old(bs)@, j),
{
    let w = idx / 64;
    let o = (idx % 64) as u64;
    let x = bs[w];
    bs.set(w, x & !(1u64 << o));
    proof {
        assert forall|j: int| 0 <= j < old(bs)@.len() * 64 && j != idx implies bit_of(bs@, j) == bit_of(old(bs)@, j) by {
            if j / 64 == w as int {
                lemma_bit_and_not(x, o, (j % 64) as u64);
            }
        }
        lemma_bit_and_not(x, o, o);
    }
}

/// Read bit `idx`.
pub(crate) fn bs_get(bs: &[u64], idx: usize) -> (r: bool)
    requires
        idx / 64 < bs@.len(),
    ensures
        r == bit_of(bs@, idx as int),
{
    let w = idx / 64;
    let o = (idx % 64) as u64;
    (bs[w] >> o) & 1u64 == 1u64
}


// ---------------------------------------------------------------------------
// Binning of the unplaced keys of one level
// ---------------------------------------------------------------------------

/// The byte encodings of a sequence of keys.
pub open spec fn key_seq<K: IndexKey>(keys: Seq<K>) -> Seq<Seq<u8>> {
    keys.map_values(|k: K| k.key_bytes())
}

/// The bin of a key among `m` bins for a level seeded with `salt`.
pub open spec fn key_bin(kb: Seq<u8>, salt: u64, m: nat) -> int {
    ((ahash_salted(salt, kb) as usize) as int) % (m as int)
}

/// How many of the keys `rem` (indices into `ks`) fall into bin `b`.
pub open spec fn bin_count(ks: Seq<Seq<u8>>, rem: Seq<usize>, salt: u64, m: nat, b: int) -> nat
    decreases rem.len(),
{
    if rem.len() == 0 {
        0
    } else {
        bin_count(ks, rem.drop_last(), salt, m, b) + if key_bin(ks[rem.last() as int], salt, m) == b {
            1nat
        } else {
            0nat
        }
    }
}

/// Whether key `ix` is alone in its bin among the keys `rem`.
pub open spec fn is_single(ks: Seq<Seq<u8>>, rem: Seq<usize>, salt: u64, m: nat, ix: usize) -> bool {
    bin_count(ks, rem, salt, m, key_bin(ks[ix as int], salt, m)) == 1
}

/// The keys among the first `upto` of `rem` that are not alone in their bin,
/// in order: they go on to the next level.
pub open spec fn survivors(ks: Seq<Seq<u8>>, rem: Seq<usize>, salt: u64, m: nat, upto: nat) -> Seq<usize>
    decreases upto,
{
    if upto == 0 {
        Seq::empty()
    } else {
        let prev = survivors(ks, rem, salt, m, (upto - 1) as nat);
        let ix = rem[upto - 1];
        if is_single(ks, rem, salt, m, ix) {
            prev
        } else {
            prev.push(ix)
        }
    }
}

/// How many of the first `upto` keys of `rem` are alone in their bin.
pub open spec fn single_count(ks: Seq<Seq<u8>>, rem: Seq<usize>, salt: u64, m: nat, upto: nat) -> nat
    decreases upto,
{
    if upto == 0 {
        0
    } else {
        single_count(ks, rem, salt, m, (upto - 1) as nat) + if is_single(ks, rem, salt, m, rem[upto - 1]) {
            1nat
        } else {
            0nat
        }
    }
}

proof fn lemma_bin_count_push(ks: Seq<Seq<u8>>, rem: Seq<usize>, x: usize, salt: u64, m: nat, b: int)
    ensures
        bin_count(ks, rem.push(x), salt, m, b) == bin_count(ks, rem, salt, m, b) + if key_bin(ks[x as int], salt, m) == b {
            1nat
        } else {
            0nat
        },
{
    assert(rem.push(x).drop_last() =~= rem);
}

proof fn lemma_bin_count_take(ks: Seq<Seq<u8>>, rem: Seq<usize>, i: int, salt: u64, m: nat, b: int)
    requires
        0 <= i < rem.len(),
    ensures
        bin_count(ks, rem.take(i + 1), salt, m, b) == bin_count(ks, rem.take(i), salt, m, b) + if key_bin(ks[rem[i] as int], salt, m) == b {
            1nat
        } else {
            0nat
        },
{
    assert(rem.take(i + 1) =~= rem.take(i).push(rem[i]));
    lemma_bin_count_push(ks, rem.take(i), rem[i], salt, m, b);
}

proof fn lemma_bin_count_exists(ks: Seq<Seq<u8>>, rem: Seq<usize>, salt: u64, m: nat, b: int) -> (j: int)
    requires
        bin_count(ks, rem, salt, m, b) > 0,
    ensures
        0 <= j < rem.len(),
        key_bin(ks[rem[j] as int], salt, m) == b,
    decreases rem.len(),
{
    if key_bin(ks[rem.last() as int], salt, m) == b {
        (rem.len() - 1) as int
    } else {
        let j = lemma_bin_count_exists(ks, rem.drop_last(), salt, m, b);
        j
    }
}

proof fn lemma_bin_count_pos(ks: Seq<Seq<u8>>, rem: Seq<usize>, salt: u64, m: nat, j: int)
    requires
        0 <= j < rem.len(),
    ensures
        bin_count(ks, rem, salt, m, key_bin(ks[rem[j] as int], salt, m)) >= 1,
    decreases rem.len(),
{
    if j < rem.len() - 1 {
        lemma_bin_count_pos(ks, rem.drop_last(), salt, m, j);
    }
}

proof fn lemma_bin_count_two(ks: Seq<Seq<u8>>, rem: Seq<usize>, salt: u64, m: nat, j1: int, j2: int)
    requires
        0 <= j1 < j2 < rem.len(),
        key_bin(ks[rem[j1] as int], salt, m) == key_bin(ks[rem[j2] as int], salt, m),
    ensures
        bin_count(ks, rem, salt, m, key_bin(ks[rem[j1] as int], salt, m)) >= 2,
    decreases rem.len(),
{
    if j2 < rem.len() - 1 {
        lemma_bin_count_two(ks, rem.drop_last(), salt, m, j1, j2);
    } else {
        lemma_bin_count_pos(ks, rem.drop_last(), salt, m, j1);
    }
}

pub proof fn lemma_survivors(ks: Seq<Seq<u8>>, rem: Seq<usize>, salt: u64, m: nat, upto: nat)
    requires
        upto <= rem.len(),
    ensures
        survivors(ks, rem, salt, m, upto).len() + single_count(ks, rem, salt, m, upto) == upto,
        forall|x: usize| survivors(ks, rem, salt, m, upto).contains(x) <==> (rem.take(upto as int).contains(x) && !is_single(ks, rem, salt, m, x)),
        rem.no_duplicates() ==> survivors(ks, rem, salt, m, upto).no_duplicates(),
        single_count(ks, rem, salt, m, upto) > 0 ==> exists|j: int| 0 <= j < upto && #[trigger] is_single(ks, rem, salt, m, rem[j]),
    decreases upto,
{
    if upto > 0 {
        let u1 = (upto - 1) as nat;
        lemma_survivors(ks, rem, salt, m, u1);
        assert(rem.take(upto as int) =~= rem.take(u1 as int).push(rem[u1 as int]));
        let prev = survivors(ks, rem, salt, m, u1);
        let ix = rem[u1 as int];
        assert forall|x: usize| survivors(ks, rem, salt, m, upto).contains(x) <==> (rem.take(upto as int).contains(x) && !is_single(ks, rem, salt, m, x)) by {
            if !is_single(ks, rem, salt, m, ix) {
                assert(prev.push(ix).contains(x) <==> (prev.contains(x) || x == ix)) by {
                    if prev.push(ix).contains(x) {
                        let k = choose|k: int| 0 <= k < prev.push(ix).len() && prev.push(ix)[k] == x;
                        if k < prev.len() {
                            assert(prev[k] == x);
                        }
                    }
                    if x == ix {
                        assert(prev.push(ix)[prev.len() as int] == x);
                    }
                    if prev.contains(x) {
                        let k = choose|k: int| 0 <= k < prev.len() && prev[k] == x;
                        assert(prev.push(ix)[k] == x);
                    }
                }
            }
            if rem.take(upto as int).contains(x) {
                let k = choose|k: int| 0 <= k < upto && rem.take(upto as int)[k] == x;
                if k < u1 {
                    assert(rem.take(u1 as int)[k] == x);
                }
            }
            if rem.take(u1 as int).contains(x) {
                let k = choose|k: int| 0 <= k < u1 && rem.take(u1 as int)[k] == x;
                assert(rem.take(upto as int)[k] == x);
            }
            assert(rem.take(upto as int)[u1 as int] == ix);
        }
        if rem.no_duplicates() && !is_single(ks, rem, salt, m, ix) {
            assert(!rem.take(u1 as int).contains(ix)) by {
                if rem.take(u1 as int).contains(ix) {
                    let k = choose|k: int| 0 <= k < u1 && rem.take(u1 as int)[k] == ix;
                    assert(rem[k] == rem[u1 as int]);
                }
            }
            assert(!prev.contains(ix));
            assert forall|a: int, c: int| 0 <= a < c < prev.push(ix).len() implies prev.push(ix)[a] != prev.push(ix)[c] by {
                if c == prev.len() {
                    assert(prev.contains(prev[a]));
                }
            }
        }
    }
}

/// Bin of a key as computed at run time.
fn key_bin_exec<K: IndexKey>(key: &K, salt: u64, m: usize) -> (b: usize)
    requires
        m > 0,
    ensures
        b as int == key_bin(key.key_bytes(), salt, m as nat),
        b < m,
{
    let bytes = key.to_key_bytes();
    let h = hash_bytes_salted(salt, bytes.as_slice());
    (h as usize) % m
}

/// Mark, for one level, which of the `m` bins are hit by exactly one of the
/// keys `remaining` (first hit sets `occ` and `uniq`, a second clears `uniq`).
fn mark_unique_bins<K: IndexKey>(keys: &[K], remaining: &Vec<usize>, salt: u64, m: usize) -> (uniq: Vec<u64>)
    requires
        m > 0,
        forall|j: int| 0 <= j < remaining@.len() ==> remaining@[j] < keys@.len(),
    ensures
        uniq@.len() == words_for(m as nat),
        forall|b: int| 0 <= b < m ==> (bit_of(uniq@, b) <==> bin_count(key_seq(keys@), remaining@, salt, m as nat, b) == 1),
{
    let ghost ks = key_seq(keys@);
    let mut occ = bitset(m);
    let mut uniq = bitset(m);
    let mut i: usize = 0;
    while i < remaining.len()
        invariant
            m > 0,
            ks == key_seq(keys@),
            forall|j: int| 0 <= j < remaining@.len() ==> remaining@[j] < keys@.len(),
            0 <= i <= remaining@.len(),
            occ@.len() == words_for(m as nat),
            uniq@.len() == words_for(m as nat),
            forall|b: int| 0 <= b < m ==> (bit_of(occ@, b) <==> bin_count(ks, remaining@.take(i as int), salt, m as nat, b) >= 1),
            forall|b: int| 0 <= b < m ==> (bit_of(uniq@, b) <==> bin_count(ks, remaining@.take(i as int), salt, m as nat, b) == 1),
        decreases remaining@.len() - i,
    {
        let ix = remaining[i];
        let b = key_bin_exec(&keys[ix], salt, m);
        proof {
            assert(ks[ix as int] == keys@[ix as int].key_bytes());
            assert forall|c: int| 0 <= c < m implies bin_count(ks, remaining@.take(i + 1), salt, m as nat, c)
                == bin_count(ks, remaining@.take(i as int), salt, m as nat, c) + if c == b { 1nat } else { 0nat } by {
                lemma_bin_count_take(ks, remaining@, i as int, salt, m as nat, c);
            }
        }
        if !bs_get(&occ, b) {
            bs_set(&mut occ, b);
            bs_set(&mut uniq, b);
        } else {
            bs_clear(&mut uniq, b);
        }
        i = i + 1;
    }
    assert(remaining@.take(remaining@.len() as int) =~= remaining@);
    uniq
}

/// How many of the keys `remaining` are alone in their bin.
fn count_singles<K: IndexKey>(keys: &[K], remaining: &Vec<usize>, uniq: &Vec<u64>, salt: u64, m: usize) -> (r: usize)
    requires
        m > 0,
        forall|j: int| 0 <= j < remaining@.len() ==> remaining@[j] < keys@.len(),
        uniq@.len() == words_for(m as nat),
        forall|b: int| 0 <= b < m ==> (bit_of(uniq@, b) <==> bin_count(key_seq(keys@), remaining@, salt, m as nat, b) == 1),
    ensures
        r == single_count(key_seq(keys@), remaining@, salt, m as nat, remaining@.len()),
{
    let ghost ks = key_seq(keys@);
    let mut count: usize = 0;
    let mut i: usize = 0;
    while i < remaining.len()
        invariant
            m > 0,
            ks == key_seq(keys@),
            forall|j: int| 0 <= j < remaining@.len() ==> remaining@[j] < keys@.len(),
            uniq@.len() == words_for(m as nat),
            forall|b: int| 0 <= b < m ==> (bit_of(uniq@, b) <==> bin_count(ks, remaining@, salt, m as nat, b) == 1),
            0 <= i <= remaining@.len(),
            count == single_count(ks, remaining@, salt, m as nat, i as nat),
            count <= i,
        decreases remaining@.len() - i,
    {
        let ix = remaining[i];
        let b = key_bin_exec(&keys[ix], salt, m);
        proof {
            assert(ks[ix as int] == keys@[ix as int].key_bytes());
        }
        if bs_get(uniq, b) {
            count = count + 1;
        }
        i = i + 1;
    }
    count
}

/// The keys of `remaining` that are not alone in their bin, in order.
fn next_remaining<K: IndexKey>(keys: &[K], remaining: &Vec<usize>, uniq: &Vec<u64>, salt: u64, m: usize) -> (next: Vec<usize>)
    requires
        m > 0,
        forall|j: int| 0 <= j < remaining@.len() ==> remaining@[j] < keys@.len(),
        uniq@.len() == words_for(m as nat),
        forall|b: int| 0 <= b < m ==> (bit_of(uniq@, b) <==> bin_count(key_seq(keys@), remaining@, salt, m as nat, b) == 1),
    ensures
        next@ == survivors(key_seq(keys@), remaining@, salt, m as nat, remaining@.len()),
{
    let ghost ks = key_seq(keys@);
    let mut next: Vec<usize> = Vec::new();
    let mut i: usize = 0;
    while i < remaining.len()
        invariant
            m > 0,
            ks == key_seq(keys@),
            forall|j: int| 0 <= j < remaining@.len() ==> remaining@[j] < keys@.len(),
            uniq@.len() == words_for(m as nat),
            forall|b: int| 0 <= b < m ==> (bit_of(uniq@, b) <==> bin_count(ks, remaining@, salt, m as nat, b) == 1),
            0 <= i <= remaining@.len(),
            next@ == survivors(ks, remaining@, salt, m as nat, i as nat),
        decreases remaining@.len() - i,
    {
        let ix = remaining[i];
        let b = key_bin_exec(&keys[ix], salt, m);
        proof {
            assert(ks[ix as int] == keys@[ix as int].key_bytes());
        }
        if !bs_get(uniq, b) {
            next.push(ix);
        }
        i = i + 1;
    }
    next
}


// ---------------------------------------------------------------------------
// Construction
// ---------------------------------------------------------------------------

/// BBHash configuration. The oversizing factor per level is the fraction
/// `gamma_num / gamma_den` (at least one; typically between 1.1 and 2.0).
#[derive(Clone, Copy, Debug)]
pub struct BbhConfig {
    /// Numerator of the oversizing factor.
    pub gamma_num: usize,
    /// Denominator of the oversizing factor.
    pub gamma_den: usize,
    /// Maximum number of levels (safety valve).
    pub max_levels: usize,
}

impl BbhConfig {
    /// Whether the oversizing factor is at least one and well defined.
    pub open spec fn valid(self) -> bool {
        0 < self.gamma_den <= self.gamma_num
    }
}

impl Default for BbhConfig {
    /// Oversizing factor 1.3, at most 32 levels.
    fn default() -> (r: Self)
        ensures
            r.gamma_num == 13 && r.gamma_den == 10 && r.max_levels == 32,
    {
        BbhConfig { gamma_num: 13, gamma_den: 10, max_levels: 32 }
    }
}

/// One level of the construction.
#[derive(Clone, Debug)]
struct Level {
    /// Seed of the level's hash.
    seed: u64,
    /// Bins in this level.
    m: usize,
    /// Offset of the level's bins in the concatenation of all levels.
    off: usize,
    /// Bitset of the bins hit by exactly one key of the level.
    uniq: Vec<u64>,
}

/// Number of bins of a level that starts with `len` unplaced keys: `ceil(len * gamma)`.
pub open spec fn level_bins(len: nat, cfg: BbhConfig) -> int {
    (len * cfg.gamma_num + cfg.gamma_den - 1) / (cfg.gamma_den as int)
}

/// Seed used to retry a level whose bins held no lone key.
pub open spec fn reseed(s: u64) -> u64 {
    ((s << 17u64) | (s >> 47u64)) ^ 0xD1B5_4A32_D192_ED03u64
}

/// Seed of the level after one that placed keys.
pub open spec fn next_seed(s: u64) -> u64 {
    ((s << 21u64) | (s >> 43u64)) ^ 0xA24B_1C66_3CF1_357Du64
}

/// Whether the construction, from the state where the keys `rem` are still
/// unplaced, `nlev` levels exist, their bins take `off` places, the next level
/// is seeded with `salt` and has been retried `reseeds` times, completes.
/// It fails when a level has no lone key and the level or retry budget is
/// spent, or when the bin counts do not fit in a machine word.
pub open spec fn bbh_run_ok(
    ks: Seq<Seq<u8>>,
    cfg: BbhConfig,
    rem: Seq<usize>,
    nlev: nat,
    off: nat,
    salt: u64,
    reseeds: nat,
) -> bool
    decreases rem.len(), MAX_RESEEDS - reseeds,
{
    if rem.len() == 0 {
        true
    } else if rem.len() * cfg.gamma_num + cfg.gamma_den - 1 > usize::MAX {
        false
    } else {
        let m = level_bins(rem.len(), cfg) as nat;
        if off + m > usize::MAX {
            false
        } else if single_count(ks, rem, salt, m, rem.len()) == 0 {
            if nlev >= cfg.max_levels || reseeds >= MAX_RESEEDS {
                false
            } else {
                bbh_run_ok(ks, cfg, rem, nlev, off, reseed(salt), reseeds + 1)
            }
        } else {
            proof {
                lemma_survivors(ks, rem, salt, m, rem.len());
            }
            bbh_run_ok(ks, cfg, survivors(ks, rem, salt, m, rem.len()), nlev + 1, off + m, next_seed(salt), 0)
        }
    }
}

/// The indices `0..n`.
pub open spec fn index_range(n: nat) -> Seq<usize> {
    Seq::new(n, |i: int| i as usize)
}

/// Whether building over the key encodings `ks` with `cfg` completes.
pub open spec fn bbh_build_ok(ks: Seq<Seq<u8>>, cfg: BbhConfig) -> bool {
    bbh_run_ok(ks, cfg, index_range(ks.len()), 0, 0, INITIAL_SALT, 0)
}

/// A single key always builds: it is alone in its bin on the first level.
pub proof fn lemma_single_key_build_ok(kb: Seq<u8>, cfg: BbhConfig)
    requires
        cfg.valid(),
        cfg.gamma_num + cfg.gamma_den <= usize::MAX,
    ensures
        bbh_build_ok(seq![kb], cfg),
{
    let ks = seq![kb];
    let rem = index_range(1);
    let m = level_bins(1, cfg) as nat;
    assert(m >= 1) by {
        assert(cfg.gamma_num + cfg.gamma_den - 1 >= cfg.gamma_den);
        vstd::arithmetic::div_mod::lemma_div_is_ordered(cfg.gamma_den as int, (cfg.gamma_num + cfg.gamma_den - 1) as int, cfg.gamma_den as int);
        vstd::arithmetic::div_mod::lemma_div_by_self(cfg.gamma_den as int);
    }
    assert(m <= usize::MAX) by {
        vstd::arithmetic::div_mod::lemma_div_is_ordered_by_denominator((cfg.gamma_num + cfg.gamma_den - 1) as int, 1, cfg.gamma_den as int);
    }
    let salt = INITIAL_SALT;
    assert(rem.drop_last() =~= Seq::<usize>::empty());
    assert(rem[0] == 0);
    let b = key_bin(ks[0], salt, m);
    assert(bin_count(ks, rem.drop_last(), salt, m, b) == 0);
    assert(rem.last() == 0usize);
    assert(ks[rem.last() as int] == kb);
    assert(bin_count(ks, rem, salt, m, b) == 1);
    assert(is_single(ks, rem, salt, m, rem[0]));
    assert(single_count(ks, rem, salt, m, 0) == 0);
    assert(single_count(ks, rem, salt, m, 1) == 1);
    lemma_survivors(ks, rem, salt, m, 1);
    assert(survivors(ks, rem, salt, m, 1).len() == 0);
    let rest = survivors(ks, rem, salt, m, rem.len());
    assert(rest.len() == 0);
    assert(bbh_run_ok(ks, cfg, rest, 1, m, next_seed(salt), 0));
}

/// The levels that the construction builds from the state described at
/// [`bbh_run_ok`], in order: each level's seed, its number of bins, and the
/// keys (indices into `ks`) still unplaced when it is built.
pub open spec fn bbh_plan(
    ks: Seq<Seq<u8>>,
    cfg: BbhConfig,
    rem: Seq<usize>,
    nlev: nat,
    off: nat,
    salt: u64,
    reseeds: nat,
) -> Seq<(u64, nat, Seq<usize>)>
    decreases rem.len(), MAX_RESEEDS - reseeds,
{
    if rem.len() == 0 {
        Seq::empty()
    } else if rem.len() * cfg.gamma_num + cfg.gamma_den - 1 > usize::MAX {
        Seq::empty()
    } else {
        let m = level_bins(rem.len(), cfg) as nat;
        if off + m > usize::MAX {
            Seq::empty()
        } else if single_count(ks, rem, salt, m, rem.len()) == 0 {
            if nlev >= cfg.max_levels || reseeds >= MAX_RESEEDS {
                Seq::empty()
            } else {
                bbh_plan(ks, cfg, rem, nlev, off, reseed(salt), reseeds + 1)
            }
        } else {
            proof {
                lemma_survivors(ks, rem, salt, m, rem.len());
            }
            seq![(salt, m, rem)] + bbh_plan(
                ks,
                cfg,
                survivors(ks, rem, salt, m, rem.len()),
                nlev + 1,
                off + m,
                next_seed(salt),
                0,
            )
        }
    }
}

/// The levels of the construction over the key encodings `ks` with `cfg`.
pub open spec fn bbh_levels(ks: Seq<Seq<u8>>, cfg: BbhConfig) -> Seq<(u64, nat, Seq<usize>)> {
    bbh_plan(ks, cfg, index_range(ks.len()), 0, 0, INITIAL_SALT, 0)
}

/// Whether bin `b` of planned level `l` holds exactly one key.
pub open spec fn plan_uniq(ks: Seq<Seq<u8>>, plan: Seq<(u64, nat, Seq<usize>)>, l: int, b: int) -> bool {
    bin_count(ks, plan[l].2, plan[l].0, plan[l].1, b) == 1
}

/// How many of `0 .. upto` satisfy `f`.
pub open spec fn count_upto(f: spec_fn(int) -> bool, upto: nat) -> nat
    decreases upto,
{
    if upto == 0 {
        0
    } else {
        count_upto(f, (upto - 1) as nat) + if f(upto - 1) {
            1nat
        } else {
            0nat
        }
    }
}

/// `g(0) + .. + g(l - 1)`.
pub open spec fn sum_upto(g: spec_fn(int) -> nat, l: nat) -> nat
    decreases l,
{
    if l == 0 {
        0
    } else {
        sum_upto(g, (l - 1) as nat) + g(l - 1)
    }
}

/// The number given to bin `b` of planned level `l`: how many bins that hold
/// exactly one key come before it, level by level and bin by bin.
pub open spec fn plan_rank(ks: Seq<Seq<u8>>, plan: Seq<(u64, nat, Seq<usize>)>, l: int, b: int) -> nat {
    sum_upto(|l2: int| count_upto(|c: int| plan_uniq(ks, plan, l2, c), plan[l2].1), l as nat)
        + count_upto(|c: int| plan_uniq(ks, plan, l, c), b as nat)
}

/// Slot of key encoding `kb` under the planned levels, looking from level
/// `i` on: the first level whose bin for the key holds exactly one key gives
/// that bin's number; past the last level, the key's hash under the last
/// seed modulo `n`.
pub open spec fn plan_eval(ks: Seq<Seq<u8>>, plan: Seq<(u64, nat, Seq<usize>)>, n: nat, kb: Seq<u8>, i: nat) -> int
    decreases plan.len() - i,
{
    if i >= plan.len() {
        if plan.len() == 0 {
            0
        } else {
            ((ahash_salted(plan.last().0, kb) as usize) as int) % (n as int)
        }
    } else if plan_uniq(ks, plan, i as int, key_bin(kb, plan[i as int].0, plan[i as int].1)) {
        plan_rank(ks, plan, i as int, key_bin(kb, plan[i as int].0, plan[i as int].1)) as int
    } else {
        plan_eval(ks, plan, n, kb, i + 1)
    }
}

/// The slot that the indexer built over the key encodings `ks` with `cfg`
/// gives the key encoding `kb`.
pub open spec fn bbh_slot(ks: Seq<Seq<u8>>, cfg: BbhConfig, kb: Seq<u8>) -> int {
    plan_eval(ks, bbh_levels(ks, cfg), ks.len(), kb, 0)
}

/// Levels laid out one after another within `total` bins.
spec fn levels_wf(levels: Seq<Level>, total: nat) -> bool {
    &&& forall|l: int| 0 <= l < levels.len() ==> {
        &&& #[trigger] levels[l].m > 0
        &&& levels[l].uniq@.len() == words_for(levels[l].m as nat)
        &&& levels[l].off + levels[l].m <= total
    }
    &&& forall|l1: int, l2: int| 0 <= l1 < l2 < levels.len() ==> #[trigger] levels[l1].off + levels[l1].m <= #[trigger] levels[l2].off
}

/// Bin of key encoding `kb` at level `l`.
spec fn level_bin(levels: Seq<Level>, l: int, kb: Seq<u8>) -> int {
    key_bin(kb, levels[l].seed, levels[l].m as nat)
}

/// Whether bin `b` of level `l` holds exactly one key.
spec fn level_uniq(levels: Seq<Level>, l: int, b: int) -> bool {
    bit_of(levels[l].uniq@, b)
}

/// Facts about the keys placed so far: `placed[ix] == (l, b)` when key `ix`
/// was placed alone in bin `b` of level `l`.
spec fn placement_inv(ks: Seq<Seq<u8>>, levels: Seq<Level>, placed: Map<int, (int, int)>) -> bool {
    &&& forall|ix: int| #[trigger] placed.contains_key(ix) ==> {
        &&& 0 <= ix < ks.len()
        &&& 0 <= placed[ix].0 < levels.len()
        &&& placed[ix].1 == level_bin(levels, placed[ix].0, ks[ix])
        &&& level_uniq(levels, placed[ix].0, placed[ix].1)
    }
    &&& forall|l: int, b: int| 0 <= l < levels.len() && 0 <= b < levels[l].m && #[trigger] level_uniq(levels, l, b)
        ==> exists|ix: int| #[trigger] placed.contains_key(ix) && placed[ix] == (l, b)
    &&& forall|i1: int, i2: int| #[trigger] placed.contains_key(i1) && #[trigger] placed.contains_key(i2) && i1 != i2
        ==> placed[i1] != placed[i2]
    &&& forall|ix: int, l: int| 0 <= ix < ks.len() && 0 <= l < (if placed.contains_key(ix) { placed[ix].0 } else { levels.len() as int })
        ==> !#[trigger] level_uniq(levels, l, level_bin(levels, l, ks[ix]))
}

/// The built levels are the planned ones: same seeds and bin counts, and a
/// bin holds exactly one key in both or in neither.
spec fn levels_match(levels: Seq<Level>, ks: Seq<Seq<u8>>, plan: Seq<(u64, nat, Seq<usize>)>) -> bool {
    &&& levels.len() == plan.len()
    &&& forall|l: int| 0 <= l < levels.len() ==> (#[trigger] levels[l]).seed == plan[l].0 && levels[l].m == plan[l].1
    &&& forall|l: int, b: int| 0 <= l < levels.len() && 0 <= b < levels[l].m
        ==> (#[trigger] level_uniq(levels, l, b) <==> plan_uniq(ks, plan, l, b))
}

/// The number given to bin `b` of level `l`: how many bins that hold exactly
/// one key come before it, level by level and bin by bin.
spec fn lv_rank(levels: Seq<Level>, l: int, b: int) -> nat {
    sum_upto(|l2: int| count_upto(|c: int| level_uniq(levels, l2, c), levels[l2].m as nat), l as nat)
        + count_upto(|c: int| level_uniq(levels, l, c), b as nat)
}

proof fn lemma_count_upto_ext(f: spec_fn(int) -> bool, g: spec_fn(int) -> bool, upto: nat)
    requires
        forall|c: int| 0 <= c < upto ==> #[trigger] f(c) == g(c),
    ensures
        count_upto(f, upto) == count_upto(g, upto),
    decreases upto,
{
    if upto > 0 {
        lemma_count_upto_ext(f, g, (upto - 1) as nat);
    }
}

proof fn lemma_sum_upto_ext(f: spec_fn(int) -> nat, g: spec_fn(int) -> nat, l: nat)
    requires
        forall|c: int| 0 <= c < l ==> #[trigger] f(c) == g(c),
    ensures
        sum_upto(f, l) == sum_upto(g, l),
    decreases l,
{
    if l > 0 {
        lemma_sum_upto_ext(f, g, (l - 1) as nat);
    }
}

/// Built and planned levels that match number their bins alike.
proof fn lemma_rank_match(levels: Seq<Level>, ks: Seq<Seq<u8>>, plan: Seq<(u64, nat, Seq<usize>)>, l: int, b: int)
    requires
        levels_match(levels, ks, plan),
        0 <= l < levels.len(),
        0 <= b <= levels[l].m,
    ensures
        lv_rank(levels, l, b) == plan_rank(ks, plan, l, b),
{
    let lf = |l2: int| count_upto(|c: int| level_uniq(levels, l2, c), levels[l2].m as nat);
    let pf = |l2: int| count_upto(|c: int| plan_uniq(ks, plan, l2, c), plan[l2].1);
    assert forall|l2: int| 0 <= l2 < l implies #[trigger] lf(l2) == pf(l2) by {
        assert(levels[l2].seed == plan[l2].0 && levels[l2].m == plan[l2].1);
        let fl = |c: int| level_uniq(levels, l2, c);
        let fp = |c: int| plan_uniq(ks, plan, l2, c);
        assert forall|c: int| 0 <= c < levels[l2].m implies #[trigger] fl(c) == fp(c) by {
            assert(level_uniq(levels, l2, c) <==> plan_uniq(ks, plan, l2, c));
        }
        lemma_count_upto_ext(fl, fp, levels[l2].m as nat);
    }
    lemma_sum_upto_ext(lf, pf, l as nat);
    let fl = |c: int| level_uniq(levels, l, c);
    let fp = |c: int| plan_uniq(ks, plan, l, c);
    assert forall|c: int| 0 <= c < b implies #[trigger] fl(c) == fp(c) by {
        assert(level_uniq(levels, l, c) <==> plan_uniq(ks, plan, l, c));
    }
    lemma_count_upto_ext(fl, fp, b as nat);
}

/// With every singly-hit bin numbered by its rank, evaluation over the built
/// levels agrees with evaluation over the plan they match.
proof fn lemma_eval_match(
    levels: Seq<Level>,
    trans: Seq<usize>,
    n: nat,
    ks: Seq<Seq<u8>>,
    plan: Seq<(u64, nat, Seq<usize>)>,
    kb: Seq<u8>,
    i: nat,
)
    requires
        levels_match(levels, ks, plan),
        forall|l: int| 0 <= l < levels.len() ==> (#[trigger] levels[l]).m > 0,
        forall|l: int, b: int| 0 <= l < levels.len() && 0 <= b < levels[l].m && #[trigger] level_uniq(levels, l, b)
            ==> trans[levels[l].off + b] == lv_rank(levels, l, b),
    ensures
        eval_from(levels, trans, n, kb, i) == plan_eval(ks, plan, n, kb, i),
    decreases levels.len() - i,
{
    if i < levels.len() {
        let l = i as int;
        assert(levels[l].seed == plan[l].0 && levels[l].m == plan[l].1);
        let b = level_bin(levels, l, kb);
        assert(levels[l].m > 0);
        assert(0 <= b < levels[l].m);
        assert(level_uniq(levels, l, b) <==> plan_uniq(ks, plan, l, b));
        if level_uniq(levels, l, b) {
            lemma_rank_match(levels, ks, plan, l, b);
        } else {
            lemma_eval_match(levels, trans, n, ks, plan, kb, i + 1);
        }
    } else if levels.len() > 0 {
        assert(levels.last() == levels[levels.len() - 1]);
        assert(levels[levels.len() - 1].seed == plan[plan.len() - 1].0);
    }
}

/// Compute `ceil(len * gamma)` with overflow checks.
fn bins_for(len: usize, cfg: BbhConfig) -> (r: Option<usize>)
    requires
        cfg.valid(),
        len > 0,
    ensures
        r is Some <==> len * cfg.gamma_num + cfg.gamma_den - 1 <= usize::MAX,
        r matches Some(m) ==> m == level_bins(len as nat, cfg) && m > 0,
{
    let prod = match len.checked_mul(cfg.gamma_num) {
        Some(p) => p,
        None => return None,
    };
    let tot = match prod.checked_add(cfg.gamma_den - 1) {
        Some(t) => t,
        None => return None,
    };
    assert(len * cfg.gamma_num >= cfg.gamma_num) by (nonlinear_arith)
        requires len > 0, cfg.gamma_num >= 0;
    let m = tot / cfg.gamma_den;
    assert(m > 0) by (nonlinear_arith)
        requires m == tot / cfg.gamma_den, tot >= cfg.gamma_den, cfg.gamma_den > 0;
    Some(m)
}

fn reseed_exec(s: u64) -> (r: u64)
    ensures
        r == reseed(s),
{
    ((s << 17u64) | (s >> 47u64)) ^ 0xD1B5_4A32_D192_ED03u64
}

fn next_seed_exec(s: u64) -> (r: u64)
    ensures
        r == next_seed(s),
{
    ((s << 21u64) | (s >> 43u64)) ^ 0xA24B_1C66_3CF1_357Du64
}

/// Run the level-by-level peeling. Returns the levels and their total bin
/// count when the construction completes.
fn construct<K: IndexKey>(keys: &[K], cfg: BbhConfig) -> (r: (Option<(Vec<Level>, usize)>, Ghost<Map<int, (int, int)>>))
    requires
        keys@.len() > 0,
        cfg.valid(),
    ensures
        r.0 is Some <==> bbh_build_ok(key_seq(keys@), cfg),
        r.0 matches Some((levels, total)) ==> {
            &&& levels@.len() > 0
            &&& levels_wf(levels@, total as nat)
            &&& placement_inv(key_seq(keys@), levels@, r.1@)
            &&& forall|ix: int| 0 <= ix < keys@.len() ==> #[trigger] r.1@.contains_key(ix)
            &&& levels_match(levels@, key_seq(keys@), bbh_levels(key_seq(keys@), cfg))
        },
{
    let ghost ks = key_seq(keys@);
    let n = keys.len();
    let mut remaining: Vec<usize> = Vec::new();
    let mut i: usize = 0;
    while i < n
        invariant
            n == keys@.len(),
            0 <= i <= n,
            remaining@ == index_range(i as nat),
        decreases n - i,
    {
        remaining.push(i);
        i = i + 1;
        assert(remaining@ =~= index_range(i as nat));
    }
    let mut levels: Vec<Level> = Vec::new();
    let mut off: usize = 0;
    let mut salt: u64 = INITIAL_SALT;
    let mut reseeds: usize = 0;
    let ghost mut placed: Map<int, (int, int)> = Map::empty();
    let ghost full = bbh_levels(ks, cfg);
    let ghost mut done: Seq<(u64, nat, Seq<usize>)> = Seq::empty();
    assert(full =~= done + bbh_plan(ks, cfg, remaining@, 0, 0, salt, 0));
    assert(index_range(n as nat).no_duplicates());
    assert forall|ix: int| 0 <= ix < n implies (#[trigger] placed.contains_key(ix) <==> !remaining@.contains(ix as usize)) by {
        assert(remaining@[ix] == ix as usize);
    }
    while remaining.len() > 0
        invariant
            n == keys@.len(),
            n > 0,
            cfg.valid(),
            ks == key_seq(keys@),
            ks.len() == n,
            bbh_build_ok(ks, cfg) == bbh_run_ok(ks, cfg, remaining@, levels@.len() as nat, off as nat, salt, reseeds as nat),
            reseeds <= MAX_RESEEDS,
            levels_wf(levels@, off as nat),
            remaining@.no_duplicates(),
            forall|j: int| 0 <= j < remaining@.len() ==> remaining@[j] < n,
            placement_inv(ks, levels@, placed),
            forall|ix: int| 0 <= ix < n ==> (#[trigger] placed.contains_key(ix) <==> !remaining@.contains(ix as usize)),
            remaining@.len() == 0 ==> levels@.len() > 0,
            full == bbh_levels(ks, cfg),
            full == done + bbh_plan(ks, cfg, remaining@, levels@.len() as nat, off as nat, salt, reseeds as nat),
            levels_match(levels@, ks, done),
        decreases remaining@.len(), MAX_RESEEDS - reseeds,
    {
        let len = remaining.len();
        let m = match bins_for(len, cfg) {
            Some(m) => m,
            None => return (None, Ghost(placed)),
        };
        let end = match off.checked_add(m) {
            Some(e) => e,
            None => return (None, Ghost(placed)),
        };
        let uniq = mark_unique_bins(keys, &remaining, salt, m);
        let singles = count_singles(keys, &remaining, &uniq, salt, m);
        if singles == 0 {
            if levels.len() >= cfg.max_levels || reseeds >= MAX_RESEEDS {
                return (None, Ghost(placed));
            }
            proof {
                assert(bbh_plan(ks, cfg, remaining@, levels@.len() as nat, off as nat, salt, reseeds as nat)
                    == bbh_plan(ks, cfg, remaining@, levels@.len() as nat, off as nat, reseed(salt), (reseeds + 1) as nat));
            }
            salt = reseed_exec(salt);
            reseeds = reseeds + 1;
            continue;
        }
        let next = next_remaining(keys, &remaining, &uniq, salt, m);
        let ghost rem = remaining@;
        let ghost lidx = levels@.len() as int;
        proof {
            lemma_survivors(ks, rem, salt, m as nat, rem.len());
            assert(rem.take(rem.len() as int) =~= rem);
        }
        let ghost new_placed: Map<int, (int, int)> = Map::new(
            |ix: int| placed.contains_key(ix) || (0 <= ix < n && rem.contains(ix as usize) && is_single(ks, rem, salt, m as nat, ix as usize)),
            |ix: int| if placed.contains_key(ix) { placed[ix] } else { (lidx, key_bin(ks[ix], salt, m as nat)) },
        );
        let ghost old_levels = levels@;
        let lvl = Level { seed: salt, m, off, uniq };
        levels.push(lvl);
        proof {
            let nl = levels@;
            assert(nl.len() == lidx + 1);
            assert forall|l: int| 0 <= l < lidx implies nl[l] == old_levels[l] by {}
            assert(nl[lidx].seed == salt && nl[lidx].m == m && nl[lidx].off == off);
            // levels stay laid out in order
            assert forall|l1: int, l2: int| 0 <= l1 < l2 < nl.len() implies #[trigger] nl[l1].off + nl[l1].m <= #[trigger] nl[l2].off by {
                if l2 < lidx {
                    assert(old_levels[l1].off + old_levels[l1].m <= old_levels[l2].off);
                } else {
                    assert(old_levels[l1].off + old_levels[l1].m <= off);
                }
            }
            assert forall|l: int| 0 <= l < nl.len() implies {
                &&& #[trigger] nl[l].m > 0
                &&& nl[l].uniq@.len() == words_for(nl[l].m as nat)
                &&& nl[l].off + nl[l].m <= end
            } by {
                if l < lidx {
                    assert(old_levels[l].m > 0);
                }
            }
            assert(levels_wf(nl, end as nat));
            // bins of the old levels are unchanged
            assert forall|l: int, kb: Seq<u8>| 0 <= l < lidx implies level_bin(nl, l, kb) == level_bin(old_levels, l, kb) by {}
            assert forall|l: int, b: int| 0 <= l < lidx implies level_uniq(nl, l, b) == level_uniq(old_levels, l, b) by {}
            // placements
            assert forall|ix: int| #[trigger] new_placed.contains_key(ix) implies {
                &&& 0 <= ix < ks.len()
                &&& 0 <= new_placed[ix].0 < nl.len()
                &&& new_placed[ix].1 == level_bin(nl, new_placed[ix].0, ks[ix])
                &&& level_uniq(nl, new_placed[ix].0, new_placed[ix].1)
            } by {
                if placed.contains_key(ix) {
                    assert(placed[ix].0 < lidx);
                } else {
                    let b = key_bin(ks[ix], salt, m as nat);
                    assert(0 <= b < m);
                    assert(bin_count(ks, rem, salt, m as nat, b) == 1);
                }
            }
            assert forall|l: int, b: int| 0 <= l < nl.len() && 0 <= b < nl[l].m && #[trigger] level_uniq(nl, l, b)
                implies exists|ix: int| #[trigger] new_placed.contains_key(ix) && new_placed[ix] == (l, b) by {
                if l < lidx {
                    assert(level_uniq(old_levels, l, b));
                    let ix = choose|ix: int| #[trigger] placed.contains_key(ix) && placed[ix] == (l, b);
                    assert(new_placed.contains_key(ix) && new_placed[ix] == (l, b));
                } else {
                    assert(bin_count(ks, rem, salt, m as nat, b) == 1);
                    let j = lemma_bin_count_exists(ks, rem, salt, m as nat, b);
                    let ix = rem[j] as int;
                    assert(rem.contains(ix as usize));
                    assert(!placed.contains_key(ix));
                    assert(is_single(ks, rem, salt, m as nat, ix as usize));
                    assert(new_placed.contains_key(ix) && new_placed[ix] == (l, b));
                }
            }
            assert forall|i1: int, i2: int| #[trigger] new_placed.contains_key(i1) && #[trigger] new_placed.contains_key(i2) && i1 != i2
                implies new_placed[i1] != new_placed[i2] by {
                if placed.contains_key(i1) && placed.contains_key(i2) {
                } else if !placed.contains_key(i1) && !placed.contains_key(i2) {
                    let j1 = choose|j: int| 0 <= j < rem.len() && rem[j] == i1 as usize;
                    let j2 = choose|j: int| 0 <= j < rem.len() && rem[j] == i2 as usize;
                    if new_placed[i1] == new_placed[i2] {
                        if j1 < j2 {
                            lemma_bin_count_two(ks, rem, salt, m as nat, j1, j2);
                        } else {
                            lemma_bin_count_two(ks, rem, salt, m as nat, j2, j1);
                        }
                    }
                } else if placed.contains_key(i1) {
                    assert(placed[i1].0 < lidx);
                } else {
                    assert(placed[i2].0 < lidx);
                }
            }
            assert forall|ix: int, l: int| 0 <= ix < ks.len() && 0 <= l < (if new_placed.contains_key(ix) { new_placed[ix].0 } else { nl.len() as int })
                implies !#[trigger] level_uniq(nl, l, level_bin(nl, l, ks[ix])) by {
                if placed.contains_key(ix) {
                    assert(!level_uniq(old_levels, l, level_bin(old_levels, l, ks[ix])));
                } else if l < lidx {
                    assert(!level_uniq(old_levels, l, level_bin(old_levels, l, ks[ix])));
                } else {
                    // still unplaced after this level: not alone in its bin
                    assert(l == lidx);
                    assert(!is_single(ks, rem, salt, m as nat, ix as usize));
                    let b = key_bin(ks[ix], salt, m as nat);
                    assert(0 <= b < m);
                }
            }
            assert(placement_inv(ks, nl, new_placed));
            assert forall|j: int| 0 <= j < next@.len() implies next@[j] < n by {
                let x = next@[j];
                assert(next@.contains(x));
                assert(rem.take(rem.len() as int).contains(x));
                let k = choose|k: int| 0 <= k < rem.len() && rem.take(rem.len() as int)[k] == x;
                assert(rem[k] == x);
            }
            assert forall|ix: int| 0 <= ix < n implies (#[trigger] new_placed.contains_key(ix) <==> !next@.contains(ix as usize)) by {
                if placed.contains_key(ix) {
                    assert(!rem.contains(ix as usize));
                }
            }
        }
        proof {
            let nl = levels@;
            let rest = bbh_plan(ks, cfg, next@, nl.len() as nat, end as nat, next_seed(salt), 0);
            assert(bbh_plan(ks, cfg, rem, lidx as nat, off as nat, salt, reseeds as nat)
                == seq![(salt, m as nat, rem)] + rest);
            let nd = done.push((salt, m as nat, rem));
            assert(full =~= nd + rest);
            assert forall|l: int| 0 <= l < nl.len() implies (#[trigger] nl[l]).seed == nd[l].0 && nl[l].m == nd[l].1 by {
                if l < lidx {
                    assert(nl[l] == old_levels[l]);
                }
            }
            assert forall|l: int, b: int| 0 <= l < nl.len() && 0 <= b < nl[l].m
                implies (#[trigger] level_uniq(nl, l, b) <==> plan_uniq(ks, nd, l, b)) by {
                if l < lidx {
                    assert(nl[l] == old_levels[l]);
                    assert(level_uniq(old_levels, l, b) <==> plan_uniq(ks, done, l, b));
                } else {
                    assert(nd[l] == (salt, m as nat, rem));
                }
            }
            assert(levels_match(nl, ks, nd));
            done = nd;
        }
        remaining = next;
        off = end;
        salt = next_seed_exec(salt);
        reseeds = 0;
        proof {
            placed = new_placed;
        }
    }
    proof {
        assert forall|ix: int| 0 <= ix < keys@.len() implies #[trigger] placed.contains_key(ix) by {
            assert(!remaining@.contains(ix as usize));
        }
        assert(full =~= done);
    }
    (Some((levels, off)), Ghost(placed))
}


/// Whether bin `c` of level `l` comes before the scan position (`li`, `b`).
spec fn visited(l: int, c: int, li: int, b: int) -> bool {
    l < li || (l == li && c < b)
}

/// Position of bin `b` of level `l` among all levels' bins.
spec fn flat_of(levels: Seq<Level>, p: (int, int)) -> int {
    levels[p.0].off + p.1
}

/// Whether some key's bin is numbered `d`.
spec fn slot_reached(trans: Seq<usize>, levels: Seq<Level>, placed: Map<int, (int, int)>, n: int, d: int) -> bool {
    exists|i: int| 0 <= i < n && #[trigger] trans[flat_of(levels, placed[i])] == d
}

proof fn lemma_flat_distinct(levels: Seq<Level>, total: nat, p1: (int, int), p2: (int, int))
    requires
        levels_wf(levels, total),
        0 <= p1.0 < levels.len(),
        0 <= p2.0 < levels.len(),
        0 <= p1.1 < levels[p1.0].m,
        0 <= p2.1 < levels[p2.0].m,
        p1 != p2,
    ensures
        flat_of(levels, p1) != flat_of(levels, p2),
{
    if p1.0 < p2.0 {
        assert(levels[p1.0].off + levels[p1.0].m <= levels[p2.0].off);
    } else if p2.0 < p1.0 {
        assert(levels[p2.0].off + levels[p2.0].m <= levels[p1.0].off);
    }
}

/// The numbering built so far: the `d`-th numbered key is `key_of[d]`, and
/// its bin is numbered `d`.
spec fn numbering_inv(trans: Seq<usize>, levels: Seq<Level>, placed: Map<int, (int, int)>, n: int, key_of: Seq<int>) -> bool {
    &&& key_of.no_duplicates()
    &&& forall|d: int| 0 <= d < key_of.len() ==> 0 <= #[trigger] key_of[d] < n
    &&& forall|d: int| 0 <= d < key_of.len() ==> trans[flat_of(levels, placed[#[trigger] key_of[d]])] == d
}

/// The `d`-th numbered key's bin has rank `d`.
spec fn rank_inv(levels: Seq<Level>, placed: Map<int, (int, int)>, key_of: Seq<int>) -> bool {
    forall|d: int| 0 <= d < key_of.len() ==> lv_rank(levels, placed[#[trigger] key_of[d]].0, placed[key_of[d]].1) == d
}

proof fn lemma_rank_step(levels: Seq<Level>, l: int, b: int)
    requires
        0 <= l,
        0 <= b,
    ensures
        lv_rank(levels, l, b + 1) == lv_rank(levels, l, b) + if level_uniq(levels, l, b) { 1nat } else { 0nat },
{
    let f = |c: int| level_uniq(levels, l, c);
    assert(count_upto(f, (b + 1) as nat) == count_upto(f, b as nat) + if f(b) { 1nat } else { 0nat });
}

proof fn lemma_rank_next_level(levels: Seq<Level>, l: int)
    requires
        0 <= l,
    ensures
        lv_rank(levels, l + 1, 0) == lv_rank(levels, l, levels[l].m as int),
{
    let g = |l2: int| count_upto(|c: int| level_uniq(levels, l2, c), levels[l2].m as nat);
    assert(sum_upto(g, (l + 1) as nat) == sum_upto(g, l as nat) + g(l));
}

/// Number the uniquely-hit bins of level `li`, continuing from `dense`.
fn number_level(
    n: usize,
    levels: &Vec<Level>,
    total: usize,
    li: usize,
    trans: &mut Vec<usize>,
    dense: usize,
    Ghost(ks): Ghost<Seq<Seq<u8>>>,
    Ghost(placed): Ghost<Map<int, (int, int)>>,
    Ghost(key_of): Ghost<Seq<int>>,
) -> (r: (usize, Ghost<Seq<int>>))
    requires
        n == ks.len(),
        n > 0,
        levels_wf(levels@, total as nat),
        placement_inv(ks, levels@, placed),
        forall|ix: int| 0 <= ix < n ==> #[trigger] placed.contains_key(ix),
        old(trans)@.len() == total,
        0 <= li < levels@.len(),
        numbering_inv(old(trans)@, levels@, placed, n as int, key_of),
        dense == key_of.len(),
        dense < n,
        forall|ix: int| 0 <= ix < n ==> (#[trigger] key_of.contains(ix) <==> placed[ix].0 < li),
        rank_inv(levels@, placed, key_of),
        dense == lv_rank(levels@, li as int, 0),
    ensures
        final(trans)@.len() == total,
        numbering_inv(final(trans)@, levels@, placed, n as int, r.1@),
        rank_inv(levels@, placed, r.1@),
        r.0 < n ==> r.0 == lv_rank(levels@, li + 1, 0),
        r.0 == r.1@.len(),
        r.0 <= n,
        r.0 < n ==> forall|ix: int| 0 <= ix < n ==> (#[trigger] r.1@.contains(ix) <==> placed[ix].0 <= li),
{
    let ghost range = set_int_range(0, n as int);
    proof {
        lemma_int_range(0, n as int);
    }
    let ghost mut kof = key_of;
    let m = levels[li].m;
    let o = levels[li].off;
    let mut dense = dense;
    let mut b: usize = 0;
    assert forall|ix: int| 0 <= ix < n implies (#[trigger] kof.contains(ix) <==> visited(placed[ix].0, placed[ix].1, li as int, b as int)) by {
        assert(placed.contains_key(ix));
    }
    while b < m
        invariant
            n == ks.len(),
            n > 0,
            levels_wf(levels@, total as nat),
            placement_inv(ks, levels@, placed),
            forall|ix: int| 0 <= ix < n ==> #[trigger] placed.contains_key(ix),
            range == set_int_range(0, n as int),
            range.finite(),
            range.len() == n,
            trans@.len() == total,
            0 <= li < levels@.len(),
            m == levels@[li as int].m,
            o == levels@[li as int].off,
            0 <= b <= m,
            numbering_inv(trans@, levels@, placed, n as int, kof),
            dense == kof.len(),
            dense < n,
            forall|ix: int| 0 <= ix < n ==> (#[trigger] kof.contains(ix) <==> visited(placed[ix].0, placed[ix].1, li as int, b as int)),
            rank_inv(levels@, placed, kof),
            dense == lv_rank(levels@, li as int, b as int),
        decreases m - b,
    {
        proof {
            lemma_rank_step(levels@, li as int, b as int);
        }
        if bs_get(&levels[li].uniq, b) {
            proof {
                assert(level_uniq(levels@, li as int, b as int));
            }
            let ghost owner = choose|ix: int| #[trigger] placed.contains_key(ix) && placed[ix] == (li as int, b as int);
            proof {
                assert(placed.contains_key(owner) && placed[owner] == (li as int, b as int));
                assert(0 <= owner < n);
                assert(!kof.contains(owner));
                assert(o + b < total);
            }
            trans.set(o + b, dense);
            proof {
                let nk = kof.push(owner);
                assert forall|d: int| 0 <= d < nk.len() implies trans@[flat_of(levels@, placed[#[trigger] nk[d]])] == d by {
                    if d < kof.len() {
                        assert(nk[d] == kof[d]);
                        assert(kof.contains(kof[d]));
                        assert(placed.contains_key(kof[d]));
                        assert(placed[kof[d]] != placed[owner]);
                        lemma_flat_distinct(levels@, total as nat, placed[kof[d]], placed[owner]);
                    }
                }
                assert forall|d: int| 0 <= d < nk.len() implies lv_rank(levels@, placed[#[trigger] nk[d]].0, placed[nk[d]].1) == d by {
                    if d < kof.len() {
                        assert(nk[d] == kof[d]);
                    }
                }
                assert forall|d1: int, d2: int| 0 <= d1 < d2 < nk.len() implies nk[d1] != nk[d2] by {
                    if d2 == kof.len() {
                        assert(kof.contains(kof[d1]));
                    }
                }
                assert forall|ix: int| 0 <= ix < n implies (#[trigger] nk.contains(ix) <==> visited(placed[ix].0, placed[ix].1, li as int, b + 1)) by {
                    assert(placed.contains_key(ix));
                    if placed[ix] == (li as int, b as int) {
                        assert(ix == owner);
                        assert(nk[kof.len() as int] == owner);
                    }
                    if nk.contains(ix) && ix != owner {
                        let d = choose|d: int| 0 <= d < nk.len() && nk[d] == ix;
                        assert(kof[d] == ix);
                        assert(kof.contains(ix));
                    }
                    if kof.contains(ix) {
                        let d = choose|d: int| 0 <= d < kof.len() && kof[d] == ix;
                        assert(nk[d] == ix);
                    }
                }
                kof = nk;
            }
            dense = dense + 1;
            if dense == n {
                return (dense, Ghost(kof));
            }
        } else {
            proof {
                assert forall|ix: int| 0 <= ix < n implies (#[trigger] kof.contains(ix) <==> visited(placed[ix].0, placed[ix].1, li as int, b + 1)) by {
                    assert(placed.contains_key(ix));
                    if placed[ix] == (li as int, b as int) {
                        assert(level_uniq(levels@, li as int, b as int));
                    }
                }
            }
        }
        b = b + 1;
    }
    proof {
        lemma_rank_next_level(levels@, li as int);
        assert forall|ix: int| 0 <= ix < n implies (#[trigger] kof.contains(ix) <==> placed[ix].0 <= li) by {
            assert(placed.contains_key(ix));
            if placed[ix].0 == li {
                assert(placed[ix].1 == level_bin(levels@, li as int, ks[ix]));
            }
        }
    }
    (dense, Ghost(kof))
}

/// Number the bins that hold exactly one key densely, level by level and bin
/// by bin, stopping once every key has a number.
fn assemble(
    n: usize,
    levels: &Vec<Level>,
    total: usize,
    Ghost(ks): Ghost<Seq<Seq<u8>>>,
    Ghost(placed): Ghost<Map<int, (int, int)>>,
) -> (trans: Vec<usize>)
    requires
        n == ks.len(),
        n > 0,
        levels_wf(levels@, total as nat),
        placement_inv(ks, levels@, placed),
        forall|ix: int| 0 <= ix < n ==> #[trigger] placed.contains_key(ix),
    ensures
        trans@.len() == total,
        forall|l: int, b: int| 0 <= l < levels@.len() && 0 <= b < levels@[l].m && #[trigger] level_uniq(levels@, l, b)
            ==> trans@[levels@[l].off + b] < n,
        forall|i: int, j: int| 0 <= i < n && 0 <= j < n && i != j
            ==> #[trigger] trans@[flat_of(levels@, placed[i])] != #[trigger] trans@[flat_of(levels@, placed[j])],
        forall|d: int| 0 <= d < n ==> #[trigger] slot_reached(trans@, levels@, placed, n as int, d),
        forall|l: int, b: int| 0 <= l < levels@.len() && 0 <= b < levels@[l].m && #[trigger] level_uniq(levels@, l, b)
            ==> trans@[levels@[l].off + b] == lv_rank(levels@, l, b),
{
    let mut trans: Vec<usize> = Vec::new();
    let mut t: usize = 0;
    while t < total
        invariant
            0 <= t <= total,
            trans@.len() == t,
        decreases total - t,
    {
        trans.push(usize::MAX);
        t = t + 1;
    }
    let mut dense: usize = 0;
    let ghost mut key_of: Seq<int> = Seq::empty();
    let mut li: usize = 0;
    assert forall|ix: int| 0 <= ix < n implies (#[trigger] key_of.contains(ix) <==> placed[ix].0 < li) by {
        assert(placed.contains_key(ix));
    }
    while li < levels.len() && dense < n
        invariant
            n == ks.len(),
            n > 0,
            levels_wf(levels@, total as nat),
            placement_inv(ks, levels@, placed),
            forall|ix: int| 0 <= ix < n ==> #[trigger] placed.contains_key(ix),
            trans@.len() == total,
            0 <= li <= levels@.len(),
            numbering_inv(trans@, levels@, placed, n as int, key_of),
            dense == key_of.len(),
            dense <= n,
            dense < n ==> forall|ix: int| 0 <= ix < n ==> (#[trigger] key_of.contains(ix) <==> placed[ix].0 < li),
            rank_inv(levels@, placed, key_of),
            dense < n ==> dense == lv_rank(levels@, li as int, 0),
        decreases levels@.len() - li,
    {
        let (d, Ghost(k)) = number_level(n, levels, total, li, &mut trans, dense, Ghost(ks), Ghost(placed), Ghost(key_of));
        dense = d;
        proof {
            key_of = k;
        }
        li = li + 1;
    }
    proof {
        let range = set_int_range(0, n as int);
        lemma_int_range(0, n as int);
        // every key has a number
        if dense == n {
            key_of.unique_seq_to_set();
            vstd::seq_lib::seq_to_set_is_finite(key_of);
            assert(key_of.to_set().subset_of(range));
            lemma_subset_equality(key_of.to_set(), range);
        }
        assert forall|ix: int| 0 <= ix < n implies #[trigger] key_of.contains(ix) by {
            if dense == n {
                assert(range.contains(ix));
                assert(key_of.to_set().contains(ix));
            } else {
                assert(placed.contains_key(ix));
                assert(placed[ix].0 < levels@.len());
            }
        }
        assert forall|l: int, b: int| 0 <= l < levels@.len() && 0 <= b < levels@[l].m && #[trigger] level_uniq(levels@, l, b)
            implies trans@[levels@[l].off + b] < n by {
            let ix = choose|ix: int| #[trigger] placed.contains_key(ix) && placed[ix] == (l, b);
            assert(key_of.contains(ix));
            let d = choose|d: int| 0 <= d < key_of.len() && key_of[d] == ix;
            assert(trans@[flat_of(levels@, placed[key_of[d]])] == d);
        }
        assert forall|l: int, b: int| 0 <= l < levels@.len() && 0 <= b < levels@[l].m && #[trigger] level_uniq(levels@, l, b)
            implies trans@[levels@[l].off + b] == lv_rank(levels@, l, b) by {
            let ix = choose|ix: int| #[trigger] placed.contains_key(ix) && placed[ix] == (l, b);
            assert(key_of.contains(ix));
            let d = choose|d: int| 0 <= d < key_of.len() && key_of[d] == ix;
            assert(trans@[flat_of(levels@, placed[key_of[d]])] == d);
            assert(lv_rank(levels@, placed[key_of[d]].0, placed[key_of[d]].1) == d);
        }
        assert forall|i: int, j: int| 0 <= i < n && 0 <= j < n && i != j
            implies #[trigger] trans@[flat_of(levels@, placed[i])] != #[trigger] trans@[flat_of(levels@, placed[j])] by {
            assert(key_of.contains(i) && key_of.contains(j));
            let di = choose|d: int| 0 <= d < key_of.len() && key_of[d] == i;
            let dj = choose|d: int| 0 <= d < key_of.len() && key_of[d] == j;
            assert(trans@[flat_of(levels@, placed[key_of[di]])] == di);
            assert(trans@[flat_of(levels@, placed[key_of[dj]])] == dj);
        }
        assert forall|d: int| 0 <= d < n implies #[trigger] slot_reached(trans@, levels@, placed, n as int, d) by {
            key_of.unique_seq_to_set();
            vstd::seq_lib::seq_to_set_is_finite(key_of);
            assert forall|x: int| range.contains(x) implies key_of.to_set().contains(x) by {
                assert(key_of.contains(x));
            }
            assert(range.subset_of(key_of.to_set()));
            lemma_len_subset(range, key_of.to_set());
            assert(d < key_of.len());
            let i = key_of[d];
            assert(trans@[flat_of(levels@, placed[key_of[d]])] == d);
        }
    }
    trans
}


// ---------------------------------------------------------------------------
// The indexer
// ---------------------------------------------------------------------------

/// Maps keys to slot indices. Implementations are pure: the slot of a key
/// depends on the key's bytes alone.
pub trait MphIndexer<K: IndexKey>: Sized {
    /// Whether the indexer is well formed (evaluation cannot fail).
    spec fn indexer_valid(&self) -> bool;

    /// Number of slots the indexer maps into.
    spec fn slot_count(&self) -> nat;

    /// The slot of a key, given its bytes.
    spec fn eval_spec(&self, kb: Seq<u8>) -> int;

    /// Evaluate the hash function for a key, returning a slot index.
    fn eval(&self, key: &K) -> (r: usize)
        requires
            self.indexer_valid(),
        ensures
            r as int == self.eval_spec(key.key_bytes()),
            (r as nat) < self.slot_count(),
    ;

    /// Build an indexer for a key set (used during publish to rebuild for
    /// changed keys). `None` when this key set cannot be indexed.
    fn build(keys: &[K]) -> (r: Option<Self>)
        ensures
            r is Some <==> Self::build_ok(key_seq(keys@)),
            r matches Some(ix) ==> {
                &&& ix.indexer_valid()
                &&& ix.slot_count() == keys@.len()
                &&& is_perfect(|kb: Seq<u8>| ix.eval_spec(kb), key_seq(keys@))
            },
    ;

    /// Whether [`MphIndexer::build`] succeeds for keys with the encodings `ks`.
    spec fn build_ok(ks: Seq<Seq<u8>>) -> bool;
}

/// `f` maps the key encodings `ks` one to one onto the slots `0..ks.len()`.
pub open spec fn is_perfect(f: spec_fn(Seq<u8>) -> int, ks: Seq<Seq<u8>>) -> bool {
    &&& forall|i: int| 0 <= i < ks.len() ==> 0 <= #[trigger] f(ks[i]) < ks.len()
    &&& forall|i: int, j: int| 0 <= i < ks.len() && 0 <= j < ks.len() && i != j
        ==> #[trigger] f(ks[i]) != #[trigger] f(ks[j])
    &&& forall|s: int| 0 <= s < ks.len() ==> #[trigger] slot_hit(f, ks, s)
}

/// Some key of `ks` is mapped to slot `s` by `f`.
pub open spec fn slot_hit(f: spec_fn(Seq<u8>) -> int, ks: Seq<Seq<u8>>, s: int) -> bool {
    exists|i: int| 0 <= i < ks.len() && #[trigger] f(ks[i]) == s
}

/// `ix` maps the key encodings `ks` one to one onto its slots `0..ks.len()`.
pub open spec fn perfect_on<K: IndexKey, I: MphIndexer<K>>(ix: I, ks: Seq<Seq<u8>>) -> bool {
    &&& ix.slot_count() == ks.len()
    &&& is_perfect(|kb: Seq<u8>| ix.eval_spec(kb), ks)
}

/// Minimal perfect hash indexer (BBHash-style multi-level peeling).
#[derive(Debug)]
pub struct BBHashIndexer<K> {
    /// Number of keys (and slots).
    n: usize,
    /// The levels, in order.
    levels: Vec<Level>,
    /// Slot of each uniquely-hit bin, by its position among all bins.
    trans: Vec<usize>,
    _pk: PhantomData<K>,
}

/// Slot of key encoding `kb`, looking from level `i` on: the first level
/// whose bin for the key holds exactly one key decides; past the last level,
/// the key's hash under the last seed modulo `n`.
spec fn eval_from(levels: Seq<Level>, trans: Seq<usize>, n: nat, kb: Seq<u8>, i: nat) -> int
    decreases levels.len() - i,
{
    if i >= levels.len() {
        if levels.len() == 0 {
            0
        } else {
            ((ahash_salted(levels.last().seed, kb) as usize) as int) % (n as int)
        }
    } else if level_uniq(levels, i as int, level_bin(levels, i as int, kb)) {
        trans[levels[i as int].off + level_bin(levels, i as int, kb)] as int
    } else {
        eval_from(levels, trans, n, kb, i + 1)
    }
}

/// Well-formedness of an indexer's parts.
spec fn parts_valid(n: nat, levels: Seq<Level>, trans: Seq<usize>) -> bool {
    &&& n > 0
    &&& levels.len() > 0
    &&& levels_wf(levels, trans.len())
    &&& forall|l: int, b: int| 0 <= l < levels.len() && 0 <= b < levels[l].m && #[trigger] level_uniq(levels, l, b)
        ==> trans[levels[l].off + b] < n
}

proof fn lemma_eval_range(n: nat, levels: Seq<Level>, trans: Seq<usize>, kb: Seq<u8>, i: nat)
    requires
        parts_valid(n, levels, trans),
    ensures
        0 <= eval_from(levels, trans, n, kb, i) < n,
    decreases levels.len() - i,
{
    if i < levels.len() {
        let b = level_bin(levels, i as int, kb);
        assert(levels[i as int].m > 0);
        if !level_uniq(levels, i as int, b) {
            lemma_eval_range(n, levels, trans, kb, i + 1);
        }
    }
}

proof fn lemma_eval_placed(
    ks: Seq<Seq<u8>>,
    levels: Seq<Level>,
    trans: Seq<usize>,
    placed: Map<int, (int, int)>,
    ix: int,
    i: nat,
)
    requires
        placement_inv(ks, levels, placed),
        placed.contains_key(ix),
        i <= placed[ix].0,
    ensures
        eval_from(levels, trans, ks.len(), ks[ix], i) == trans[flat_of(levels, placed[ix])] as int,
    decreases placed[ix].0 - i,
{
    assert(0 <= ix < ks.len());
    if i < placed[ix].0 {
        assert(!level_uniq(levels, i as int, level_bin(levels, i as int, ks[ix])));
        lemma_eval_placed(ks, levels, trans, placed, ix, i + 1);
    }
}

impl<K> BBHashIndexer<K> {
    /// Whether the indexer is well formed.
    pub closed spec fn is_valid(self) -> bool {
        parts_valid(self.n as nat, self.levels@, self.trans@)
    }

    /// Number of slots.
    pub closed spec fn num_slots(self) -> nat {
        self.n as nat
    }

    /// Slot of a key encoding.
    pub closed spec fn slot_of(self, kb: Seq<u8>) -> int {
        eval_from(self.levels@, self.trans@, self.n as nat, kb, 0)
    }

    /// The indexer is the one that building over the key encodings `ks`
    /// with `cfg` gives: one slot per key, and every key encoding, member or
    /// not, in the slot that [`bbh_slot`] names.
    pub open spec fn built_from(self, ks: Seq<Seq<u8>>, cfg: BbhConfig) -> bool {
        &&& self.num_slots() == ks.len()
        &&& forall|kb: Seq<u8>| #[trigger] self.slot_of(kb) == bbh_slot(ks, cfg, kb)
    }
}

/// Building is deterministic: two indexers built over the same key encodings
/// with the same configuration have the same number of slots and send every
/// key encoding, member of the key set or not, to the same slot.
pub proof fn lemma_build_deterministic<K>(a: BBHashIndexer<K>, b: BBHashIndexer<K>, ks: Seq<Seq<u8>>, cfg: BbhConfig)
    requires
        a.built_from(ks, cfg),
        b.built_from(ks, cfg),
    ensures
        a.num_slots() == b.num_slots(),
        forall|kb: Seq<u8>| #[trigger] a.slot_of(kb) == b.slot_of(kb),
{
    assert forall|kb: Seq<u8>| #[trigger] a.slot_of(kb) == b.slot_of(kb) by {
        assert(a.slot_of(kb) == bbh_slot(ks, cfg, kb));
        assert(b.slot_of(kb) == bbh_slot(ks, cfg, kb));
    }
}

impl<K: IndexKey> BBHashIndexer<K> {
    /// Assemble the indexer from the levels of a completed construction.
    fn finish(
        keys: &[K],
        levels: Vec<Level>,
        total: usize,
        Ghost(placed): Ghost<Map<int, (int, int)>>,
        Ghost(plan): Ghost<Seq<(u64, nat, Seq<usize>)>>,
    ) -> (r: Self)
        requires
            keys@.len() > 0,
            levels@.len() > 0,
            levels_wf(levels@, total as nat),
            placement_inv(key_seq(keys@), levels@, placed),
            forall|ix: int| 0 <= ix < keys@.len() ==> #[trigger] placed.contains_key(ix),
            levels_match(levels@, key_seq(keys@), plan),
        ensures
            r.is_valid(),
            r.num_slots() == keys@.len(),
            is_perfect(|kb: Seq<u8>| r.slot_of(kb), key_seq(keys@)),
            forall|kb: Seq<u8>| #[trigger] r.slot_of(kb) == plan_eval(key_seq(keys@), plan, keys@.len(), kb, 0),
    {
        let ghost ks = key_seq(keys@);
        let n = keys.len();
        let trans = assemble(n, &levels, total, Ghost(ks), Ghost(placed));
        let r = BBHashIndexer { n, levels, trans, _pk: PhantomData };
        proof {
            let lv = r.levels@;
            let tr = r.trans@;
            assert(parts_valid(n as nat, lv, tr));
            assert forall|i: int| 0 <= i < ks.len() implies 0 <= #[trigger] r.slot_of(ks[i]) < ks.len() by {
                lemma_eval_range(n as nat, lv, tr, ks[i], 0);
            }
            assert forall|i: int, j: int| 0 <= i < ks.len() && 0 <= j < ks.len() && i != j
                implies #[trigger] r.slot_of(ks[i]) != #[trigger] r.slot_of(ks[j]) by {
                assert(placed.contains_key(i) && placed.contains_key(j));
                lemma_eval_placed(ks, lv, tr, placed, i, 0);
                lemma_eval_placed(ks, lv, tr, placed, j, 0);
                assert(tr[flat_of(lv, placed[i])] != tr[flat_of(lv, placed[j])]);
            }
            let f = |kb: Seq<u8>| r.slot_of(kb);
            assert forall|s: int| 0 <= s < ks.len() implies #[trigger] slot_hit(f, ks, s) by {
                assert(slot_reached(tr, lv, placed, n as int, s));
                let i = choose|i: int| 0 <= i < n && #[trigger] tr[flat_of(lv, placed[i])] == s;
                assert(placed.contains_key(i));
                lemma_eval_placed(ks, lv, tr, placed, i, 0);
                assert(f(ks[i]) == s);
            }
            assert(is_perfect(f, ks));
            assert forall|kb: Seq<u8>| #[trigger] r.slot_of(kb) == plan_eval(ks, plan, n as nat, kb, 0) by {
                lemma_eval_match(lv, tr, n as nat, ks, plan, kb, 0);
            }
        }
        r
    }

    /// Build from a set of keys with distinct encodings.
    ///
    /// Requires that the construction completes for these keys: each level
    /// finds a lone key within the retry budget and the bin counts fit in a
    /// machine word. Use [`BBHashIndexer::try_build`] when that is not known.
    pub fn build(keys: &[K], cfg: BbhConfig) -> (r: Self)
        requires
            keys@.len() > 0,
            cfg.valid(),
            bbh_build_ok(key_seq(keys@), cfg),
        ensures
            r.is_valid(),
            r.num_slots() == keys@.len(),
            is_perfect(|kb: Seq<u8>| r.slot_of(kb), key_seq(keys@)),
            r.built_from(key_seq(keys@), cfg),
    {
        let (parts, Ghost(placed)) = construct(keys, cfg);
        match parts {
            Some((levels, total)) => Self::finish(keys, levels, total, Ghost(placed), Ghost(bbh_levels(key_seq(keys@), cfg))),
            None => {
                proof {
                    assert(false);
                }
                BBHashIndexer { n: 1, levels: Vec::new(), trans: Vec::new(), _pk: PhantomData }
            },
        }
    }

    /// Build from a set of keys, or `None` when the key set is empty, the
    /// configuration is invalid, or the construction does not complete.
    pub fn try_build(keys: &[K], cfg: BbhConfig) -> (r: Option<Self>)
        ensures
            r is Some <==> (keys@.len() > 0 && cfg.valid() && bbh_build_ok(key_seq(keys@), cfg)),
            r matches Some(ix) ==> ix.is_valid() && ix.num_slots() == keys@.len() && is_perfect(|kb: Seq<u8>| ix.slot_of(kb), key_seq(keys@)),
            r matches Some(ix) ==> ix.built_from(key_seq(keys@), cfg),
    {
        if keys.len() == 0 || cfg.gamma_den == 0 || cfg.gamma_num < cfg.gamma_den {
            return None;
        }
        let (parts, _) = construct(keys, cfg);
        match parts {
            Some(_) => Some(Self::build(keys, cfg)),
            None => None,
        }
    }

    /// Number of keys the indexer was built for.
    pub fn len(&self) -> (r: usize)
        ensures
            r as nat == self.num_slots(),
    {
        self.n
    }
}

proof fn reveal_parts<K>(ix: &BBHashIndexer<K>)
    ensures
        ix.is_valid() == parts_valid(ix.n as nat, ix.levels@, ix.trans@),
        ix.num_slots() == ix.n as nat,
        forall|kb: Seq<u8>| #[trigger] ix.slot_of(kb) == eval_from(ix.levels@, ix.trans@, ix.n as nat, kb, 0),
{
}

impl<K> Clone for BBHashIndexer<K> {
    fn clone(&self) -> Self {
        BBHashIndexer { n: self.n, levels: self.levels.clone(), trans: self.trans.clone(), _pk: PhantomData }
    }
}

impl<K: IndexKey> MphIndexer<K> for BBHashIndexer<K> {
    open spec fn indexer_valid(&self) -> bool {
        self.is_valid()
    }

    open spec fn slot_count(&self) -> nat {
        self.num_slots()
    }

    open spec fn eval_spec(&self, kb: Seq<u8>) -> int {
        self.slot_of(kb)
    }

    /// The construction with the default configuration completes.
    open spec fn build_ok(ks: Seq<Seq<u8>>) -> bool {
        ks.len() > 0 && bbh_build_ok(ks, BbhConfig { gamma_num: 13, gamma_den: 10, max_levels: 32 })
    }

    fn eval(&self, key: &K) -> (r: usize) {
        let ghost kb = key.key_bytes();
        proof {
            reveal_parts(self);
        }
        let bytes = key.to_key_bytes();
        let mut i: usize = 0;
        while i < self.levels.len()
            invariant
                parts_valid(self.n as nat, self.levels@, self.trans@),
                bytes@ == kb,
                kb == key.key_bytes(),
                0 <= i <= self.levels@.len(),
                eval_from(self.levels@, self.trans@, self.n as nat, kb, 0) == eval_from(self.levels@, self.trans@, self.n as nat, kb, i as nat),
            decreases self.levels@.len() - i,
        {
            let lvl = &self.levels[i];
            proof {
                assert(self.levels@[i as int].m > 0);
                assert(self.levels@[i as int].off + self.levels@[i as int].m <= self.trans@.len());
            }
            let h = hash_bytes_salted(lvl.seed, bytes.as_slice());
            let b = (h as usize) % lvl.m;
            proof {
                assert(b as int == level_bin(self.levels@, i as int, kb));
            }
            if bs_get(lvl.uniq.as_slice(), b) {
                let tlen = self.trans.len();
                proof {
                    lemma_eval_range(self.n as nat, self.levels@, self.trans@, kb, 0);
                    assert(level_uniq(self.levels@, i as int, b as int));
                    assert(lvl.off + b < tlen);
                    assert(eval_from(self.levels@, self.trans@, self.n as nat, kb, i as nat) == self.trans@[lvl.off + b] as int);
                    reveal_parts(self);
                }
                return self.trans[lvl.off + b];
            }
            i = i + 1;
        }
        let last = &self.levels[self.levels.len() - 1];
        let h = hash_bytes_salted(last.seed, bytes.as_slice());
        (h as usize) % self.n
    }

    fn build(keys: &[K]) -> (r: Option<Self>) {
        if keys.len() == 0 {
            return None;
        }
        let cfg = BbhConfig::default();
        let (parts, Ghost(placed)) = construct(keys, cfg);
        match parts {
            Some((levels, total)) => {
                let ix = Self::finish(keys, levels, total, Ghost(placed), Ghost(bbh_levels(key_seq(keys@), cfg)));
                proof {
                    assert((|kb: Seq<u8>| ix.eval_spec(kb)) =~= (|kb: Seq<u8>| ix.slot_of(kb)));
                }
                Some(ix)
            },
            None => None,
        }
    }
}

} // verus!
