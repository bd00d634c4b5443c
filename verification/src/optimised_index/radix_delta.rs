//! Delta overlay as a directory of open-addressed buckets.
//!
//! A key's hash picks a bucket by its top bits and a home slot by its low
//! bits; the key lives in the first slot of its probe sequence (home slot,
//! then the next ones, wrapping) that it was placed in. A slot once taken
//! stays taken: a delete leaves a tombstone that keeps the key (in a free
//! slot for a key never written), so a read tells a deleted key (tombstone)
//! from one never written (miss), until an
//! upsert of a key absent from the bucket takes over the first tombstone on
//! its probe sequence.
use vstd::prelude::*;
use crate::ids::IndexKey;
use crate::mph_delta_index::util::{ahash_bytes, hash64, key_hash};
use crate::mph_delta_index::radix_index::DeltaState;
use crate::pow2::{is_pow2, lemma_pow2_mask, next_power_of_two, lemma_pow2_half_word, lemma_pow2_unique_between};

verus! {

/// A slot never taken.
pub const STATE_NONE: u8 = 0x00;
/// A slot holding a live value.
pub const STATE_INLINE: u8 = 0x03;
/// A slot holding a deleted key.
pub const STATE_TOMBSTONE: u8 = 0x04;

/// Fingerprint of a hash: its low byte, with 0 replaced by 1.
pub open spec fn fp_of(h: u64) -> u8 {
    if h % 256 == 0 { 1u8 } else { (h % 256) as u8 }
}

/// Directory entry of a hash: its top `bits` bits.
pub open spec fn dir_of(h: u64, bits: u32) -> int {
    (h >> ((64 - bits) as u64)) as int
}

/// Home slot of a hash in a bucket of `cap` slots.
pub open spec fn home_of(h: u64, cap: usize) -> int {
    ((h as usize) as int) % (cap as int)
}

/// Slot at distance `j` from `home`, wrapping at `c`.
pub open spec fn pos(home: int, j: int, c: int) -> int {
    if home + j < c { home + j } else { home + j - c }
}

/// Distance from `home` forward to `p`, wrapping at `c`.
pub open spec fn dist(home: int, p: int, c: int) -> int {
    if p >= home { p - home } else { p + c - home }
}

struct DSlot<K, V> {
    key: Option<K>,
    value: Option<V>,
    state: u8,
    fp: u8,
}

struct DBucket<K, V> {
    slots: Vec<DSlot<K, V>>,
    cap: usize,
}

/// Slot `p` of `s` has been taken.
spec fn taken<K, V>(s: Seq<DSlot<K, V>>, p: int) -> bool {
    s[p].state != STATE_NONE
}

/// Slot `p` of `s` holds a live key.
spec fn live_slot<K, V>(s: Seq<DSlot<K, V>>, p: int) -> bool {
    taken(s, p) && s[p].state == STATE_INLINE
}

/// Slot `p` of `s` was taken by the key with bytes `kb`.
spec fn has_key<K: IndexKey, V>(s: Seq<DSlot<K, V>>, c: int, p: int, kb: Seq<u8>) -> bool {
    &&& 0 <= p < c
    &&& taken(s, p)
    &&& s[p].key matches Some(k) && k.key_bytes() == kb
}

/// Every slot from `home` up to distance `d` is taken.
spec fn path_taken<K, V>(s: Seq<DSlot<K, V>>, home: int, d: int, c: int) -> bool {
    forall|j: int| 0 <= j < d ==> #[trigger] taken(s, pos(home, j, c))
}

/// Distance `j` along the probe sequence from `home` holds a tombstone,
/// reached over taken slots only.
spec fn tomb_at<K, V>(s: Seq<DSlot<K, V>>, home: int, c: int, j: int) -> bool {
    &&& 0 <= j < c
    &&& path_taken(s, home, j, c)
    &&& s[pos(home, j, c)].state == STATE_TOMBSTONE
}

/// Distance `j` holds the first tombstone of the probe sequence from `home`.
spec fn first_tomb<K, V>(s: Seq<DSlot<K, V>>, home: int, c: int, j: int) -> bool {
    &&& tomb_at(s, home, c, j)
    &&& forall|i: int| 0 <= i < j ==> !#[trigger] tomb_at(s, home, c, i)
}

/// Well formed bucket `i`: each taken slot holds a key of this bucket with
/// its fingerprint, reached from the key's home slot over taken slots only,
/// and no key is in two slots.
spec fn dbucket_wf<K: IndexKey, V>(b: DBucket<K, V>, i: int, bits: u32) -> bool {
    let c = b.cap as int;
    let s = b.slots@;
    &&& is_pow2(b.cap)
    &&& 2 * b.cap <= usize::MAX + 1
    &&& s.len() == c
    &&& forall|p: int| 0 <= p < c && #[trigger] taken(s, p) ==> {
        &&& s[p].key is Some
        &&& (s[p].state == STATE_INLINE || s[p].state == STATE_TOMBSTONE)
        &&& (s[p].state == STATE_INLINE ==> s[p].value is Some)
        &&& s[p].fp == fp_of(ahash_bytes(s[p].key->Some_0.key_bytes()))
        &&& dir_of(ahash_bytes(s[p].key->Some_0.key_bytes()), bits) == i
        &&& path_taken(s, home_of(ahash_bytes(s[p].key->Some_0.key_bytes()), b.cap), dist(home_of(ahash_bytes(s[p].key->Some_0.key_bytes()), b.cap), p, c), c)
    }
    &&& forall|p: int, q: int, kb: Seq<u8>| has_key(s, c, p, kb) && has_key(s, c, q, kb) ==> p == q
}

/// Delta overlay: a directory of open-addressed buckets.
pub struct RadixDelta<K, V> {
    dir: Vec<DBucket<K, V>>,
    dir_mask: usize,
    dir_bits: u32,
    bucket_cap: usize,
}

impl<K: IndexKey, V> RadixDelta<K, V> {
    /// Number of directory entries.
    pub closed spec fn dir_len(&self) -> nat {
        self.dir@.len()
    }

    /// Slots per bucket.
    pub closed spec fn cap_view(&self) -> nat {
        self.bucket_cap as nat
    }

    /// What the overlay holds for the key with bytes `kb`.
    pub closed spec fn state(&self, kb: Seq<u8>) -> DeltaState<V> {
        let b = self.dir@[dir_of(ahash_bytes(kb), self.dir_bits)];
        let c = b.cap as int;
        if exists|p: int| has_key(b.slots@, c, p, kb) {
            let p = choose|p: int| has_key(b.slots@, c, p, kb);
            if b.slots@[p].state == STATE_INLINE {
                DeltaState::Hit(b.slots@[p].value->Some_0)
            } else {
                DeltaState::Tombstone
            }
        } else {
            DeltaState::Miss
        }
    }

    /// Every slot of the bucket of the key with bytes `kb` holds a live key:
    /// none is free and none is a tombstone.
    pub closed spec fn bucket_full(&self, kb: Seq<u8>) -> bool {
        let b = self.dir@[dir_of(ahash_bytes(kb), self.dir_bits)];
        forall|p: int| 0 <= p < b.cap ==> #[trigger] live_slot(b.slots@, p)
    }

    /// Every slot of the bucket of the key with bytes `kb` has been taken,
    /// by a live key or a tombstone.
    pub closed spec fn bucket_taken(&self, kb: Seq<u8>) -> bool {
        let b = self.dir@[dir_of(ahash_bytes(kb), self.dir_bits)];
        forall|p: int| 0 <= p < b.cap ==> #[trigger] taken(b.slots@, p)
    }

    /// The key whose tombstone an upsert of the absent key with bytes `kb`
    /// takes over: the key of the first tombstone on `kb`'s probe sequence,
    /// if there is one before the first free slot.
    pub closed spec fn evicted(&self, kb: Seq<u8>) -> Option<Seq<u8>> {
        let b = self.dir@[dir_of(ahash_bytes(kb), self.dir_bits)];
        let c = b.cap as int;
        let home = home_of(ahash_bytes(kb), b.cap);
        if exists|j: int| first_tomb(b.slots@, home, c, j) {
            let j = choose|j: int| first_tomb(b.slots@, home, c, j);
            Some(b.slots@[pos(home, j, c)].key->Some_0.key_bytes())
        } else {
            None
        }
    }

    /// Directory and buckets in shape.
    pub closed spec fn wf(&self) -> bool {
        &&& 1 <= self.dir_bits <= 20
        &&& self.dir@.len() == (1usize << self.dir_bits)
        &&& self.dir_mask + 1 == self.dir@.len()
        &&& is_pow2(self.bucket_cap)
        &&& forall|i: int| 0 <= i < self.dir@.len() ==> (#[trigger] self.dir@[i]).cap == self.bucket_cap
            && dbucket_wf(self.dir@[i], i, self.dir_bits)
    }

    proof fn lemma_dir_in_range(&self, h: u64)
        requires
            self.wf(),
        ensures
            0 <= dir_of(h, self.dir_bits) < self.dir@.len(),
    {
        let b = self.dir_bits;
        let x = h >> ((64 - b) as u64);
        assert(x < (1u64 << b)) by (bit_vector)
            requires 1 <= b <= 20, x == h >> ((64 - b) as u64);
        assert((1u64 << b) as usize == (1usize << b) && (1u64 << b) <= 0x100000u64) by (bit_vector)
            requires 1 <= b <= 20;
        assert((1u64 << b) as int == (1usize << b) as int);
        assert(dir_of(h, b) == x as int);
    }

    /// Create an overlay with `2^dir_bits` buckets (`dir_bits` clamped to
    /// 1..=20) of `bucket_cap` slots each, rounded up to a power of two and
    /// to at least 8.
    pub fn with_params(dir_bits: usize, bucket_cap: usize) -> (r: Self)
        requires
            bucket_cap <= usize::MAX / 2 + 1,
        ensures
            r.wf(),
            forall|kb: Seq<u8>| #[trigger] r.state(kb) is Miss,
            forall|kb: Seq<u8>| !#[trigger] r.bucket_full(kb),
            r.dir_len() == vstd::arithmetic::power2::pow2(
                (if dir_bits < 1 { 1 } else if dir_bits > 20 { 20 } else { dir_bits }) as nat),
            is_pow2(r.cap_view() as usize),
            r.cap_view() >= 8,
            r.cap_view() >= bucket_cap,
            r.cap_view() / 2 < (if bucket_cap < 8 { 8 } else { bucket_cap }),
    {
        let bits: u32 = if dir_bits < 1 { 1 } else if dir_bits > 20 { 20 } else { dir_bits as u32 };
        let dir_len: usize = 1usize << bits;
        let cap_req: usize = if bucket_cap < 8 { 8 } else { bucket_cap };
        proof {
            vstd::arithmetic::power2::lemma2_to64();
            crate::pow2::lemma_pow2_le(3, (usize::BITS - 1) as nat);
            crate::pow2::lemma_top_pow2();
        }
        let cap = next_power_of_two(cap_req);
        proof {
            lemma_pow2_mask(cap);
            lemma_pow2_half_word(cap);
            crate::pow2::lemma_pow2_le(bits as nat, 20);
            vstd::bits::lemma_usize_shl_is_mul(1, bits as usize);
            assert((1usize << bits) == (1usize << (bits as usize))) by (bit_vector)
                requires bits <= 20;
        }
        let mut dir: Vec<DBucket<K, V>> = Vec::new();
        let mut i: usize = 0;
        while i < dir_len
            invariant
                i <= dir_len,
                dir@.len() == i,
                is_pow2(cap),
                2 * cap <= usize::MAX + 1,
                forall|j: int| 0 <= j < i ==> (#[trigger] dir@[j]).cap == cap && dir@[j].slots@.len() == cap
                    && forall|p: int| 0 <= p < cap ==> !#[trigger] taken(dir@[j].slots@, p),
            decreases dir_len - i,
        {
            let mut slots: Vec<DSlot<K, V>> = Vec::new();
            let mut p: usize = 0;
            while p < cap
                invariant
                    p <= cap,
                    slots@.len() == p,
                    forall|q: int| 0 <= q < p ==> !#[trigger] taken(slots@, q),
                decreases cap - p,
            {
                let ghost s0 = slots@;
                slots.push(DSlot { key: None, value: None, state: STATE_NONE, fp: 0 });
                proof {
                    assert forall|q: int| 0 <= q < p + 1 implies !#[trigger] taken(slots@, q) by {
                        if q < p {
                            assert(slots@[q] == s0[q]);
                            assert(!taken(s0, q));
                        }
                    }
                }
                p = p + 1;
            }
            dir.push(DBucket { slots, cap });
            i = i + 1;
        }
        let r = RadixDelta { dir, dir_mask: dir_len - 1, dir_bits: bits, bucket_cap: cap };
        proof {
            assert forall|j: int| 0 <= j < r.dir@.len() implies (#[trigger] r.dir@[j]).cap == r.bucket_cap
                && dbucket_wf(r.dir@[j], j, r.dir_bits) by {
                let s = r.dir@[j].slots@;
                assert forall|p: int, q: int, kb: Seq<u8>| has_key(s, cap as int, p, kb) && has_key(s, cap as int, q, kb) implies p == q by {
                    assert(!taken(s, p));
                }
            }
            assert forall|kb: Seq<u8>| !#[trigger] r.bucket_full(kb) by {
                r.lemma_dir_in_range(ahash_bytes(kb));
                let b = r.dir@[dir_of(ahash_bytes(kb), r.dir_bits)];
                assert(!taken(b.slots@, 0));
                assert(!live_slot(b.slots@, 0));
            }
            assert forall|kb: Seq<u8>| #[trigger] r.state(kb) is Miss by {
                r.lemma_dir_in_range(ahash_bytes(kb));
                let b = r.dir@[dir_of(ahash_bytes(kb), r.dir_bits)];
                assert forall|p: int| !has_key(b.slots@, b.cap as int, p, kb) by {
                    if 0 <= p < b.cap {
                        assert(!taken(b.slots@, p));
                    }
                }
            }
        }
        r
    }

    /// An overlay of 65536 buckets of 32 slots.
    pub fn new() -> (r: Self)
        ensures
            r.wf(),
            forall|kb: Seq<u8>| #[trigger] r.state(kb) is Miss,
            forall|kb: Seq<u8>| !#[trigger] r.bucket_full(kb),
            r.cap_view() == 32,
    {
        proof {
            crate::pow2::lemma_top_pow2();
            vstd::arithmetic::power2::lemma2_to64();
        }
        let r = Self::with_params(16, 32);
        proof {
            assert(32usize == vstd::arithmetic::power2::pow2(5));
            assert(is_pow2(32usize));
            lemma_pow2_unique_between(r.cap_view() as usize, 32);
        }
        r
    }

    /// Directory entry of a hash.
    fn bucket_index_from_hash(&self, h: u64) -> (r: usize)
        requires
            self.wf(),
        ensures
            r as int == dir_of(h, self.dir_bits),
            r < self.dir@.len(),
    {
        proof {
            self.lemma_dir_in_range(h);
        }
        let bits = self.dir_bits;
        let hi = (h >> ((64 - bits) as u64)) as usize;
        proof {
            let m = self.dir_mask;
            assert(m + 1 == (1usize << bits));
            assert((h >> ((64 - bits) as u64)) < (1u64 << bits) && m + 1 == (1usize << bits) ==>
                ((h >> ((64 - bits) as u64)) as usize & m) == (h >> ((64 - bits) as u64)) as usize) by (bit_vector)
                requires 1 <= bits <= 20;
            assert((h >> ((64 - bits) as u64)) < (1u64 << bits)) by (bit_vector)
                requires 1 <= bits <= 20;
        }
        hi & self.dir_mask
    }
}

/// Growing the set of taken slots keeps every fully taken path taken.
proof fn lemma_path_grows<K, V>(s: Seq<DSlot<K, V>>, t: Seq<DSlot<K, V>>, home: int, d: int, c: int)
    requires
        path_taken(s, home, d, c),
        s.len() == t.len(),
        forall|x: int| 0 <= x < s.len() && #[trigger] taken(s, x) ==> taken(t, x),
        0 <= home < c,
        d <= c,
        c == s.len(),
    ensures
        path_taken(t, home, d, c),
{
    assert forall|j: int| 0 <= j < d implies #[trigger] taken(t, pos(home, j, c)) by {
        assert(taken(s, pos(home, j, c)));
    }
}

impl<K: IndexKey, V> RadixDelta<K, V> {
    /// The state of a key whose slot is known.
    proof fn lemma_state_at(&self, kb: Seq<u8>, p: int)
        requires
            self.wf(),
            has_key(self.dir@[dir_of(ahash_bytes(kb), self.dir_bits)].slots@, self.bucket_cap as int, p, kb),
        ensures
            self.state(kb) == (if self.dir@[dir_of(ahash_bytes(kb), self.dir_bits)].slots@[p].state == STATE_INLINE {
                DeltaState::Hit(self.dir@[dir_of(ahash_bytes(kb), self.dir_bits)].slots@[p].value->Some_0)
            } else {
                DeltaState::Tombstone
            }),
    {
        let i = dir_of(ahash_bytes(kb), self.dir_bits);
        self.lemma_dir_in_range(ahash_bytes(kb));
        let b = self.dir@[i];
        assert(dbucket_wf(b, i, self.dir_bits));
        let c = choose|q: int| has_key(b.slots@, b.cap as int, q, kb);
        assert(has_key(b.slots@, b.cap as int, c, kb));
    }

    /// Walk the probe sequence of `seed` in bucket `bidx`, looking for `key`:
    /// the slot holding it, or else the first free slot, or neither when
    /// every slot is taken; and the first tombstone passed on the way.
    fn probe(&self, bidx: usize, seed: u64, key: &K) -> (r: (Option<usize>, Option<usize>, Option<usize>))
        requires
            self.wf(),
            bidx < self.dir@.len(),
        ensures
            ({
                let b = self.dir@[bidx as int];
                let s = b.slots@;
                let c = b.cap as int;
                let home = home_of(seed, b.cap);
                let kb = key.key_bytes();
                let keyed = seed == key_hash(*key) && bidx as int == dir_of(seed, self.dir_bits);
                &&& r.0 matches Some(p) ==> has_key(s, c, p as int, kb) && r.1 is None
                &&& (r.0 is None && r.1 is Some) ==> 0 <= r.1->Some_0 < c && !taken(s, r.1->Some_0 as int)
                    && path_taken(s, home, dist(home, r.1->Some_0 as int, c), c)
                &&& (r.0 is None && r.1 is None) ==> forall|x: int| 0 <= x < c ==> #[trigger] taken(s, x)
                &&& (r.0 is None && keyed) ==> forall|x: int| !#[trigger] has_key(s, c, x, kb)
                &&& (r.0 is None && keyed) ==> (r.2 matches Some(t) ==> {
                    &&& 0 <= t < c
                    &&& pos(home, dist(home, t as int, c), c) == t
                    &&& first_tomb(s, home, c, dist(home, t as int, c))
                })
                &&& (r.0 is None && keyed && r.2 is None) ==> forall|j: int| !#[trigger] tomb_at(s, home, c, j)
            }),
    {
        let ghost b = self.dir@[bidx as int];
        let ghost s = b.slots@;
        let ghost kb = key.key_bytes();
        let bucket = &self.dir[bidx];
        let cap = bucket.cap;
        let ghost c = cap as int;
        proof {
            assert(dbucket_wf(b, bidx as int, self.dir_bits));
            lemma_pow2_mask(cap);
        }
        let mut fp: u8 = (seed & 0xFF) as u8;
        if fp == 0 {
            fp = 1;
        }
        proof {
            assert((seed & 0xFFu64) == seed % 256) by (bit_vector);
        }
        let mut idx = (seed as usize) & (cap - 1);
        let ghost home = home_of(seed, cap);
        let mut d: usize = 0;
        let mut tomb: Option<usize> = None;
        while d < cap
            invariant
                self.wf(),
                bidx < self.dir@.len(),
                b == self.dir@[bidx as int],
                *bucket == b,
                kb == key.key_bytes(),
                dbucket_wf(b, bidx as int, self.dir_bits),
                s == b.slots@,
                c == b.cap,
                cap == b.cap,
                s.len() == c,
                c > 0,
                0 <= home < c,
                home == home_of(seed, cap),
                fp == fp_of(seed),
                d <= c,
                idx == pos(home, d as int, c),
                path_taken(s, home, d as int, c),
                forall|j: int| 0 <= j < d ==> !(#[trigger] has_key(s, c, pos(home, j, c), kb) && s[pos(home, j, c)].fp == fp),
                tomb matches Some(t) ==> 0 <= t < c && dist(home, t as int, c) < d
                    && pos(home, dist(home, t as int, c), c) == t
                    && first_tomb(s, home, c, dist(home, t as int, c)),
                tomb is None ==> forall|j: int| 0 <= j < d ==> !#[trigger] tomb_at(s, home, c, j),
            decreases c - d,
        {
            let slot = &bucket.slots[idx];
            if slot.state == STATE_NONE {
                proof {
                    assert(dist(home, idx as int, c) == d);
                    if seed == key_hash(*key) && bidx as int == dir_of(seed, self.dir_bits) {
                        assert forall|x: int| !#[trigger] has_key(s, c, x, kb) by {
                            if has_key(s, c, x, kb) {
                                let e = dist(home, x, c);
                                assert(pos(home, e, c) == x);
                                if e < d {
                                    assert(s[x].fp == fp);
                                    assert(has_key(s, c, pos(home, e, c), kb));
                                } else {
                                    assert(path_taken(s, home, e, c));
                                    assert(taken(s, pos(home, d as int, c)));
                                }
                            }
                        }
                    }
                    if tomb is None {
                        assert forall|j: int| !#[trigger] tomb_at(s, home, c, j) by {
                            if tomb_at(s, home, c, j) && j >= d {
                                if j > d {
                                    assert(taken(s, pos(home, d as int, c)));
                                }
                            }
                        }
                    }
                }
                return (None, Some(idx), tomb);
            }
            if (slot.state == STATE_INLINE || slot.state == STATE_TOMBSTONE) && slot.fp == fp {
                match &slot.key {
                    Some(k) => {
                        if k.same_key(key) {
                            return (Some(idx), None, None);
                        }
                    },
                    None => {},
                }
            }
            proof {
                assert(dist(home, idx as int, c) == d);
                assert forall|j: int| 0 <= j < d + 1 implies #[trigger] taken(s, pos(home, j, c)) by {
                    if j < d {
                        assert(taken(s, pos(home, j, c)));
                    }
                }
            }
            if tomb.is_none() && slot.state == STATE_TOMBSTONE {
                proof {
                    assert(tomb_at(s, home, c, d as int));
                }
                tomb = Some(idx);
            }
            proof {
                if tomb is None {
                    assert forall|j: int| 0 <= j < d + 1 implies !#[trigger] tomb_at(s, home, c, j) by {
                        if j == d {
                            assert(s[pos(home, d as int, c)].state != STATE_TOMBSTONE);
                        }
                    }
                }
            }
            idx = if idx + 1 == cap { 0 } else { idx + 1 };
            d = d + 1;
        }
        proof {
            assert forall|x: int| 0 <= x < c implies #[trigger] taken(s, x) by {
                let j = dist(home, x, c);
                assert(pos(home, j, c) == x);
                assert(taken(s, pos(home, j, c)));
            }
            if seed == key_hash(*key) && bidx as int == dir_of(seed, self.dir_bits) {
                assert forall|x: int| !#[trigger] has_key(s, c, x, kb) by {
                    if has_key(s, c, x, kb) {
                        let e = dist(home, x, c);
                        assert(pos(home, e, c) == x);
                        assert(s[x].fp == fp);
                        assert(has_key(s, c, pos(home, e, c), kb));
                    }
                }
            }
        }
        (None, None, tomb)
    }
}

impl<K: IndexKey, V> RadixDelta<K, V> {
    /// Write `slot` at position `w` of bucket `bidx`, where the key with bytes
    /// `kb` either already sits or may be placed: the directory stays well
    /// formed and the key now reads as the new slot says.
    proof fn lemma_write(old_ix: &Self, new_ix: &Self, bidx: int, w: int, kb: Seq<u8>)
        requires
            old_ix.wf(),
            0 <= bidx < old_ix.dir@.len(),
            bidx == dir_of(ahash_bytes(kb), old_ix.dir_bits),
            new_ix.dir_bits == old_ix.dir_bits,
            new_ix.dir_mask == old_ix.dir_mask,
            new_ix.bucket_cap == old_ix.bucket_cap,
            new_ix.dir@.len() == old_ix.dir@.len(),
            forall|j: int| 0 <= j < old_ix.dir@.len() && j != bidx ==> #[trigger] new_ix.dir@[j] == old_ix.dir@[j],
            ({
                let b0 = old_ix.dir@[bidx];
                let b1 = new_ix.dir@[bidx];
                let c = b0.cap as int;
                let home = home_of(ahash_bytes(kb), b0.cap);
                &&& b1.cap == b0.cap
                &&& b1.slots@.len() == b0.slots@.len()
                &&& 0 <= w < c
                &&& forall|x: int| 0 <= x < c && x != w ==> #[trigger] b1.slots@[x] == b0.slots@[x]
                &&& b1.slots@[w].key matches Some(k) && k.key_bytes() == kb
                &&& (b1.slots@[w].state == STATE_INLINE || b1.slots@[w].state == STATE_TOMBSTONE)
                &&& (b1.slots@[w].state == STATE_INLINE ==> b1.slots@[w].value is Some)
                &&& b1.slots@[w].fp == fp_of(ahash_bytes(kb))
                &&& path_taken(b0.slots@, home, dist(home, w, c), c)
                &&& (has_key(b0.slots@, c, w, kb) || ((!taken(b0.slots@, w) || b0.slots@[w].state == STATE_TOMBSTONE)
                    && forall|x: int| !#[trigger] has_key(b0.slots@, c, x, kb)))
            }),
        ensures
            new_ix.wf(),
            forall|k: Seq<u8>| k != kb && !has_key(old_ix.dir@[bidx].slots@, old_ix.dir@[bidx].cap as int, w, k)
                ==> #[trigger] new_ix.state(k) == old_ix.state(k),
            forall|k: Seq<u8>| k != kb && has_key(old_ix.dir@[bidx].slots@, old_ix.dir@[bidx].cap as int, w, k)
                ==> #[trigger] new_ix.state(k) is Miss,
            new_ix.state(kb) == (if new_ix.dir@[bidx].slots@[w].state == STATE_INLINE {
                DeltaState::Hit(new_ix.dir@[bidx].slots@[w].value->Some_0)
            } else {
                DeltaState::Tombstone
            }),
    {
        let b0 = old_ix.dir@[bidx];
        let b1 = new_ix.dir@[bidx];
        let s0 = b0.slots@;
        let s1 = b1.slots@;
        let c = b0.cap as int;
        assert(dbucket_wf(b0, bidx, old_ix.dir_bits));
        assert forall|x: int| 0 <= x < c && #[trigger] taken(s0, x) implies taken(s1, x) by {
            if x != w {
                assert(s1[x] == s0[x]);
            }
        }
        assert(has_key(s1, c, w, kb));
        // Every key other than `kb` sits where it sat, except at `w`.
        assert forall|x: int, k: Seq<u8>| k != kb && x != w implies (#[trigger] has_key(s1, c, x, k) <==> has_key(s0, c, x, k)) by {
            if 0 <= x < c && x != w {
                assert(s1[x] == s0[x]);
            }
        }
        assert forall|k: Seq<u8>| k != kb implies !#[trigger] has_key(s1, c, w, k) by {}
        assert(dbucket_wf(b1, bidx, new_ix.dir_bits)) by {
            assert forall|p: int| 0 <= p < c && #[trigger] taken(s1, p) implies {
                &&& s1[p].key is Some
                &&& (s1[p].state == STATE_INLINE || s1[p].state == STATE_TOMBSTONE)
                &&& (s1[p].state == STATE_INLINE ==> s1[p].value is Some)
                &&& s1[p].fp == fp_of(ahash_bytes(s1[p].key->Some_0.key_bytes()))
                &&& dir_of(ahash_bytes(s1[p].key->Some_0.key_bytes()), new_ix.dir_bits) == bidx
                &&& path_taken(s1, home_of(ahash_bytes(s1[p].key->Some_0.key_bytes()), b1.cap), dist(home_of(ahash_bytes(s1[p].key->Some_0.key_bytes()), b1.cap), p, c), c)
            } by {
                if p == w {
                    lemma_path_grows(s0, s1, home_of(ahash_bytes(kb), b0.cap), dist(home_of(ahash_bytes(kb), b0.cap), w, c), c);
                } else {
                    assert(s1[p] == s0[p]);
                    assert(taken(s0, p));
                    let hk = home_of(ahash_bytes(s0[p].key->Some_0.key_bytes()), b0.cap);
                    lemma_path_grows(s0, s1, hk, dist(hk, p, c), c);
                }
            }
            assert forall|p: int, q: int, k: Seq<u8>| has_key(s1, c, p, k) && has_key(s1, c, q, k) implies p == q by {
                if k != kb {
                    assert(!has_key(s1, c, w, k));
                    assert(has_key(s0, c, p, k) && has_key(s0, c, q, k));
                } else {
                    if p != w {
                        assert(s1[p] == s0[p]);
                        assert(has_key(s0, c, p, kb));
                        assert(has_key(s0, c, w, kb));
                    }
                    if q != w {
                        assert(s1[q] == s0[q]);
                        assert(has_key(s0, c, q, kb));
                        assert(has_key(s0, c, w, kb));
                    }
                }
            }
        }
        assert forall|j: int| 0 <= j < new_ix.dir@.len() implies (#[trigger] new_ix.dir@[j]).cap == new_ix.bucket_cap
            && dbucket_wf(new_ix.dir@[j], j, new_ix.dir_bits) by {
            if j != bidx {
                assert(new_ix.dir@[j] == old_ix.dir@[j]);
            }
        }
        assert(new_ix.wf());
        new_ix.lemma_state_at(kb, w);
        assert forall|k: Seq<u8>| k != kb && !has_key(s0, c, w, k) implies #[trigger] new_ix.state(k) == old_ix.state(k) by {
            old_ix.lemma_dir_in_range(ahash_bytes(k));
            let bk = dir_of(ahash_bytes(k), old_ix.dir_bits);
            if bk == bidx {
                if exists|x: int| has_key(s0, c, x, k) {
                    let x = choose|x: int| has_key(s0, c, x, k);
                    assert(x != w);
                    assert(has_key(s1, c, x, k));
                    assert(s1[x] == s0[x]);
                    old_ix.lemma_state_at(k, x);
                    new_ix.lemma_state_at(k, x);
                } else {
                    assert forall|x: int| !has_key(s1, c, x, k) by {
                        if has_key(s1, c, x, k) {
                            assert(x != w);
                            assert(has_key(s0, c, x, k));
                        }
                    }
                }
            } else {
                assert(new_ix.dir@[bk] == old_ix.dir@[bk]);
            }
        }
        assert forall|k: Seq<u8>| k != kb && has_key(s0, c, w, k) implies #[trigger] new_ix.state(k) is Miss by {
            let hk = ahash_bytes(s0[w].key->Some_0.key_bytes());
            assert(dir_of(hk, old_ix.dir_bits) == bidx);
            assert forall|x: int| !has_key(s1, c, x, k) by {
                if has_key(s1, c, x, k) {
                    assert(x != w);
                    assert(has_key(s0, c, x, k));
                }
            }
        }
    }

    /// Insert or update a key: the slot already holding it takes the value;
    /// an absent key takes the first tombstone of its probe sequence (the
    /// tombstoned key then reads as never written) or else the first free
    /// slot. Nothing changes when the key is absent and every slot of its
    /// bucket holds a live key.
    pub fn upsert(&mut self, key: K, val: V)
        requires
            old(self).wf(),
        ensures
            final(self).wf(),
            forall|kb: Seq<u8>| #[trigger] final(self).state(kb) == (
                if kb == key.key_bytes() && !(old(self).state(kb) is Miss && old(self).bucket_full(kb)) {
                    DeltaState::Hit(val)
                } else if old(self).state(key.key_bytes()) is Miss && old(self).evicted(key.key_bytes()) == Some(kb) {
                    DeltaState::Miss
                } else {
                    old(self).state(kb)
                }),
            old(self).state(key.key_bytes()) is Miss ==> (old(self).evicted(key.key_bytes()) matches Some(k2)
                ==> k2 != key.key_bytes() && old(self).state(k2) is Tombstone),
            final(self).cap_view() == old(self).cap_view(),
            final(self).dir_len() == old(self).dir_len(),
    {
        let ghost old_ix = *self;
        let ghost kb = key.key_bytes();
        let seed = hash64(&key);
        let bidx = self.bucket_index_from_hash(seed);
        let (found, free, tomb) = self.probe(bidx, seed, &key);
        let ghost b0 = self.dir@[bidx as int];
        let ghost c = b0.cap as int;
        let ghost s0 = b0.slots@;
        let ghost home = home_of(seed, b0.cap);
        proof {
            assert(dbucket_wf(b0, bidx as int, self.dir_bits));
            assert((seed & 0xFFu64) == seed % 256) by (bit_vector);
            assert(seed == ahash_bytes(kb));
            assert(dir_of(ahash_bytes(kb), self.dir_bits) == bidx);
            self.lemma_evicted(kb);
            if found is Some {
                self.lemma_state_at(kb, found->Some_0 as int);
                // A key present: no tombstone of another key matters.
            }
            if found is None {
                assert(old_ix.state(kb) is Miss);
                match tomb {
                    Some(t) => {
                        let j = dist(home, t as int, c);
                        assert(first_tomb(s0, home, c, j));
                        assert forall|j2: int| first_tomb(s0, home, c, j2) implies j2 == j by {
                            if j2 < j {
                                assert(!tomb_at(s0, home, c, j2));
                            }
                            if j < j2 {
                                assert(!tomb_at(s0, home, c, j));
                            }
                        }
                        assert(old_ix.evicted(kb) == Some(s0[t as int].key->Some_0.key_bytes()));
                    },
                    None => {
                        assert(old_ix.evicted(kb) is None);
                    },
                }
            }
        }
        let mut fp: u8 = (seed & 0xFF) as u8;
        if fp == 0 {
            fp = 1;
        }
        let w = match found {
            Some(p) => p,
            None => match tomb {
                Some(t) => t,
                None => match free {
                    Some(q) => q,
                    None => {
                        proof {
                            assert forall|p: int| 0 <= p < b0.cap implies #[trigger] live_slot(b0.slots@, p) by {
                                let j = dist(home, p, c);
                                assert(0 <= j < c);
                                assert(pos(home, j, c) == p);
                                assert forall|i: int| 0 <= i < j implies #[trigger] taken(s0, pos(home, i, c)) by {
                                    assert(0 <= pos(home, i, c) < c);
                                }
                                assert(path_taken(s0, home, j, c));
                                assert(!tomb_at(s0, home, c, j));
                                assert(taken(s0, p));
                            }
                            assert(old_ix.bucket_full(kb));
                        }
                        return;
                    },
                },
            },
        };
        proof {
            if found is Some {
                assert(has_key(b0.slots@, b0.cap as int, w as int, kb));
                assert(taken(b0.slots@, w as int));
            }
        }
        self.dir[bidx].slots.set(w, DSlot { key: Some(key), value: Some(val), state: STATE_INLINE, fp });
        proof {
            if found is Some {
                let h0 = home_of(ahash_bytes(b0.slots@[w as int].key->Some_0.key_bytes()), b0.cap);
                assert(h0 == home);
            }
            if found is None && tomb is Some {
                assert(tomb_at(s0, home, c, dist(home, w as int, c)));
            }
            Self::lemma_write(&old_ix, self, bidx as int, w as int, kb);
            assert forall|k: Seq<u8>| #[trigger] self.state(k) == (
                if k == kb && !(old_ix.state(k) is Miss && old_ix.bucket_full(k)) {
                    DeltaState::Hit(val)
                } else if old_ix.state(kb) is Miss && old_ix.evicted(kb) == Some(k) {
                    DeltaState::Miss
                } else {
                    old_ix.state(k)
                }) by {
                if k == kb {
                    if found is None {
                        if tomb is Some {
                            assert(tomb_at(s0, home, c, dist(home, w as int, c)));
                            assert(s0[w as int].state == STATE_TOMBSTONE);
                        }
                        assert(!(taken(s0, w as int) && s0[w as int].state == STATE_INLINE));
                        let bb = old_ix.dir@[dir_of(ahash_bytes(kb), old_ix.dir_bits)];
                        assert(bb == b0);
                        assert(!(taken(bb.slots@, w as int) && bb.slots@[w as int].state == STATE_INLINE));
                        assert((w as int) < bb.cap);
                        assert(!live_slot(bb.slots@, w as int));
                        assert(!old_ix.bucket_full(kb));
                    }
                } else {
                    if found is None && tomb is Some {
                        assert(tomb_at(s0, home, c, dist(home, w as int, c)));
                        assert(taken(s0, w as int));
                        assert(s0[w as int].key is Some);
                        assert(old_ix.evicted(kb) == Some(s0[w as int].key->Some_0.key_bytes()));
                        if has_key(s0, c, w as int, k) {
                            assert(old_ix.evicted(kb) == Some(k));
                        } else {
                            assert(k != s0[w as int].key->Some_0.key_bytes());
                            assert(old_ix.evicted(kb) != Some(k));
                        }
                    } else {
                        assert(!has_key(s0, c, w as int, k));
                    }
                }
            }
        }
    }

    /// The key an upsert of `kb` would evict holds a tombstone, and is not `kb`.
    proof fn lemma_evicted(&self, kb: Seq<u8>)
        requires
            self.wf(),
        ensures
            self.state(kb) is Miss ==> (self.evicted(kb) matches Some(k2) ==> k2 != kb && self.state(k2) is Tombstone),
    {
        let i = dir_of(ahash_bytes(kb), self.dir_bits);
        self.lemma_dir_in_range(ahash_bytes(kb));
        let b = self.dir@[i];
        let c = b.cap as int;
        let home = home_of(ahash_bytes(kb), b.cap);
        assert(dbucket_wf(b, i, self.dir_bits));
        if exists|j: int| first_tomb(b.slots@, home, c, j) {
            let j = choose|j: int| first_tomb(b.slots@, home, c, j);
            let p = pos(home, j, c);
            assert(0 <= p < c);
            assert(taken(b.slots@, p));
            let k2 = b.slots@[p].key->Some_0.key_bytes();
            assert(has_key(b.slots@, c, p, k2));
            assert(dir_of(ahash_bytes(k2), self.dir_bits) == i);
            self.lemma_state_at(k2, p);
            if k2 == kb {
                self.lemma_state_at(kb, p);
            }
        }
    }

    /// Delete a key: the slot holding it becomes a tombstone that keeps the
    /// key; a key never written gets a tombstone in the first free slot of
    /// its probe sequence, so that it reads as deleted. Nothing changes for
    /// an absent key when every slot of its bucket has been taken.
    pub fn delete(&mut self, key: &K)
        requires
            old(self).wf(),
        ensures
            final(self).wf(),
            forall|kb: Seq<u8>| #[trigger] final(self).state(kb) == (
                if kb == key.key_bytes() && !(old(self).state(kb) is Miss && old(self).bucket_taken(kb)) {
                    DeltaState::Tombstone
                } else {
                    old(self).state(kb)
                }),
            final(self).cap_view() == old(self).cap_view(),
            final(self).dir_len() == old(self).dir_len(),
    {
        let ghost old_ix = *self;
        let ghost kb = key.key_bytes();
        let seed = hash64(key);
        let bidx = self.bucket_index_from_hash(seed);
        let (found, free, _) = self.probe(bidx, seed, key);
        let ghost b0 = self.dir@[bidx as int];
        proof {
            assert(dbucket_wf(b0, bidx as int, self.dir_bits));
            assert(seed == ahash_bytes(kb));
            assert(dir_of(ahash_bytes(kb), self.dir_bits) == bidx);
            assert((seed & 0xFFu64) == seed % 256) by (bit_vector);
        }
        match found {
            Some(p) => {
                let fp = self.dir[bidx].slots[p].fp;
                let k = key.clone_key();
                self.dir[bidx].slots.set(p, DSlot { key: Some(k), value: None, state: STATE_TOMBSTONE, fp });
                proof {
                    assert(has_key(b0.slots@, b0.cap as int, p as int, kb));
                    assert(taken(b0.slots@, p as int));
                    Self::lemma_write(&old_ix, self, bidx as int, p as int, kb);
                }
            },
            None => {
                proof {
                    assert(old_ix.state(kb) is Miss);
                }
                match free {
                    Some(q) => {
                        let mut fp: u8 = (seed & 0xFF) as u8;
                        if fp == 0 {
                            fp = 1;
                        }
                        let k = key.clone_key();
                        self.dir[bidx].slots.set(q, DSlot { key: Some(k), value: None, state: STATE_TOMBSTONE, fp });
                        proof {
                            Self::lemma_write(&old_ix, self, bidx as int, q as int, kb);
                            let bb = old_ix.dir@[dir_of(ahash_bytes(kb), old_ix.dir_bits)];
                            assert(bb == b0);
                            assert(!old_ix.bucket_taken(kb)) by {
                                assert(!taken(bb.slots@, q as int));
                            }
                        }
                    },
                    None => {
                        proof {
                            assert(old_ix.bucket_taken(kb));
                        }
                    },
                }
            },
        }
    }

    /// The overlay's state of a key, given a precomputed hash seed.
    pub fn get_ref_hashed<'a>(&'a self, key: &K, seed: u64) -> (r: DeltaState<&'a V>)
        requires
            self.wf(),
        ensures
            seed == key_hash(*key) ==> match r {
                DeltaState::Hit(x) => self.state(key.key_bytes()) == DeltaState::Hit(*x),
                DeltaState::Tombstone => self.state(key.key_bytes()) is Tombstone,
                DeltaState::Miss => self.state(key.key_bytes()) is Miss,
            },
    {
        let bidx = self.bucket_index_from_hash(seed);
        let (found, _, _) = self.probe(bidx, seed, key);
        proof {
            assert(dbucket_wf(self.dir@[bidx as int], bidx as int, self.dir_bits));
        }
        match found {
            Some(p) => {
                proof {
                    if seed == key_hash(*key) {
                        self.lemma_state_at(key.key_bytes(), p as int);
                    }
                }
                let slot = &self.dir[bidx].slots[p];
                if slot.state == STATE_INLINE {
                    match &slot.value {
                        Some(v) => DeltaState::Hit(v),
                        None => DeltaState::Miss,
                    }
                } else {
                    DeltaState::Tombstone
                }
            },
            None => DeltaState::Miss,
        }
    }

    /// The overlay's state of a key.
    pub fn get_ref<'a>(&'a self, key: &K) -> (r: DeltaState<&'a V>)
        requires
            self.wf(),
        ensures
            match r {
                DeltaState::Hit(x) => self.state(key.key_bytes()) == DeltaState::Hit(*x),
                DeltaState::Tombstone => self.state(key.key_bytes()) is Tombstone,
                DeltaState::Miss => self.state(key.key_bytes()) is Miss,
            },
    {
        let seed = hash64(key);
        self.get_ref_hashed(key, seed)
    }

    /// Overlay value of a key with a precomputed hash seed: `Some(Some(v))`
    /// for a value, `Some(None)` for a tombstone, `None` when absent.
    pub fn get_hashed(&self, key: &K, seed: u64) -> (r: Option<Option<std::sync::Arc<V>>>)
        where V: Clone
        requires
            self.wf(),
        ensures
            seed == key_hash(*key) ==> {
                &&& (r is None <==> self.state(key.key_bytes()) is Miss)
                &&& (r == Some(None::<std::sync::Arc<V>>) <==> self.state(key.key_bytes()) is Tombstone)
                &&& (r matches Some(Some(a)) ==> self.state(key.key_bytes()) is Hit
                    && cloned(self.state(key.key_bytes())->Hit_0, *a))
            },
    {
        match self.get_ref_hashed(key, seed) {
            DeltaState::Hit(v) => Some(Some(std::sync::Arc::new(v.clone()))),
            DeltaState::Tombstone => Some(None),
            DeltaState::Miss => None,
        }
    }

    /// Overlay value of a key: `Some(Some(v))` for a value, `Some(None)` for
    /// a tombstone, `None` when absent.
    pub fn get(&self, key: &K) -> (r: Option<Option<std::sync::Arc<V>>>)
        where V: Clone
        requires
            self.wf(),
        ensures
            r is None <==> self.state(key.key_bytes()) is Miss,
            r == Some(None::<std::sync::Arc<V>>) <==> self.state(key.key_bytes()) is Tombstone,
            r matches Some(Some(a)) ==> self.state(key.key_bytes()) is Hit
                && cloned(self.state(key.key_bytes())->Hit_0, *a),
    {
        let seed = hash64(key);
        self.get_hashed(key, seed)
    }

    /// Clear every entry: each bucket starts over with its slots free.
    pub fn clear_all(&mut self)
        requires
            old(self).wf(),
        ensures
            final(self).wf(),
            forall|kb: Seq<u8>| #[trigger] final(self).state(kb) is Miss,
            forall|kb: Seq<u8>| !#[trigger] final(self).bucket_full(kb),
            final(self).cap_view() == old(self).cap_view(),
            final(self).dir_len() == old(self).dir_len(),
    {
        let n = self.dir.len();
        let cap = self.bucket_cap;
        let mut i: usize = 0;
        while i < n
            invariant
                n == self.dir@.len(),
                cap == self.bucket_cap,
                i <= n,
                self.dir_bits == old(self).dir_bits,
                self.dir_mask == old(self).dir_mask,
                self.bucket_cap == old(self).bucket_cap,
                self.dir@.len() == old(self).dir@.len(),
                old(self).wf(),
                forall|j: int| 0 <= j < n ==> (#[trigger] self.dir@[j]).cap == cap && dbucket_wf(self.dir@[j], j, self.dir_bits),
                forall|j: int| #![trigger self.dir@[j]] 0 <= j < i ==> forall|p: int| 0 <= p < cap ==> !#[trigger] taken(self.dir@[j].slots@, p),
            decreases n - i,
        {
            proof {
                assert(dbucket_wf(self.dir@[i as int], i as int, self.dir_bits));
            }
            let mut slots: Vec<DSlot<K, V>> = Vec::new();
            let mut p: usize = 0;
            while p < cap
                invariant
                    p <= cap,
                    slots@.len() == p,
                    forall|q: int| 0 <= q < p ==> !#[trigger] taken(slots@, q),
                decreases cap - p,
            {
                let ghost s0 = slots@;
                slots.push(DSlot { key: None, value: None, state: STATE_NONE, fp: 0 });
                proof {
                    assert forall|q: int| 0 <= q < p + 1 implies !#[trigger] taken(slots@, q) by {
                        if q < p {
                            assert(slots@[q] == s0[q]);
                            assert(!taken(s0, q));
                        }
                    }
                }
                p = p + 1;
            }
            self.dir.set(i, DBucket { slots, cap });
            proof {
                let b = self.dir@[i as int];
                assert forall|pp: int, q: int, kb: Seq<u8>| has_key(b.slots@, cap as int, pp, kb) && has_key(b.slots@, cap as int, q, kb) implies pp == q by {
                    assert(!taken(b.slots@, pp));
                }
                assert(dbucket_wf(b, i as int, self.dir_bits));
            }
            i = i + 1;
        }
        proof {
            lemma_pow2_mask(self.bucket_cap);
            assert forall|kb: Seq<u8>| !#[trigger] self.bucket_full(kb) by {
                self.lemma_dir_in_range(ahash_bytes(kb));
                let b = self.dir@[dir_of(ahash_bytes(kb), self.dir_bits)];
                assert(!taken(b.slots@, 0));
                assert(!live_slot(b.slots@, 0));
            }
            assert forall|kb: Seq<u8>| #[trigger] self.state(kb) is Miss by {
                self.lemma_dir_in_range(ahash_bytes(kb));
                let b = self.dir@[dir_of(ahash_bytes(kb), self.dir_bits)];
                assert forall|p: int| !has_key(b.slots@, b.cap as int, p, kb) by {
                    if 0 <= p < b.cap {
                        assert(!taken(b.slots@, p));
                    }
                }
            }
        }
    }
}

} // verus!
