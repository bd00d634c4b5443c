//! Radix delta index with fixed-capacity buckets and mask-driven visibility.
//!
//! Each bucket has 64 record slots, a 64-bit mask whose set bits are the live
//! slots, and an 8-bit tag per slot. A key is placed in the first free slot
//! found walking (and wrapping) from a preferred slot taken from its hash; an
//! update writes a new slot and swaps the two mask bits; a delete clears the
//! key's bit.
use vstd::prelude::*;
use crate::ids::IndexKey;
use crate::mph_delta_index::util::{
    hash64, key_hash, fpn_from_hash, spec_fpn, tag8_from_hash_disjoint, spec_tag8_disjoint,
    preferred_slot_from_hash, spec_preferred_slot,
};
use crate::mph_delta_index::radix_index::{RadixIndex, bucket_of, tag_of};
use crate::mph_delta_index::radix_stats::{RadixIndexStats, BucketStats, depth_sum, nonzero_count, is_max_depth, is_min_nonzero_depth};
use crate::mph_delta_index::arena::{Arena, ArenaStats, MAX_REASONABLE_SIZE};

verus! {

/// Slots per bucket (one bit each in the mask).
pub const MAX_BUCKET_SLOTS: usize = 64;

/// Bits of a slot index.
pub const SLOT_BITS: u32 = 6;

/// Slot `s` is live in `mask`.
pub open spec fn slot_live(mask: u64, s: int) -> bool {
    (mask >> (s as u64)) & 1u64 == 1u64
}

proof fn lemma_bit_set(m: u64, s: u64, i: u64)
    by (bit_vector)
    requires
        s < 64,
        i < 64,
    ensures
        ((m | (1u64 << s)) >> i) & 1u64 == 1u64 <==> (i == s || (m >> i) & 1u64 == 1u64),
{
}

proof fn lemma_bit_clear(m: u64, s: u64, i: u64)
    by (bit_vector)
    requires
        s < 64,
        i < 64,
    ensures
        ((m & !(1u64 << s)) >> i) & 1u64 == 1u64 <==> (i != s && (m >> i) & 1u64 == 1u64),
{
}

proof fn lemma_bit_swap(m: u64, s: u64, t: u64, i: u64)
    by (bit_vector)
    requires
        s < 64,
        t < 64,
        i < 64,
    ensures
        (((m | (1u64 << s)) & !(1u64 << t)) >> i) & 1u64 == 1u64 <==> (i != t && (i == s || (m >> i) & 1u64 == 1u64)),
{
}

proof fn lemma_bit_zero(i: u64)
    by (bit_vector)
    requires
        i < 64,
    ensures
        (0u64 >> i) & 1u64 != 1u64,
{
}

proof fn lemma_bit_full(i: u64)
    by (bit_vector)
    requires
        i < 64,
    ensures
        (0xFFFF_FFFF_FFFF_FFFFu64 >> i) & 1u64 == 1u64,
{
}

/// A record slot's contents: its kind (0 for an upsert), key and value.
struct SlotRec<K, V> {
    kind: u8,
    key: K,
    value: V,
}

/// One bucket: its record slots, their tags, and the mask of live slots.
struct BucketV2<K, V> {
    recs: Vec<Option<SlotRec<K, V>>>,
    tags: Vec<u8>,
    mask: u64,
}

/// Slot `s` of `b` is live and holds a record of the key with bytes `kb`.
spec fn holds_key<K: IndexKey, V>(b: BucketV2<K, V>, s: int, kb: Seq<u8>) -> bool {
    &&& 0 <= s < 64
    &&& slot_live(b.mask, s)
    &&& b.recs@[s] matches Some(r) && r.key.key_bytes() == kb
}

/// Number of live slots among the first `n`.
pub open spec fn live_below(mask: u64, n: int) -> nat
    decreases n,
{
    if n <= 0 {
        0
    } else {
        live_below(mask, n - 1) + if slot_live(mask, n - 1) { 1nat } else { 0nat }
    }
}

/// Changing whether slot `t` is live, and no other, changes the live count
/// below `n` by that slot alone.
proof fn lemma_live_change(m1: u64, m2: u64, t: int, n: int)
    requires
        0 <= t < 64,
        0 <= n <= 64,
        forall|i: int| 0 <= i < 64 && i != t ==> (slot_live(m2, i) <==> slot_live(m1, i)),
    ensures
        live_below(m2, n) + (if t < n && slot_live(m1, t) { 1int } else { 0int })
            == live_below(m1, n) + (if t < n && slot_live(m2, t) { 1int } else { 0int }),
    decreases n,
{
    if n > 0 {
        lemma_live_change(m1, m2, t, n - 1);
    }
}

/// A mask with no live slot below `n` counts none there.
proof fn lemma_live_below_none(m: u64, n: int)
    requires
        0 <= n <= 64,
        forall|i: int| 0 <= i < n ==> !slot_live(m, i),
    ensures
        live_below(m, n) == 0,
    decreases n,
{
    if n > 0 {
        lemma_live_below_none(m, n - 1);
    }
}

/// The live count below `n` is at most `n`, and reaches it exactly when
/// every slot below `n` is live.
proof fn lemma_live_below_all(m: u64, n: int)
    requires
        0 <= n,
    ensures
        live_below(m, n) <= n,
        live_below(m, n) == n <==> forall|i: int| 0 <= i < n ==> slot_live(m, i),
    decreases n,
{
    if n > 0 {
        lemma_live_below_all(m, n - 1);
        if live_below(m, n) == n {
            assert forall|i: int| 0 <= i < n implies slot_live(m, i) by {
                if i < n - 1 {
                }
            }
        }
    }
}

/// Well formed bucket `i`: every live slot holds an upsert record of a key
/// that falls in this bucket, with that key's tag, and no key is live twice.
spec fn bucket_v2_wf<K: IndexKey, V>(b: BucketV2<K, V>, i: int, bits: u32) -> bool {
    &&& b.recs@.len() == 64
    &&& b.tags@.len() == 64
    &&& forall|s: int| 0 <= s < 64 && slot_live(b.mask, s) ==> {
        &&& (#[trigger] b.recs@[s]) is Some
        &&& b.recs@[s]->Some_0.kind == 0
        &&& bucket_of(b.recs@[s]->Some_0.key.key_bytes(), bits) == i
        &&& b.tags@[s] == tag_of(b.recs@[s]->Some_0.key.key_bytes(), bits)
    }
    &&& forall|s: int, t: int, kb: Seq<u8>| holds_key(b, s, kb) && holds_key(b, t, kb) ==> s == t
}

/// Radix delta index with fixed-capacity buckets and mask-driven visibility.
pub struct RadixIndexV2<K, V> {
    buckets: Vec<BucketV2<K, V>>,
    bucket_bits: u32,
    bucket_slots: usize,
    slot_bits: u32,
    /// Accounts for the record arrays of the buckets.
    arena: Arena,
}

impl<K: IndexKey, V: Copy> RadixIndexV2<K, V> {
    /// Number of bits used for bucket indexing.
    pub closed spec fn bits_view(&self) -> u32 {
        self.bucket_bits
    }

    /// Number of buckets.
    pub closed spec fn bucket_count_view(&self) -> nat {
        self.buckets@.len()
    }

    /// The counters of the arena that accounts for the buckets' record arrays.
    pub closed spec fn arena_view(&self) -> ArenaStats {
        self.arena.stats_view()
    }

    /// The mask of bucket `i`.
    pub closed spec fn mask_view(&self, i: int) -> u64 {
        self.buckets@[i].mask
    }

    /// The value held for the key with bytes `kb`, if any.
    pub closed spec fn entry(&self, kb: Seq<u8>) -> Option<V> {
        let b = self.buckets@[bucket_of(kb, self.bucket_bits)];
        if exists|s: int| holds_key(b, s, kb) {
            Some(b.recs@[choose|s: int| holds_key(b, s, kb)]->Some_0.value)
        } else {
            None
        }
    }

    /// The keys that have an entry.
    pub open spec fn entry_keys(&self) -> Set<Seq<u8>> {
        Set::new(|kb: Seq<u8>| self.entry(kb) is Some)
    }

    /// Every slot of the bucket that the key with bytes `kb` falls in is live.
    pub closed spec fn bucket_full(&self, kb: Seq<u8>) -> bool {
        forall|s: int| 0 <= s < 64 ==> slot_live(self.buckets@[bucket_of(kb, self.bucket_bits)].mask, s)
    }

    /// Number of live slots in the bucket that the key with bytes `kb`
    /// falls in.
    pub closed spec fn live_count(&self, kb: Seq<u8>) -> nat {
        live_below(self.buckets@[bucket_of(kb, self.bucket_bits)].mask, 64)
    }

    /// The live count of a key's bucket is that of its mask.
    pub proof fn lemma_live_count_mask(&self, kb: Seq<u8>)
        ensures
            self.live_count(kb) == live_below(self.mask_view(bucket_of(kb, self.bits_view())), 64),
    {
    }

    /// A bucket is full exactly when all 64 of its slots are live, and it
    /// never has more.
    pub proof fn lemma_full_iff_count(&self, kb: Seq<u8>)
        ensures
            self.live_count(kb) <= 64,
            self.bucket_full(kb) <==> self.live_count(kb) == 64,
    {
        lemma_live_below_all(self.buckets@[bucket_of(kb, self.bucket_bits)].mask, 64);
    }

    /// Buckets in number and shape.
    pub closed spec fn wf(&self) -> bool {
        &&& self.bucket_bits < 56
        &&& self.bucket_bits < usize::BITS
        &&& self.buckets@.len() == (1usize << self.bucket_bits)
        &&& self.bucket_slots == MAX_BUCKET_SLOTS
        &&& self.slot_bits == SLOT_BITS
        &&& forall|i: int| 0 <= i < self.buckets@.len() ==> bucket_v2_wf(#[trigger] self.buckets@[i], i, self.bucket_bits)
    }

    /// Every key falls in an existing bucket.
    proof fn lemma_bucket_in_range(&self, kb: Seq<u8>)
        requires
            self.wf(),
        ensures
            0 <= bucket_of(kb, self.bucket_bits) < self.buckets@.len(),
    {
        let h = crate::mph_delta_index::util::ahash_bytes(kb);
        let n = self.bucket_bits;
        assert((h as usize & (((1usize << n) - 1) as usize)) < (1usize << n)) by (bit_vector)
            requires n < usize::BITS;
    }

    /// The entry of `kb` is the value at the live slot holding it.
    proof fn lemma_entry_at(&self, kb: Seq<u8>, s: int)
        requires
            self.wf(),
            holds_key(self.buckets@[bucket_of(kb, self.bucket_bits)], s, kb),
        ensures
            self.entry(kb) == Some(self.buckets@[bucket_of(kb, self.bucket_bits)].recs@[s]->Some_0.value),
    {
        let bi = bucket_of(kb, self.bucket_bits);
        self.lemma_bucket_in_range(kb);
        let b = self.buckets@[bi];
        assert(bucket_v2_wf(b, bi, self.bucket_bits));
        let c = choose|t: int| holds_key(b, t, kb);
        assert(holds_key(b, c, kb));
        assert(c == s);
    }

    /// Create an empty index for a target number of keys: about eight keys
    /// per bucket, rounded up to a power of two, at least two buckets.
    pub fn with_capacity(target_capacity: usize, _max_capacity: usize) -> (r: Self)
        requires
            target_capacity / 8 <= 0x0080_0000_0000_0000,
        ensures
            r.wf(),
            forall|kb: Seq<u8>| #[trigger] r.entry(kb) is None,
            forall|kb: Seq<u8>| !#[trigger] r.bucket_full(kb),
            forall|kb: Seq<u8>| #[trigger] r.live_count(kb) == 0,
            r.bucket_count_view() == (1usize << r.bits_view()),
            r.bucket_count_view() >= 2,
            r.bucket_count_view() >= target_capacity / 8,
            r.bucket_count_view() == 2 || r.bucket_count_view() / 2 < target_capacity / 8,
    {
        let (bucket_count, bucket_bits) = RadixIndex::<K, V>::calculate_buckets(target_capacity);
        proof {
            let b = bucket_bits;
            if b >= 56 {
                assert(usize::BITS == 64);
                assert((1usize << b) as u64 >= 0x0100_0000_0000_0000u64) by (bit_vector)
                    requires
                        56 <= b < 64,
                        usize::BITS == 64,
                ;
            }
        }
        // Each bucket's array of 64 records is accounted in a 64 KiB-region
        // arena, as one request of 64 records' size at the record alignment.
        let mut arena = Arena::new(65536);
        let rec_size = core::mem::size_of::<SlotRec<K, V>>();
        let rec_align = core::mem::align_of::<SlotRec<K, V>>();
        let account = rec_size <= MAX_REASONABLE_SIZE / MAX_BUCKET_SLOTS && rec_align <= usize::MAX / 2 + 1
            && crate::pow2::next_power_of_two(if rec_align <= usize::MAX / 2 + 1 { rec_align } else { 1 }) == rec_align;
        let bucket_bytes: usize = if rec_size <= MAX_REASONABLE_SIZE / MAX_BUCKET_SLOTS { rec_size * MAX_BUCKET_SLOTS } else { 0 };
        let mut buckets: Vec<BucketV2<K, V>> = Vec::new();
        let mut i: usize = 0;
        while i < bucket_count
            invariant
                arena.wf(),
                account ==> crate::pow2::is_pow2(rec_align) && bucket_bytes <= MAX_REASONABLE_SIZE,
                i <= bucket_count,
                buckets@.len() == i,
                forall|j: int| 0 <= j < i ==> (#[trigger] buckets@[j]).mask == 0
                    && buckets@[j].recs@.len() == 64 && buckets@[j].tags@.len() == 64,
            decreases bucket_count - i,
        {
            let mut recs: Vec<Option<SlotRec<K, V>>> = Vec::new();
            let mut tags: Vec<u8> = Vec::new();
            let mut s: usize = 0;
            while s < MAX_BUCKET_SLOTS
                invariant
                    s <= MAX_BUCKET_SLOTS,
                    recs@.len() == s,
                    tags@.len() == s,
                decreases MAX_BUCKET_SLOTS - s,
            {
                recs.push(None);
                tags.push(0);
                s = s + 1;
            }
            if account {
                let _ = arena.alloc_bytes(bucket_bytes, rec_align);
            }
            buckets.push(BucketV2 { recs, tags, mask: 0 });
            i = i + 1;
        }
        let r = RadixIndexV2 { buckets, bucket_bits, bucket_slots: MAX_BUCKET_SLOTS, slot_bits: SLOT_BITS, arena };
        proof {
            assert forall|j: int| 0 <= j < r.buckets@.len() implies bucket_v2_wf(#[trigger] r.buckets@[j], j, r.bucket_bits) by {
                let b = r.buckets@[j];
                assert forall|s: int| 0 <= s < 64 implies !slot_live(b.mask, s) by {
                    lemma_bit_zero(s as u64);
                }
            }
            assert forall|kb: Seq<u8>| !#[trigger] r.bucket_full(kb) by {
                r.lemma_bucket_in_range(kb);
                lemma_bit_zero(0);
                assert(!slot_live(r.buckets@[bucket_of(kb, r.bucket_bits)].mask, 0));
            }
            assert forall|kb: Seq<u8>| #[trigger] r.live_count(kb) == 0 by {
                r.lemma_bucket_in_range(kb);
                let m = r.buckets@[bucket_of(kb, r.bucket_bits)].mask;
                assert forall|i: int| 0 <= i < 64 implies !slot_live(m, i) by {
                    lemma_bit_zero(i as u64);
                }
                lemma_live_below_none(m, 64);
            }
            assert forall|kb: Seq<u8>| #[trigger] r.entry(kb) is None by {
                r.lemma_bucket_in_range(kb);
                let b = r.buckets@[bucket_of(kb, r.bucket_bits)];
                assert forall|s: int| !holds_key(b, s, kb) by {
                    if 0 <= s < 64 {
                        lemma_bit_zero(s as u64);
                    }
                }
            }
        }
        r
    }

    /// Bucket of a hash.
    fn bucket_index(&self, h: u64) -> (r: usize)
        requires
            self.wf(),
        ensures
            r == spec_fpn(h, self.bits_view()),
            r < self.buckets@.len(),
    {
        fpn_from_hash(h, self.bucket_bits)
    }

    /// 8-bit tag of a hash, from bits above the bucket bits.
    fn tag8(&self, h: u64) -> (r: u8)
        requires
            self.wf(),
        ensures
            r == spec_tag8_disjoint(h, self.bits_view()),
    {
        tag8_from_hash_disjoint(h, self.bucket_bits)
    }

    /// Preferred slot of a hash, from bits above the bucket and tag bits.
    fn preferred_slot(&self, h: u64) -> (r: usize)
        requires
            self.wf(),
        ensures
            r == spec_preferred_slot(h, self.bits_view(), SLOT_BITS),
            r < 64,
    {
        assert((1u64 << 6u32) == 64u64) by (bit_vector);
        preferred_slot_from_hash(h, self.bucket_bits, self.slot_bits)
    }

    /// The first slot not live in `mask`, walking from `start` and wrapping;
    /// `None` when every slot is live.
    fn find_empty_slot(&self, mask: u64, start: usize) -> (r: Option<usize>)
        requires
            self.wf(),
            start < 64,
        ensures
            r matches Some(s) ==> s < 64 && !slot_live(mask, s as int),
            r is None ==> forall|s: int| 0 <= s < 64 ==> slot_live(mask, s),
    {
        if mask == 0xFFFF_FFFF_FFFF_FFFFu64 {
            proof {
                assert forall|s: int| 0 <= s < 64 implies slot_live(mask, s) by {
                    lemma_bit_full(s as u64);
                }
            }
            return None;
        }
        let mut slot = start;
        let mut k: usize = 0;
        while k < self.bucket_slots
            invariant
                self.wf(),
                start < 64,
                k <= 64,
                slot == (if start + k < 64 { start + k } else { start + k - 64 }),
                forall|s: int| 0 <= s < 64 && ((start <= s < start + k) || s < start + k - 64) ==> slot_live(mask, s),
            decreases 64 - k,
        {
            if (mask >> (slot as u64)) & 1 != 1 {
                return Some(slot);
            }
            slot = if slot + 1 == self.bucket_slots { 0 } else { slot + 1 };
            k = k + 1;
        }
        None
    }

    /// The live slot of bucket `bidx` holding `key` with tag `tag`, walking
    /// from `start` and wrapping.
    fn find_slot_by_key(&self, bidx: usize, mask: u64, start: usize, tag: u8, key: &K) -> (r: Option<usize>)
        requires
            self.wf(),
            bidx < self.buckets@.len(),
            mask == self.buckets@[bidx as int].mask,
            start < 64,
        ensures
            r matches Some(s) ==> s < 64 && holds_key(self.buckets@[bidx as int], s as int, key.key_bytes())
                && self.buckets@[bidx as int].tags@[s as int] == tag,
            r is None ==> forall|s: int| #[trigger] holds_key(self.buckets@[bidx as int], s, key.key_bytes())
                ==> self.buckets@[bidx as int].tags@[s] != tag,
    {
        let ghost b = self.buckets@[bidx as int];
        proof {
            assert(bucket_v2_wf(b, bidx as int, self.bucket_bits));
        }
        let mut slot = start;
        let mut k: usize = 0;
        while k < self.bucket_slots
            invariant
                self.wf(),
                b == self.buckets@[bidx as int],
                bidx < self.buckets@.len(),
                mask == b.mask,
                b.recs@.len() == 64,
                b.tags@.len() == 64,
                start < 64,
                k <= 64,
                slot == (if start + k < 64 { start + k } else { start + k - 64 }),
                forall|s: int| 0 <= s < 64 && ((start <= s < start + k) || s < start + k - 64)
                    && #[trigger] holds_key(b, s, key.key_bytes()) ==> b.tags@[s] != tag,
            decreases 64 - k,
        {
            if (mask >> (slot as u64)) & 1 == 1 {
                if self.buckets[bidx].tags[slot] == tag {
                    match &self.buckets[bidx].recs[slot] {
                        Some(rec) => {
                            if key.same_key(&rec.key) {
                                return Some(slot);
                            }
                        },
                        None => {},
                    }
                }
            }
            slot = if slot + 1 == self.bucket_slots { 0 } else { slot + 1 };
            k = k + 1;
        }
        None
    }

    /// Clear all buckets.
    pub fn clear_all(&mut self)
        requires
            old(self).wf(),
        ensures
            final(self).wf(),
            forall|kb: Seq<u8>| #[trigger] final(self).entry(kb) is None,
            forall|kb: Seq<u8>| !#[trigger] final(self).bucket_full(kb),
            forall|kb: Seq<u8>| #[trigger] final(self).live_count(kb) == 0,
            final(self).bits_view() == old(self).bits_view(),
            final(self).bucket_count_view() == old(self).bucket_count_view(),
    {
        let n = self.buckets.len();
        let mut i: usize = 0;
        while i < n
            invariant
                n == self.buckets@.len(),
                i <= n,
                self.bucket_bits == old(self).bucket_bits,
                self.bucket_slots == old(self).bucket_slots,
                self.slot_bits == old(self).slot_bits,
                self.buckets@.len() == old(self).buckets@.len(),
                old(self).wf(),
                forall|j: int| 0 <= j < n ==> bucket_v2_wf(#[trigger] self.buckets@[j], j, self.bucket_bits),
                forall|j: int| 0 <= j < i ==> (#[trigger] self.buckets@[j]).mask == 0,
            decreases n - i,
        {
            self.buckets[i].mask = 0;
            proof {
                let b = self.buckets@[i as int];
                assert forall|s: int| 0 <= s < 64 implies !slot_live(b.mask, s) by {
                    lemma_bit_zero(s as u64);
                }
                assert(bucket_v2_wf(b, i as int, self.bucket_bits));
            }
            i = i + 1;
        }
        proof {
            assert forall|kb: Seq<u8>| !#[trigger] self.bucket_full(kb) by {
                self.lemma_bucket_in_range(kb);
                lemma_bit_zero(0);
                assert(!slot_live(self.buckets@[bucket_of(kb, self.bucket_bits)].mask, 0));
            }
            assert forall|kb: Seq<u8>| #[trigger] self.live_count(kb) == 0 by {
                self.lemma_bucket_in_range(kb);
                let m = self.buckets@[bucket_of(kb, self.bucket_bits)].mask;
                assert forall|i: int| 0 <= i < 64 implies !slot_live(m, i) by {
                    lemma_bit_zero(i as u64);
                }
                lemma_live_below_none(m, 64);
            }
            assert forall|kb: Seq<u8>| #[trigger] self.entry(kb) is None by {
                self.lemma_bucket_in_range(kb);
                let b = self.buckets@[bucket_of(kb, self.bucket_bits)];
                assert forall|s: int| !holds_key(b, s, kb) by {
                    if 0 <= s < 64 {
                        lemma_bit_zero(s as u64);
                    }
                }
            }
        }
    }

    /// Reference to the value for a key with a precomputed hash.
    pub fn get_with_hash<'a>(&'a self, key: &K, hash: u64) -> (r: Option<&'a V>)
        requires
            self.wf(),
        ensures
            hash == key_hash(*key) ==> match self.entry(key.key_bytes()) {
                Some(v) => r == Some(&v),
                None => r is None,
            },
    {
        let bidx = self.bucket_index(hash);
        let mask = self.buckets[bidx].mask;
        let ghost kb = key.key_bytes();
        let ghost b = self.buckets@[bidx as int];
        proof {
            assert(bucket_v2_wf(b, bidx as int, self.bucket_bits));
        }
        if mask == 0 {
            proof {
                if hash == key_hash(*key) {
                    assert forall|s: int| !holds_key(b, s, kb) by {
                        if 0 <= s < 64 {
                            lemma_bit_zero(s as u64);
                        }
                    }
                }
            }
            return None;
        }
        let preferred = self.preferred_slot(hash);
        let tag = self.tag8(hash);
        match self.find_slot_by_key(bidx, mask, preferred, tag, key) {
            Some(slot) => {
                proof {
                    if hash == key_hash(*key) {
                        self.lemma_entry_at(kb, slot as int);
                    }
                }
                match &self.buckets[bidx].recs[slot] {
                    Some(rec) => {
                        if rec.kind == 0 {
                            Some(&rec.value)
                        } else {
                            None
                        }
                    },
                    None => None,
                }
            },
            None => {
                proof {
                    if hash == key_hash(*key) {
                        assert forall|s: int| !holds_key(b, s, kb) by {
                            if holds_key(b, s, kb) {
                                assert(b.recs@[s] is Some);
                            }
                        }
                    }
                }
                None
            },
        }
    }

    /// Reference to the value for a key.
    pub fn get<'a>(&'a self, key: &K) -> (r: Option<&'a V>)
        requires
            self.wf(),
        ensures
            match self.entry(key.key_bytes()) {
                Some(v) => r == Some(&v),
                None => r is None,
            },
    {
        let h = hash64(key);
        self.get_with_hash(key, h)
    }

    /// Copy of the value for a key.
    pub fn get_copy(&self, key: &K) -> (r: Option<V>)
        requires
            self.wf(),
        ensures
            r == self.entry(key.key_bytes()),
    {
        match self.get(key) {
            Some(v) => Some(*v),
            None => None,
        }
    }
}


impl<K: IndexKey, V: Copy> RadixIndexV2<K, V> {
    /// Insert or update a key. The record goes to the first free slot from
    /// the key's preferred slot; an earlier record of the key stops being
    /// live in the same mask update. The key's bucket must have a free slot.
    pub fn upsert(&mut self, key: &K, value: &V)
        requires
            old(self).wf(),
            !old(self).bucket_full(key.key_bytes()),
        ensures
            final(self).wf(),
            forall|kb: Seq<u8>| #[trigger] final(self).entry(kb) == (if kb == key.key_bytes() {
                Some(*value)
            } else {
                old(self).entry(kb)
            }),
            final(self).bits_view() == old(self).bits_view(),
            final(self).bucket_count_view() == old(self).bucket_count_view(),
            forall|kb: Seq<u8>| #[trigger] final(self).live_count(kb) == (
                if bucket_of(kb, old(self).bits_view()) == bucket_of(key.key_bytes(), old(self).bits_view()) {
                    old(self).live_count(kb) + if old(self).entry(key.key_bytes()) is Some { 0nat } else { 1nat }
                } else {
                    old(self).live_count(kb)
                }),
    {
        let ghost old_ix = *self;
        let ghost kb = key.key_bytes();
        let h = hash64(key);
        let bidx = self.bucket_index(h);
        let preferred = self.preferred_slot(h);
        let tag = self.tag8(h);
        let mask = self.buckets[bidx].mask;
        let ghost b0 = self.buckets@[bidx as int];
        proof {
            assert(bidx as int == bucket_of(kb, self.bucket_bits));
            assert(tag == tag_of(kb, self.bucket_bits));
            assert(bucket_v2_wf(b0, bidx as int, self.bucket_bits));
        }
        let found = self.find_slot_by_key(bidx, mask, preferred, tag, key);
        let new_slot = match self.find_empty_slot(mask, preferred) {
            Some(s) => s,
            None => {
                proof {
                    assert(false);
                }
                return;
            },
        };
        let rec = SlotRec { kind: 0, key: key.clone_key(), value: *value };
        self.buckets[bidx].recs.set(new_slot, Some(rec));
        self.buckets[bidx].tags.set(new_slot, tag);
        let ghost mid: u64 = mask | (1u64 << (new_slot as u64));
        proof {
            assert forall|i: int| 0 <= i < 64 implies (slot_live(mid, i) <==> (i == new_slot || slot_live(mask, i))) by {
                lemma_bit_set(mask, new_slot as u64, i as u64);
            }
            assert(!slot_live(mask, new_slot as int));
            lemma_live_change(mask, mid, new_slot as int, 64);
        }
        match found {
            Some(old_slot) => {
                self.buckets[bidx].mask = (mask | (1u64 << (new_slot as u64))) & !(1u64 << (old_slot as u64));
                proof {
                    assert forall|i: int| 0 <= i < 64 implies (slot_live(self.buckets@[bidx as int].mask, i)
                        <==> (i != old_slot && (i == new_slot || slot_live(mask, i)))) by {
                        lemma_bit_swap(mask, new_slot as u64, old_slot as u64, i as u64);
                    }
                    assert(slot_live(mask, old_slot as int));
                    assert(old_slot != new_slot);
                    lemma_live_change(mid, self.buckets@[bidx as int].mask, old_slot as int, 64);
                }
            },
            None => {
                self.buckets[bidx].mask = mask | (1u64 << (new_slot as u64));
                proof {
                    assert forall|i: int| 0 <= i < 64 implies (slot_live(self.buckets@[bidx as int].mask, i)
                        <==> (i == new_slot || slot_live(mask, i))) by {
                        lemma_bit_set(mask, new_slot as u64, i as u64);
                    }
                    assert forall|s: int| !holds_key(b0, s, kb) by {
                        if holds_key(b0, s, kb) {
                            assert(b0.recs@[s] is Some);
                        }
                    }
                }
            },
        }
        proof {
            let b1 = self.buckets@[bidx as int];
            let ns = new_slot as int;
            assert(holds_key(b1, ns, kb));
            // Live slots of the new bucket other than the new one were live
            // before and keep their records.
            assert forall|i: int| 0 <= i < 64 && slot_live(b1.mask, i) && i != ns
                implies slot_live(b0.mask, i) && #[trigger] b1.recs@[i] == b0.recs@[i] by {}
            assert forall|i: int, k: Seq<u8>| holds_key(b1, i, k) && i != ns
                implies #[trigger] holds_key(b0, i, k) && k != kb by {
                assert(slot_live(b1.mask, i));
                assert(slot_live(b0.mask, i));
                assert(b1.recs@[i] == b0.recs@[i]);
                assert(holds_key(b0, i, k));
                if k == kb {
                    match found {
                        Some(os) => {
                            assert(holds_key(b0, os as int, kb));
                            assert(i == os as int);
                        },
                        None => {},
                    }
                }
            }
            assert(bucket_v2_wf(b1, bidx as int, self.bucket_bits)) by {
                assert forall|s: int, t: int, k: Seq<u8>| holds_key(b1, s, k) && holds_key(b1, t, k) implies s == t by {
                    if s != ns && t != ns {
                        assert(holds_key(b0, s, k) && holds_key(b0, t, k));
                    } else if s == ns && t != ns {
                        assert(k == kb);
                        assert(holds_key(b0, t, k));
                    } else if t == ns && s != ns {
                        assert(k == kb);
                        assert(holds_key(b0, s, k));
                    }
                }
            }
            assert forall|j: int| 0 <= j < self.buckets@.len() implies bucket_v2_wf(#[trigger] self.buckets@[j], j, self.bucket_bits) by {
                if j != bidx {
                    assert(self.buckets@[j] == old_ix.buckets@[j]);
                }
            }
            assert(self.wf());
            assert forall|k: Seq<u8>| #[trigger] self.entry(k) == (if k == kb { Some(*value) } else { old_ix.entry(k) }) by {
                self.lemma_bucket_in_range(k);
                let bk = bucket_of(k, self.bucket_bits);
                if k == kb {
                    self.lemma_entry_at(kb, ns);
                } else if bk == bidx {
                    if exists|s: int| holds_key(b0, s, k) {
                        let s = choose|s: int| holds_key(b0, s, k);
                        assert(s != ns);
                        match found {
                            Some(os) => {
                                assert(holds_key(b0, os as int, kb));
                                assert(s != os as int);
                            },
                            None => {},
                        }
                        assert(holds_key(b1, s, k));
                        old_ix.lemma_entry_at(k, s);
                        self.lemma_entry_at(k, s);
                    } else {
                        assert forall|s: int| !holds_key(b1, s, k) by {
                            if holds_key(b1, s, k) {
                                if s == ns {
                                    assert(k == kb);
                                } else {
                                    assert(holds_key(b0, s, k));
                                }
                            }
                        }
                    }
                } else {
                    assert(self.buckets@[bk] == old_ix.buckets@[bk]);
                }
            }
            match found {
                Some(os) => {
                    assert(holds_key(b0, os as int, kb));
                    old_ix.lemma_entry_at(kb, os as int);
                },
                None => {
                    assert(old_ix.entry(kb) is None);
                },
            }
            assert forall|k: Seq<u8>| #[trigger] self.live_count(k) == (
                if bucket_of(k, old_ix.bucket_bits) == bucket_of(kb, old_ix.bucket_bits) {
                    old_ix.live_count(k) + if old_ix.entry(kb) is Some { 0nat } else { 1nat }
                } else {
                    old_ix.live_count(k)
                }) by {
                self.lemma_bucket_in_range(k);
                let bk = bucket_of(k, self.bucket_bits);
                if bk != bidx {
                    assert(self.buckets@[bk] == old_ix.buckets@[bk]);
                }
            }
        }
    }

    /// Insert or update a key when its bucket has a free slot; `false`, with
    /// nothing changed, when every slot of the bucket is live.
    pub fn try_upsert(&mut self, key: &K, value: &V) -> (r: bool)
        requires
            old(self).wf(),
        ensures
            final(self).wf(),
            r == !old(self).bucket_full(key.key_bytes()),
            r ==> forall|kb: Seq<u8>| #[trigger] final(self).entry(kb) == (if kb == key.key_bytes() {
                Some(*value)
            } else {
                old(self).entry(kb)
            }),
            !r ==> *final(self) == *old(self),
            final(self).bits_view() == old(self).bits_view(),
            final(self).bucket_count_view() == old(self).bucket_count_view(),
    {
        let h = hash64(key);
        let bidx = self.bucket_index(h);
        let mask = self.buckets[bidx].mask;
        if mask == 0xFFFF_FFFF_FFFF_FFFFu64 {
            proof {
                assert forall|s: int| 0 <= s < 64 implies slot_live(mask, s) by {
                    lemma_bit_full(s as u64);
                }
            }
            return false;
        }
        proof {
            let kb = key.key_bytes();
            assert(bidx as int == bucket_of(kb, self.bucket_bits));
            assert(mask == self.buckets@[bidx as int].mask);
            if self.bucket_full(kb) {
                assert forall|i: u64| i < 64 implies (mask >> i) & 1u64 == 1u64 by {
                    assert(slot_live(self.buckets@[bidx as int].mask, i as int));
                }
                lemma_mask_all_live(mask);
            }
        }
        self.upsert(key, value);
        true
    }

    /// Delete a key: its record is marked as a tombstone and its slot stops
    /// being live. Nothing changes for an absent key.
    pub fn delete(&mut self, key: &K)
        where V: Default
        requires
            old(self).wf(),
        ensures
            final(self).wf(),
            forall|kb: Seq<u8>| #[trigger] final(self).entry(kb) == (if kb == key.key_bytes() {
                None
            } else {
                old(self).entry(kb)
            }),
            final(self).bits_view() == old(self).bits_view(),
            final(self).bucket_count_view() == old(self).bucket_count_view(),
            forall|kb: Seq<u8>| #[trigger] final(self).live_count(kb) + (
                if bucket_of(kb, old(self).bits_view()) == bucket_of(key.key_bytes(), old(self).bits_view())
                    && old(self).entry(key.key_bytes()) is Some { 1nat } else { 0nat }) == old(self).live_count(kb),
    {
        let ghost old_ix = *self;
        let ghost kb = key.key_bytes();
        let h = hash64(key);
        let bidx = self.bucket_index(h);
        let preferred = self.preferred_slot(h);
        let tag = self.tag8(h);
        let mask = self.buckets[bidx].mask;
        let ghost b0 = self.buckets@[bidx as int];
        proof {
            assert(bidx as int == bucket_of(kb, self.bucket_bits));
            assert(tag == tag_of(kb, self.bucket_bits));
            assert(bucket_v2_wf(b0, bidx as int, self.bucket_bits));
        }
        let slot = match self.find_slot_by_key(bidx, mask, preferred, tag, key) {
            Some(s) => s,
            None => {
                proof {
                    assert forall|s: int| !holds_key(b0, s, kb) by {
                        if holds_key(b0, s, kb) {
                            assert(b0.recs@[s] is Some);
                        }
                    }
                    assert(self.entry(kb) is None);
                }
                return;
            },
        };
        let tomb = match &self.buckets[bidx].recs[slot] {
            Some(r) => Some(SlotRec { kind: 1, key: r.key.clone_key(), value: r.value }),
            None => None,
        };
        self.buckets[bidx].recs.set(slot, tomb);
        self.buckets[bidx].mask = mask & !(1u64 << (slot as u64));
        proof {
            let b1 = self.buckets@[bidx as int];
            let ds = slot as int;
            assert forall|i: int| 0 <= i < 64 implies (slot_live(b1.mask, i) <==> (i != ds && slot_live(mask, i))) by {
                lemma_bit_clear(mask, slot as u64, i as u64);
            }
            assert(holds_key(b0, ds, kb));
            old_ix.lemma_entry_at(kb, ds);
            lemma_live_change(mask, b1.mask, ds, 64);
            assert forall|i: int, k: Seq<u8>| holds_key(b1, i, k) implies #[trigger] holds_key(b0, i, k) && k != kb by {
                assert(slot_live(b1.mask, i));
                assert(i != ds);
                assert(slot_live(b0.mask, i));
                assert(b1.recs@[i] == b0.recs@[i]);
                assert(holds_key(b0, i, k));
                if k == kb {
                    assert(holds_key(b0, ds, kb));
                    assert(i == ds);
                }
            }
            assert(bucket_v2_wf(b1, bidx as int, self.bucket_bits)) by {
                assert forall|s: int| 0 <= s < 64 && slot_live(b1.mask, s) implies #[trigger] b1.recs@[s] == b0.recs@[s] by {}
                assert forall|s: int, t: int, k: Seq<u8>| holds_key(b1, s, k) && holds_key(b1, t, k) implies s == t by {
                    assert(holds_key(b0, s, k) && holds_key(b0, t, k));
                }
            }
            assert forall|j: int| 0 <= j < self.buckets@.len() implies bucket_v2_wf(#[trigger] self.buckets@[j], j, self.bucket_bits) by {
                if j != bidx {
                    assert(self.buckets@[j] == old_ix.buckets@[j]);
                }
            }
            assert(self.wf());
            assert forall|k: Seq<u8>| #[trigger] self.entry(k) == (if k == kb { None } else { old_ix.entry(k) }) by {
                self.lemma_bucket_in_range(k);
                let bk = bucket_of(k, self.bucket_bits);
                if bk == bidx {
                    if k == kb {
                        assert forall|s: int| !holds_key(b1, s, kb) by {
                            if holds_key(b1, s, kb) {
                                assert(holds_key(b0, s, kb));
                            }
                        }
                    } else if exists|s: int| holds_key(b0, s, k) {
                        let s = choose|s: int| holds_key(b0, s, k);
                        assert(s != ds);
                        assert(b1.recs@[s] == b0.recs@[s]);
                        assert(holds_key(b1, s, k));
                        old_ix.lemma_entry_at(k, s);
                        self.lemma_entry_at(k, s);
                    } else {
                        assert forall|s: int| !holds_key(b1, s, k) by {
                            if holds_key(b1, s, k) {
                                assert(holds_key(b0, s, k));
                            }
                        }
                    }
                } else {
                    assert(self.buckets@[bk] == old_ix.buckets@[bk]);
                }
            }
            assert forall|k: Seq<u8>| #[trigger] self.live_count(k) + (
                if bucket_of(k, old_ix.bucket_bits) == bucket_of(kb, old_ix.bucket_bits)
                    && old_ix.entry(kb) is Some { 1nat } else { 0nat }) == old_ix.live_count(k) by {
                self.lemma_bucket_in_range(k);
                let bk = bucket_of(k, self.bucket_bits);
                if bk != bidx {
                    assert(self.buckets@[bk] == old_ix.buckets@[bk]);
                }
            }
        }
    }
}

impl<K: IndexKey, V: Copy> RadixIndexV2<K, V> {
    /// Keys and values of the live upsert records, bucket by bucket and slot
    /// by slot: each key with an entry once, with its value.
    pub fn iter_with_keys<'a>(&'a self) -> (r: Vec<(&'a K, &'a V)>)
        requires
            self.wf(),
        ensures
            forall|j: int| 0 <= j < r@.len() ==> self.entry((#[trigger] r@[j]).0.key_bytes()) == Some(*r@[j].1),
            forall|kb: Seq<u8>| #[trigger] self.entry(kb) is Some ==> exists|j: int| 0 <= j < r@.len() && r@[j].0.key_bytes() == kb,
            forall|j: int, k: int| 0 <= j < k < r@.len() ==> r@[j].0.key_bytes() != r@[k].0.key_bytes(),
            self.entry_keys().finite(),
            r@.len() == self.entry_keys().len(),
    {
        let out = self.collect_entries();
        let ghost ks = Seq::new(out@.len(), |j: int| out@[j].0.key_bytes());
        proof {
            assert(ks.no_duplicates()) by {
                assert forall|a: int, b: int| 0 <= a < ks.len() && 0 <= b < ks.len() && a != b implies ks[a] != ks[b] by {
                    if a < b {
                        assert(out@[a].0.key_bytes() != out@[b].0.key_bytes());
                    } else {
                        assert(out@[b].0.key_bytes() != out@[a].0.key_bytes());
                    }
                }
            }
            assert(ks.to_set() =~= self.entry_keys()) by {
                assert forall|kb: Seq<u8>| ks.to_set().contains(kb) <==> self.entry_keys().contains(kb) by {
                    if ks.to_set().contains(kb) {
                        let j = choose|j: int| 0 <= j < ks.len() && ks[j] == kb;
                        assert(self.entry(out@[j].0.key_bytes()) == Some(*out@[j].1));
                    }
                    if self.entry(kb) is Some {
                        let j = choose|j: int| 0 <= j < out@.len() && out@[j].0.key_bytes() == kb;
                        assert(ks[j] == kb);
                    }
                }
            }
            ks.unique_seq_to_set();
            vstd::seq_lib::seq_to_set_is_finite(ks);
        }
        out
    }

    fn collect_entries<'a>(&'a self) -> (r: Vec<(&'a K, &'a V)>)
        requires
            self.wf(),
        ensures
            forall|j: int| 0 <= j < r@.len() ==> self.entry((#[trigger] r@[j]).0.key_bytes()) == Some(*r@[j].1),
            forall|kb: Seq<u8>| #[trigger] self.entry(kb) is Some ==> exists|j: int| 0 <= j < r@.len() && r@[j].0.key_bytes() == kb,
            forall|j: int, k: int| 0 <= j < k < r@.len() ==> r@[j].0.key_bytes() != r@[k].0.key_bytes(),
    {
        let mut out: Vec<(&'a K, &'a V)> = Vec::new();
        let ghost mut pos: Seq<(int, int)> = Seq::empty();
        let nb = self.buckets.len();
        let mut b: usize = 0;
        while b < nb
            invariant
                self.wf(),
                nb == self.buckets@.len(),
                b <= nb,
                pos.len() == out@.len(),
                forall|j: int| 0 <= j < out@.len() ==> {
                    &&& 0 <= (#[trigger] pos[j]).0 < b
                    &&& holds_key(self.buckets@[pos[j].0], pos[j].1, out@[j].0.key_bytes())
                    &&& self.buckets@[pos[j].0].recs@[pos[j].1] == Some(SlotRec { kind: 0, key: *out@[j].0, value: *out@[j].1 })
                },
                forall|j: int, k: int| 0 <= j < k < out@.len() ==> pos[j].0 * 64 + pos[j].1 < pos[k].0 * 64 + pos[k].1,
                forall|c: int, s: int| 0 <= c < b && 0 <= s < 64 && #[trigger] slot_live(self.buckets@[c].mask, s)
                    ==> exists|j: int| 0 <= j < out@.len() && pos[j] == (c, s),
            decreases nb - b,
        {
            let mask = self.buckets[b].mask;
            let ghost bk = self.buckets@[b as int];
            proof {
                assert(bucket_v2_wf(bk, b as int, self.bucket_bits));
            }
            let mut s: usize = 0;
            while s < MAX_BUCKET_SLOTS
                invariant
                    self.wf(),
                    nb == self.buckets@.len(),
                    b < nb,
                    bk == self.buckets@[b as int],
                    mask == bk.mask,
                    bucket_v2_wf(bk, b as int, self.bucket_bits),
                    s <= 64,
                    pos.len() == out@.len(),
                    forall|j: int| 0 <= j < out@.len() ==> {
                        &&& 0 <= (#[trigger] pos[j]).0 <= b
                        &&& (pos[j].0 == b ==> pos[j].1 < s)
                        &&& holds_key(self.buckets@[pos[j].0], pos[j].1, out@[j].0.key_bytes())
                        &&& self.buckets@[pos[j].0].recs@[pos[j].1] == Some(SlotRec { kind: 0, key: *out@[j].0, value: *out@[j].1 })
                    },
                    forall|j: int, k: int| 0 <= j < k < out@.len() ==> pos[j].0 * 64 + pos[j].1 < pos[k].0 * 64 + pos[k].1,
                    forall|j: int| 0 <= j < out@.len() ==> pos[j].0 * 64 + pos[j].1 < b * 64 + s,
                    forall|c: int, t: int| 0 <= c < b && 0 <= t < 64 && #[trigger] slot_live(self.buckets@[c].mask, t)
                        ==> exists|j: int| 0 <= j < out@.len() && pos[j] == (c, t),
                    forall|t: int| 0 <= t < s && #[trigger] slot_live(mask, t)
                        ==> exists|j: int| 0 <= j < out@.len() && pos[j] == (b as int, t),
                decreases 64 - s,
            {
                if (mask >> (s as u64)) & 1 == 1 {
                    match &self.buckets[b].recs[s] {
                        Some(rec) => {
                            if rec.kind == 0 {
                                let ghost out0 = out@;
                                let ghost pos0 = pos;
                                out.push((&rec.key, &rec.value));
                                proof {
                                    pos = pos.push((b as int, s as int));
                                    assert(holds_key(bk, s as int, rec.key.key_bytes()));
                                    assert forall|c: int, t: int| 0 <= c < b && 0 <= t < 64 && #[trigger] slot_live(self.buckets@[c].mask, t)
                                        implies exists|j: int| 0 <= j < out@.len() && pos[j] == (c, t) by {
                                        let j = choose|j: int| 0 <= j < out0.len() && pos0[j] == (c, t);
                                        assert(pos[j] == (c, t));
                                    }
                                    assert forall|t: int| 0 <= t < s + 1 && #[trigger] slot_live(mask, t)
                                        implies exists|j: int| 0 <= j < out@.len() && pos[j] == (b as int, t) by {
                                        if t < s {
                                            let j = choose|j: int| 0 <= j < out0.len() && pos0[j] == (b as int, t);
                                            assert(pos[j] == (b as int, t));
                                        } else {
                                            assert(pos[out0.len() as int] == (b as int, t));
                                        }
                                    }
                                }
                            }
                        },
                        None => {},
                    }
                }
                s = s + 1;
            }
            b = b + 1;
        }
        proof {
            assert forall|j: int| 0 <= j < out@.len() implies self.entry((#[trigger] out@[j]).0.key_bytes()) == Some(*out@[j].1) by {
                let (c, t) = pos[j];
                let kb = out@[j].0.key_bytes();
                assert(bucket_v2_wf(self.buckets@[c], c, self.bucket_bits));
                assert(self.buckets@[c].recs@[t] is Some);
                assert(bucket_of(kb, self.bucket_bits) == c);
                self.lemma_entry_at(kb, t);
            }
            assert forall|kb: Seq<u8>| #[trigger] self.entry(kb) is Some implies exists|j: int| 0 <= j < out@.len() && out@[j].0.key_bytes() == kb by {
                self.lemma_bucket_in_range(kb);
                let c = bucket_of(kb, self.bucket_bits);
                let bc = self.buckets@[c];
                let t = choose|t: int| holds_key(bc, t, kb);
                assert(holds_key(bc, t, kb));
                assert(slot_live(self.buckets@[c].mask, t));
                let j = choose|j: int| 0 <= j < out@.len() && pos[j] == (c, t);
                assert(out@[j].0.key_bytes() == kb);
            }
            assert forall|j: int, k: int| 0 <= j < k < out@.len() implies out@[j].0.key_bytes() != out@[k].0.key_bytes() by {
                let kb = out@[j].0.key_bytes();
                if out@[k].0.key_bytes() == kb {
                    let (c, t) = pos[j];
                    let (d, u) = pos[k];
                    assert(bucket_v2_wf(self.buckets@[c], c, self.bucket_bits));
                    assert(bucket_v2_wf(self.buckets@[d], d, self.bucket_bits));
                    assert(self.buckets@[c].recs@[t] is Some);
                    assert(self.buckets@[d].recs@[u] is Some);
                    assert(c == d);
                    assert(holds_key(self.buckets@[c], t, kb) && holds_key(self.buckets@[c], u, kb));
                    assert(t == u);
                }
            }
        }
        out
    }

    /// Values of the live upsert records: the value of each key with an
    /// entry.
    pub fn iter<'a>(&'a self) -> (r: Vec<&'a V>)
        requires
            self.wf(),
        ensures
            forall|j: int| #![trigger r@[j]] 0 <= j < r@.len() ==> exists|kb: Seq<u8>| #![trigger self.entry(kb)] self.entry(kb) == Some(*r@[j]),
            forall|kb: Seq<u8>| #[trigger] self.entry(kb) is Some ==> exists|j: int| 0 <= j < r@.len() && Some(*r@[j]) == self.entry(kb),
            self.entry_keys().finite(),
            r@.len() == self.entry_keys().len(),
    {
        let entries = self.iter_with_keys();
        let mut out: Vec<&'a V> = Vec::new();
        let mut i: usize = 0;
        while i < entries.len()
            invariant
                0 <= i <= entries@.len(),
                out@.len() == i,
                forall|j: int| 0 <= j < i ==> #[trigger] out@[j] == entries@[j].1,
            decreases entries@.len() - i,
        {
            out.push(entries[i].1);
            i = i + 1;
        }
        proof {
            assert forall|j: int| #![trigger out@[j]] 0 <= j < out@.len() implies exists|kb: Seq<u8>| #![trigger self.entry(kb)] self.entry(kb) == Some(*out@[j]) by {
                assert(self.entry(entries@[j].0.key_bytes()) == Some(*entries@[j].1));
            }
            assert forall|kb: Seq<u8>| #[trigger] self.entry(kb) is Some implies exists|j: int| 0 <= j < out@.len() && Some(*out@[j]) == self.entry(kb) by {
                let j = choose|j: int| 0 <= j < entries@.len() && entries@[j].0.key_bytes() == kb;
                assert(self.entry(entries@[j].0.key_bytes()) == Some(*entries@[j].1));
                assert(out@[j] == entries@[j].1);
            }
        }
        out
    }

    /// Statistics: per bucket, the live records (all upserts), the 64 slots
    /// of capacity, and no snapshot, growth or tag figures; then the totals
    /// derived from those details.
    pub fn collect_stats(&self) -> (r: RadixIndexStats)
        requires
            self.wf(),
        ensures
            r.total_buckets == self.bucket_count_view(),
            r.bucket_bits == self.bits_view(),
            r.bucket_details@.len() == self.bucket_count_view(),
            forall|i: int| 0 <= i < r.bucket_details@.len() ==> #[trigger] r.bucket_details@[i] == (BucketStats {
                bucket_idx: i as usize,
                key_count: live_below(self.mask_view(i), 64) as usize,
                total_records: live_below(self.mask_view(i), 64) as usize,
                buffer_capacity: MAX_BUCKET_SLOTS,
                tinymap_size: 0,
                growth_count: 0,
                tag8_collisions: 0,
                unique_tags: 0,
            }),
            r.total_keys == (if depth_sum(r.bucket_details@) > usize::MAX { usize::MAX as nat } else { depth_sum(r.bucket_details@) }),
            r.active_buckets == nonzero_count(r.bucket_details@),
            nonzero_count(r.bucket_details@) > 0 ==> is_max_depth(r.bucket_details@, r.max_bucket_depth)
                && is_min_nonzero_depth(r.bucket_details@, r.min_bucket_depth),
            nonzero_count(r.bucket_details@) == 0 ==> r.max_bucket_depth == 0 && r.min_bucket_depth == 0,
            r.hotpath_arena == self.arena_view(),
            r.buffer_arena == (ArenaStats { bytes_allocated: 0, bytes_large: 0, num_regions: 0, num_large: 0, num_retired: 0, bytes_retired: 0 }),
            r.record_arena == (ArenaStats { bytes_allocated: 0, bytes_large: 0, num_regions: 0, num_large: 0, num_retired: 0, bytes_retired: 0 }),
    {
        let n = self.buckets.len();
        let mut details: Vec<BucketStats> = Vec::new();
        let mut b: usize = 0;
        while b < n
            invariant
                self.wf(),
                n == self.buckets@.len(),
                b <= n,
                details@.len() == b,
                forall|i: int| 0 <= i < b ==> #[trigger] details@[i] == (BucketStats {
                    bucket_idx: i as usize,
                    key_count: live_below(self.mask_view(i), 64) as usize,
                    total_records: live_below(self.mask_view(i), 64) as usize,
                    buffer_capacity: MAX_BUCKET_SLOTS,
                    tinymap_size: 0,
                    growth_count: 0,
                    tag8_collisions: 0,
                    unique_tags: 0,
                }),
            decreases n - b,
        {
            let mask = self.buckets[b].mask;
            let ghost bk = self.buckets@[b as int];
            proof {
                assert(bucket_v2_wf(bk, b as int, self.bucket_bits));
            }
            let mut live: usize = 0;
            let mut total: usize = 0;
            let mut s: usize = 0;
            while s < MAX_BUCKET_SLOTS
                invariant
                    n == self.buckets@.len(),
                    b < n,
                    bk == self.buckets@[b as int],
                    mask == bk.mask,
                    bucket_v2_wf(bk, b as int, self.bucket_bits),
                    s <= 64,
                    total == live_below(mask, s as int),
                    live == total,
                    total <= s,
                decreases 64 - s,
            {
                if (mask >> (s as u64)) & 1 == 1 {
                    match &self.buckets[b].recs[s] {
                        Some(rec) => {
                            if rec.kind == 0 {
                                live = live + 1;
                            }
                        },
                        None => {},
                    }
                    total = total + 1;
                }
                s = s + 1;
            }
            details.push(BucketStats {
                bucket_idx: b,
                key_count: live,
                total_records: total,
                buffer_capacity: MAX_BUCKET_SLOTS,
                tinymap_size: 0,
                growth_count: 0,
                tag8_collisions: 0,
                unique_tags: 0,
            });
            b = b + 1;
        }
        let mut stats = RadixIndexStats {
            total_buckets: n,
            bucket_bits: self.bucket_bits,
            active_buckets: n,
            total_keys: 0,
            max_bucket_depth: 0,
            min_bucket_depth: 0,
            hotpath_arena: self.arena.stats(),
            buffer_arena: ArenaStats::empty(),
            record_arena: ArenaStats::empty(),
            bucket_details: details,
        };
        stats.calculate_derived_stats();
        stats
    }
}

/// A mask with its 64 bits set is all ones.
proof fn lemma_mask_all_live(m: u64)
    requires
        forall|i: u64| i < 64 ==> (m >> i) & 1u64 == 1u64,
    ensures
        m == 0xFFFF_FFFF_FFFF_FFFFu64,
{
    let m2 = !m;
    assert forall|i: u64| i < 64 implies (m2 >> i) & 1u64 == 0u64 by {
        assert((m >> i) & 1u64 == 1u64);
        lemma_not_bit(m, i);
    }
    lemma_zero_from_bits(m2);
    assert(m == !m2) by (bit_vector)
        requires m2 == !m;
    assert(!0u64 == 0xFFFF_FFFF_FFFF_FFFFu64) by (bit_vector);
}

proof fn lemma_not_bit(m: u64, i: u64)
    by (bit_vector)
    requires
        i < 64,
        (m >> i) & 1u64 == 1u64,
    ensures
        ((!m) >> i) & 1u64 == 0u64,
{
}

/// A value whose 64 bits are clear, bit by bit, is zero.
proof fn lemma_zero_from_bits(x: u64)
    requires
        forall|i: u64| i < 64 ==> (x >> i) & 1u64 == 0u64,
    ensures
        x == 0,
{
    lemma_zero_from_low_bits(x, 64);
}

proof fn lemma_zero_from_low_bits(x: u64, n: u64)
    requires
        n <= 64,
        forall|i: u64| i < n ==> (x >> i) & 1u64 == 0u64,
    ensures
        n == 64 ==> x == 0,
        n < 64 ==> x & (((1u64 << n) - 1) as u64) == 0,
    decreases n,
{
    if n == 0 {
        assert(x & (((1u64 << 0u64) - 1) as u64) == 0) by (bit_vector);
    } else {
        lemma_zero_from_low_bits(x, (n - 1) as u64);
        let k = (n - 1) as u64;
        assert((x >> k) & 1u64 == 0u64);
        assert(k < 64 && (x & (((1u64 << k) - 1) as u64)) == 0 && (x >> k) & 1u64 == 0 ==>
            (k + 1 == 64 ==> x == 0) && (k + 1 < 64 ==> x & (((1u64 << ((k + 1) as u64)) - 1) as u64) == 0)) by (bit_vector);
    }
}

} // verus!
