//! Radix-hash delta index: keys are spread over buckets by the low bits of
//! their hash; each bucket is an append-only log of upserts and tombstones,
//! with an optional read snapshot over a prefix of the log.
use vstd::prelude::*;
use crate::ids::IndexKey;
use crate::mph_delta_index::util::{
    ahash_bytes, hash64, key_hash, fpn_from_hash, spec_fpn, tag8_from_hash_disjoint, spec_tag8_disjoint,
};
use crate::mph_delta_index::tiny_map::{ReadTinyMap, TinyMapItem};
use crate::mph_delta_index::radix_stats::{RadixIndexStats, BucketStats, depth_sum, nonzero_count, is_max_depth, is_min_nonzero_depth};
use crate::mph_delta_index::arena::{Arena, ArenaStats, MAX_REASONABLE_SIZE};

verus! {

/// Target records per bucket for initial sizing.
pub const TARGET_SLOTS_PER_BUCKET: usize = 8;

/// Record kind of an upsert.
pub const KIND_UPSERT: u8 = 0;

/// Record kind of a tombstone.
pub const KIND_TOMBSTONE: u8 = 1;

/// Largest record count a snapshot can address with its 16-bit slots.
pub const MAX_SNAPSHOT_RECORDS: usize = 65536;

/// What the delta tier says about a key: the latest value, a deletion, or nothing.
#[derive(Debug, Clone, Copy, PartialEq, Eq)]
pub enum DeltaState<T> {
    /// The latest record is an upsert of this value.
    Hit(T),
    /// The latest record is a tombstone.
    Tombstone,
    /// No record of the key.
    Miss,
}

/// Index of the last entry of `log` whose key is `kb`, or -1.
pub open spec fn last_in<V>(log: Seq<(Seq<u8>, Option<V>)>, kb: Seq<u8>) -> int
    decreases log.len(),
{
    if log.len() == 0 {
        -1
    } else if log.last().0 == kb {
        log.len() - 1
    } else {
        last_in(log.drop_last(), kb)
    }
}

/// The state of key `kb` after the records of `log`, in order.
pub open spec fn log_state<V>(log: Seq<(Seq<u8>, Option<V>)>, kb: Seq<u8>) -> DeltaState<V> {
    let i = last_in(log, kb);
    if i < 0 {
        DeltaState::Miss
    } else {
        match log[i].1 {
            Some(v) => DeltaState::Hit(v),
            None => DeltaState::Tombstone,
        }
    }
}

/// `last_in` is the last index holding `kb`, or -1 when none does.
pub proof fn lemma_last_in<V>(log: Seq<(Seq<u8>, Option<V>)>, kb: Seq<u8>)
    ensures
        -1 <= last_in(log, kb) < log.len(),
        last_in(log, kb) == -1 ==> forall|j: int| 0 <= j < log.len() ==> (#[trigger] log[j]).0 != kb,
        last_in(log, kb) >= 0 ==> log[last_in(log, kb)].0 == kb
            && forall|j: int| last_in(log, kb) < j < log.len() ==> (#[trigger] log[j]).0 != kb,
    decreases log.len(),
{
    if log.len() > 0 {
        lemma_last_in(log.drop_last(), kb);
        if log.last().0 != kb {
            assert forall|j: int| last_in(log, kb) < j < log.len() implies (#[trigger] log[j]).0 != kb by {
                if j < log.len() - 1 {
                    assert(log[j] == log.drop_last()[j]);
                }
            }
            if last_in(log, kb) == -1 {
                assert forall|j: int| 0 <= j < log.len() implies (#[trigger] log[j]).0 != kb by {
                    if j < log.len() - 1 {
                        assert(log[j] == log.drop_last()[j]);
                    }
                }
            }
        }
    }
}

/// An index holding `kb` with no later one is `last_in`.
pub proof fn lemma_last_in_at<V>(log: Seq<(Seq<u8>, Option<V>)>, kb: Seq<u8>, i: int)
    requires
        0 <= i < log.len(),
        log[i].0 == kb,
        forall|j: int| i < j < log.len() ==> (#[trigger] log[j]).0 != kb,
    ensures
        last_in(log, kb) == i,
{
    lemma_last_in(log, kb);
}

/// No index holds `kb`: `last_in` is -1.
pub proof fn lemma_last_in_none<V>(log: Seq<(Seq<u8>, Option<V>)>, kb: Seq<u8>)
    requires
        forall|j: int| 0 <= j < log.len() ==> (#[trigger] log[j]).0 != kb,
    ensures
        last_in(log, kb) == -1,
{
    lemma_last_in(log, kb);
}

/// Record stored in a bucket buffer.
struct Rec<K, V> {
    kind: u8,
    key: K,
    value: V,
}

/// Buffer of records with a capacity at which the bucket is consolidated.
struct Buffer<K, V> {
    recs: Vec<Rec<K, V>>,
    cap: usize,
}

/// Per-bucket state: the buffer, the registration flag and the snapshot of
/// the log's first `snapshot_tail` records.
struct Bucket<K, V> {
    head: Option<Buffer<K, V>>,
    registered: bool,
    snapshot: Option<ReadTinyMap>,
    snapshot_tail: usize,
}

spec fn rec_view<K: IndexKey, V>(r: Rec<K, V>) -> (Seq<u8>, Option<V>) {
    (r.key.key_bytes(), if r.kind == KIND_UPSERT { Some(r.value) } else { None })
}

spec fn recs_view<K: IndexKey, V>(recs: Seq<Rec<K, V>>) -> Seq<(Seq<u8>, Option<V>)> {
    recs.map_values(|r: Rec<K, V>| rec_view(r))
}

spec fn bucket_log<K: IndexKey, V>(b: Bucket<K, V>) -> Seq<(Seq<u8>, Option<V>)> {
    match b.head {
        Some(buf) => recs_view(buf.recs@),
        None => Seq::empty(),
    }
}

/// The bucket a key's bytes fall in under `bits` bucket bits.
pub open spec fn bucket_of(kb: Seq<u8>, bits: u32) -> int {
    spec_fpn(ahash_bytes(kb), bits) as int
}

/// The 8-bit tag of a key's bytes under `bits` bucket bits.
pub open spec fn tag_of(kb: Seq<u8>, bits: u32) -> u8 {
    spec_tag8_disjoint(ahash_bytes(kb), bits)
}

/// Record `i` of `recs` is the last record of its key among the first `t`.
spec fn last_of_prefix<K: IndexKey, V>(recs: Seq<Rec<K, V>>, t: int, i: int) -> bool {
    last_in(recs_view(recs.take(t)), recs[i].key.key_bytes()) == i
}

/// The snapshot holds exactly the live records of the first `t` records: one
/// entry per key whose last record there is an upsert, tagged by the key.
spec fn snap_ok<K: IndexKey, V>(m: ReadTinyMap, recs: Seq<Rec<K, V>>, t: int, bits: u32) -> bool {
    &&& m.wf()
    &&& forall|j: int| 0 <= j < m.slots_view().len() ==> {
        let s = #[trigger] m.slots_view()[j] as int;
        &&& s < t
        &&& last_of_prefix(recs, t, s)
        &&& recs[s].kind == KIND_UPSERT
        &&& m.tags_view()[j] == tag_of(recs[s].key.key_bytes(), bits)
    }
    &&& forall|i: int| 0 <= i < t && last_of_prefix(recs, t, i) && (#[trigger] recs[i]).kind == KIND_UPSERT
        ==> m.has_entry(tag_of(recs[i].key.key_bytes(), bits), i as u16)
}

spec fn bucket_wf<K: IndexKey, V>(b: Bucket<K, V>, idx: int, bits: u32) -> bool {
    &&& (b.head is None ==> b.snapshot is None && b.snapshot_tail == 0)
    &&& (b.head matches Some(buf) ==> {
        &&& buf.cap > 0
        &&& b.snapshot_tail <= buf.recs@.len()
        &&& (forall|i: int| 0 <= i < buf.recs@.len() ==> bucket_of((#[trigger] buf.recs@[i]).key.key_bytes(), bits) == idx)
        &&& (b.snapshot matches Some(m) ==> snap_ok(m, buf.recs@, b.snapshot_tail as int, bits))
    })
    &&& b.snapshot_tail <= MAX_SNAPSHOT_RECORDS
    &&& (b.snapshot is None ==> b.snapshot_tail == 0)
}

/// The bucket's snapshot covers its whole log, or it has none because the
/// log is too long for one or no key's last record in it is an upsert.
spec fn snap_fresh<K: IndexKey, V>(b: Bucket<K, V>) -> bool {
    b.head matches Some(buf) ==> {
        &&& (b.snapshot is Some ==> b.snapshot_tail == buf.recs@.len())
        &&& (b.snapshot is None ==> buf.recs@.len() > MAX_SNAPSHOT_RECORDS || buf.recs@.len() == 0)
    }
}

/// Capacity of a buffer compacted down to `count` live records: twice that
/// (saturating), and at least `init`.
spec fn compacted_cap(count: nat, init: usize) -> nat {
    let twice: nat = if count <= usize::MAX / 2 { 2 * count } else { usize::MAX as nat };
    if twice > init { twice } else { init as nat }
}

/// Every record of the bucket is the last of its key, and its snapshot is
/// fresh.
spec fn bucket_consolidated<K: IndexKey, V>(b: Bucket<K, V>) -> bool {
    &&& forall|n: int| 0 <= n < bucket_log(b).len() ==> last_in(bucket_log(b), (#[trigger] bucket_log(b)[n]).0) == n
    &&& snap_fresh(b)
}

/// Capacity of a buffer of capacity `cap` after consolidating it down to
/// `count` records: doubled (saturating) when more than half of it is still
/// in use, and at least `init`.
spec fn consolidated_cap(cap: usize, count: nat, init: usize) -> nat {
    let grown: nat = if count > cap / 2 {
        if cap <= usize::MAX / 2 { (cap * 2) as nat } else { usize::MAX as nat }
    } else {
        cap as nat
    };
    if grown > init { grown } else { init as nat }
}

/// New-keys delta index with a power-of-two number of buckets.
pub struct RadixIndex<K, V> {
    buckets: Vec<Bucket<K, V>>,
    bucket_bits: u32,
    /// Sorted indices of the buckets that were activated.
    active: Vec<usize>,
    initial_buffer_capacity: usize,
    /// Accounts for the buffers (and their snapshots) handed to buckets.
    arena: Arena,
}

impl<K: IndexKey, V: Copy> RadixIndex<K, V> {
    /// Number of bits used for bucket indexing.
    pub closed spec fn bits_view(&self) -> u32 {
        self.bucket_bits
    }

    /// Counters of the arena that accounts for the buckets' buffers and
    /// snapshots.
    pub closed spec fn arena_view(&self) -> ArenaStats {
        self.arena.stats_view()
    }

    /// Number of buckets.
    pub closed spec fn bucket_count_view(&self) -> nat {
        self.buckets@.len()
    }

    /// Initial buffer capacity of a bucket.
    pub closed spec fn initial_capacity_view(&self) -> nat {
        self.initial_buffer_capacity as nat
    }

    /// The state of the key with bytes `kb`.
    pub closed spec fn state(&self, kb: Seq<u8>) -> DeltaState<V> {
        log_state(bucket_log(self.buckets@[bucket_of(kb, self.bucket_bits)]), kb)
    }

    /// Keys with a record, upsert or tombstone.
    pub open spec fn has_record(&self, kb: Seq<u8>) -> bool {
        !(self.state(kb) is Miss)
    }

    /// Every bucket's snapshot covers its whole log, or the bucket has none
    /// because its log is too long for one or holds no live key.
    pub closed spec fn snapshots_fresh(&self) -> bool {
        forall|i: int| 0 <= i < self.buckets@.len() ==> snap_fresh(#[trigger] self.buckets@[i])
    }

    /// Every bucket holds at most one record per key, and its snapshot is
    /// fresh.
    pub closed spec fn consolidated(&self) -> bool {
        forall|i: int| 0 <= i < self.buckets@.len() ==> bucket_consolidated(#[trigger] self.buckets@[i])
    }

    /// Buckets, activation list and snapshots are consistent.
    pub closed spec fn wf(&self) -> bool {
        &&& self.bucket_bits < 64
        &&& self.bucket_bits < usize::BITS
        &&& self.buckets@.len() == (1usize << self.bucket_bits)
        &&& self.initial_buffer_capacity >= TARGET_SLOTS_PER_BUCKET
        &&& forall|i: int| 0 <= i < self.buckets@.len() ==> bucket_wf(#[trigger] self.buckets@[i], i, self.bucket_bits)
        &&& forall|i: int| 0 <= i < self.buckets@.len() && (#[trigger] self.buckets@[i]).head is Some ==> self.buckets@[i].registered
        &&& forall|a: int, b: int| 0 <= a < b < self.active@.len() ==> self.active@[a] < self.active@[b]
        &&& forall|a: int| 0 <= a < self.active@.len() ==> (#[trigger] self.active@[a]) < self.buckets@.len()
            && self.buckets@[self.active@[a] as int].registered
        &&& forall|i: int| 0 <= i < self.buckets@.len() && (#[trigger] self.buckets@[i]).registered
            ==> exists|a: int| 0 <= a < self.active@.len() && self.active@[a] == i
        &&& self.arena.wf()
    }
}


/// With no entry for `kb` from `t` on, the last entry for `kb` lies in the
/// first `t` entries.
pub proof fn lemma_last_in_prefix<V>(log: Seq<(Seq<u8>, Option<V>)>, t: int, kb: Seq<u8>)
    requires
        0 <= t <= log.len(),
        forall|j: int| t <= j < log.len() ==> (#[trigger] log[j]).0 != kb,
    ensures
        last_in(log, kb) == last_in(log.take(t), kb),
{
    let p = log.take(t);
    lemma_last_in(p, kb);
    if last_in(p, kb) == -1 {
        assert forall|j: int| 0 <= j < log.len() implies (#[trigger] log[j]).0 != kb by {
            if j < t {
                assert(log[j] == p[j]);
            }
        }
        lemma_last_in_none(log, kb);
    } else {
        let l = last_in(p, kb);
        assert(log[l] == p[l]);
        assert forall|j: int| l < j < log.len() implies (#[trigger] log[j]).0 != kb by {
            if j < t {
                assert(log[j] == p[j]);
            }
        }
        lemma_last_in_at(log, kb, l);
    }
}

proof fn lemma_view_take<K: IndexKey, V>(recs: Seq<Rec<K, V>>, t: int)
    requires
        0 <= t <= recs.len(),
    ensures
        recs_view(recs.take(t)) == recs_view(recs).take(t),
        recs_view(recs).len() == recs.len(),
        forall|j: int| 0 <= j < recs.len() ==> #[trigger] recs_view(recs)[j] == rec_view(recs[j]),
{
    assert(recs_view(recs.take(t)) =~= recs_view(recs).take(t));
}

impl<K: IndexKey, V: Copy> RadixIndex<K, V> {
    /// Bucket count for a target capacity: about `TARGET_SLOTS_PER_BUCKET`
    /// keys per bucket, rounded up to a power of two, at least 2.
    pub(crate) fn calculate_buckets(target_capacity: usize) -> (r: (usize, u32))
        ensures
            r.1 < 64,
            r.1 < usize::BITS,
            r.0 == (1usize << r.1),
            r.0 >= 2,
            r.0 >= target_capacity / TARGET_SLOTS_PER_BUCKET,
            r.0 == 2 || r.0 / 2 < target_capacity / TARGET_SLOTS_PER_BUCKET,
    {
        let ideal0 = target_capacity / TARGET_SLOTS_PER_BUCKET;
        let ideal: usize = if ideal0 < 1 { 1 } else { ideal0 };
        let mut count: usize = 1;
        let mut bits: u32 = 0;
        proof {
            assert((1usize << 0u32) == 1usize) by (bit_vector);
            let t = target_capacity;
            assert(t / 8 < (1usize << ((usize::BITS - 3) as u32))) by (bit_vector);
            assert(1usize < (1usize << ((usize::BITS - 3) as u32))) by (bit_vector);
        }
        while count < ideal || count < 2
            invariant
                count == (1usize << bits),
                bits <= usize::BITS - 3,
                ideal < (1usize << ((usize::BITS - 3) as u32)),
                ideal == (if ideal0 < 1 { 1 } else { ideal0 }),
                ideal0 == target_capacity / TARGET_SLOTS_PER_BUCKET,
                count == 1 || count == 2 || count / 2 < ideal,
            decreases usize::BITS - bits,
        {
            proof {
                let b = bits;
                let c = count;
                let d = ideal;
                assert(c == (1usize << b) && b <= usize::BITS - 3 && (c < d || c < 2)
                    && d < (1usize << ((usize::BITS - 3) as u32)) ==> b < usize::BITS - 3) by (bit_vector);
                assert(b < usize::BITS - 3 ==> (1usize << ((b + 1) as u32)) == 2 * (1usize << b)) by (bit_vector);
            }
            count = count * 2;
            bits = bits + 1;
        }
        (count, bits)
    }

    /// Create an empty radix index for a target number of keys: about
    /// `TARGET_SLOTS_PER_BUCKET` keys per bucket, and buffers of
    /// `max_capacity / bucket_count` records (at least `TARGET_SLOTS_PER_BUCKET`).
    pub fn with_capacity(target_capacity: usize, max_capacity: usize) -> (r: Self)
        ensures
            r.wf(),
            forall|kb: Seq<u8>| #[trigger] r.state(kb) == DeltaState::<V>::Miss,
            r.bucket_count_view() >= 2,
            r.bucket_count_view() >= target_capacity / TARGET_SLOTS_PER_BUCKET,
            r.bucket_count_view() == 2 || r.bucket_count_view() / 2 < target_capacity / TARGET_SLOTS_PER_BUCKET,
            exists|b: u32| b < usize::BITS && r.bucket_count_view() == (1usize << b),
            r.bits_view() < 64,
            r.bucket_count_view() == (1usize << r.bits_view()),
            r.initial_capacity_view() == (if max_capacity as nat / r.bucket_count_view() > TARGET_SLOTS_PER_BUCKET as nat {
                max_capacity as nat / r.bucket_count_view()
            } else {
                TARGET_SLOTS_PER_BUCKET as nat
            }),
    {
        let (bucket_count, bucket_bits) = Self::calculate_buckets(target_capacity);
        let per = max_capacity / bucket_count;
        let initial_buffer_capacity = if per > TARGET_SLOTS_PER_BUCKET { per } else { TARGET_SLOTS_PER_BUCKET };
        let mut buckets: Vec<Bucket<K, V>> = Vec::new();
        let mut i: usize = 0;
        while i < bucket_count
            invariant
                0 <= i <= bucket_count,
                buckets@.len() == i,
                forall|j: int| 0 <= j < i ==> (#[trigger] buckets@[j]).head is None && !buckets@[j].registered
                    && buckets@[j].snapshot is None && buckets@[j].snapshot_tail == 0,
            decreases bucket_count - i,
        {
            buckets.push(Bucket { head: None, registered: false, snapshot: None, snapshot_tail: 0 });
            i = i + 1;
        }
        let r = RadixIndex {
            buckets,
            bucket_bits,
            active: Vec::new(),
            initial_buffer_capacity,
            arena: Arena::new(65536),
        };
        proof {
            assert forall|kb: Seq<u8>| #[trigger] r.state(kb) == DeltaState::<V>::Miss by {
                let log = bucket_log(r.buckets@[bucket_of(kb, r.bucket_bits)]);
                assert(bucket_of(kb, r.bucket_bits) < r.buckets@.len()) by {
                    let h = ahash_bytes(kb);
                    let bb = r.bucket_bits;
                    assert((h as usize & (((1usize << bb) - 1) as usize)) < (1usize << bb)) by (bit_vector)
                        requires bb < usize::BITS;
                }
                assert(log.len() == 0);
            }
        }
        r
    }

    /// Bucket index of a hash.
    fn bucket_index(&self, h: u64) -> (r: usize)
        requires
            self.wf(),
        ensures
            r == spec_fpn(h, self.bits_view()),
            r < self.buckets@.len(),
    {
        fpn_from_hash(h, self.bucket_bits)
    }

    /// 8-bit tag of a hash, from bits above the bucket bits.
    fn tag8(&self, h: u64) -> (r: u8)
        requires
            self.wf(),
        ensures
            r == spec_tag8_disjoint(h, self.bits_view()),
    {
        tag8_from_hash_disjoint(h, self.bucket_bits)
    }

    /// The delta state of a key, given its hash: the records written since
    /// the bucket's snapshot are searched newest first, then the snapshot.
    pub fn lookup_with_hash<'a>(&'a self, key: &K, hash: u64) -> (r: DeltaState<&'a V>)
        requires
            self.wf(),
        ensures
            hash == key_hash(*key) ==> match r {
                DeltaState::Hit(x) => self.state(key.key_bytes()) == DeltaState::Hit(*x),
                DeltaState::Tombstone => self.state(key.key_bytes()) is Tombstone,
                DeltaState::Miss => self.state(key.key_bytes()) is Miss,
            },
    {
        let bidx = self.bucket_index(hash);
        let tag = self.tag8(hash);
        let b = &self.buckets[bidx];
        let ghost kb = key.key_bytes();
        proof {
            assert(bucket_wf(self.buckets@[bidx as int], bidx as int, self.bucket_bits));
        }
        match &b.head {
            None => {
                proof {
                    if hash == key_hash(*key) {
                        assert(bucket_log(*b).len() == 0);
                    }
                }
                DeltaState::Miss
            },
            Some(buf) => {
                let ghost log = recs_view(buf.recs@);
                let st = b.snapshot_tail;
                let cur = buf.recs.len();
                proof {
                    lemma_view_take(buf.recs@, st as int);
                    assert(bucket_log(*b) == log);
                    if hash == key_hash(*key) {
                        assert(self.state(kb) == log_state(log, kb));
                    }
                }
                // Records written since the snapshot, newest first.
                let mut i: usize = cur;
                while i > st
                    invariant
                        st <= i <= cur,
                        cur == buf.recs@.len(),
                        log == recs_view(buf.recs@),
                        log.len() == buf.recs@.len(),
                        forall|j: int| 0 <= j < buf.recs@.len() ==> #[trigger] log[j] == rec_view(buf.recs@[j]),
                        kb == key.key_bytes(),
                        hash == key_hash(*key) ==> self.state(kb) == log_state(log, kb),
                        forall|j: int| i <= j < cur ==> (#[trigger] log[j]).0 != kb,
                    decreases i,
                {
                    i = i - 1;
                    let rec = &buf.recs[i];
                    if rec.key.same_key(key) {
                        proof {
                            assert(log[i as int] == rec_view(buf.recs@[i as int]));
                            lemma_last_in_at(log, kb, i as int);
                        }
                        if rec.kind == KIND_UPSERT {
                            return DeltaState::Hit(&rec.value);
                        } else {
                            return DeltaState::Tombstone;
                        }
                    }
                }
                proof {
                    lemma_last_in_prefix(log, st as int, kb);
                }
                match &b.snapshot {
                    None => {
                        proof {
                            assert(log.take(0) =~= Seq::<(Seq<u8>, Option<V>)>::empty());
                        }
                        DeltaState::Miss
                    },
                    Some(map) => {
                        let ghost pre = log.take(st as int);
                        let mut it = map.iter_tags_linear(tag);
                        loop
                            invariant
                                it.tags@ == map.tags_view(),
                                it.slots@ == map.slots_view(),
                                it.target_tag == tag,
                                it.pos <= it.tags@.len() || it.pos == 0,
                                map.wf(),
                                snap_ok(*map, buf.recs@, st as int, self.bucket_bits),
                                st <= buf.recs@.len(),
                                log == recs_view(buf.recs@),
                                pre == log.take(st as int),
                                recs_view(buf.recs@.take(st as int)) == pre,
                                forall|j: int| 0 <= j < buf.recs@.len() ==> #[trigger] log[j] == rec_view(buf.recs@[j]),
                                kb == key.key_bytes(),
                                hash == key_hash(*key) ==> self.state(kb) == log_state(log, kb),
                                tag == spec_tag8_disjoint(hash, self.bits_view()),
                                st <= MAX_SNAPSHOT_RECORDS,
                                last_in(log, kb) == last_in(pre, kb),
                                forall|j: int| 0 <= j < it.pos && j < it.tags@.len() && it.tags@[j] == tag
                                    ==> buf.recs@[it.slots@[j] as int].key.key_bytes() != kb,
                            decreases it.tags@.len() - it.pos,
                        {
                            let ghost p0 = it.pos;
                            proof {
                                map.lemma_wf_lens();
                            }
                            match it.next() {
                                None => {
                                    proof {
                                        lemma_last_in(pre, kb);
                                        if hash == key_hash(*key) {
                                            let l = last_in(pre, kb);
                                            if l >= 0 && buf.recs@[l].kind == KIND_UPSERT {
                                                assert(pre[l] == log[l]);
                                                assert(last_of_prefix(buf.recs@, st as int, l));
                                                assert(log[l] == rec_view(buf.recs@[l]));
                                                assert(buf.recs@[l].key.key_bytes() == kb);
                                                assert(tag_of(kb, self.bucket_bits) == tag);
                                                let j = choose|j: int| 0 <= j < map.slots_view().len()
                                                    && map.tags_view()[j] == tag_of(buf.recs@[l].key.key_bytes(), self.bucket_bits)
                                                    && map.slots_view()[j] == l as u16;
                                                assert(l < MAX_SNAPSHOT_RECORDS);
                                                assert(it.slots@[j] as int == l);
                                                assert(it.tags@[j] == tag);
                                                assert(buf.recs@[it.slots@[j] as int].key.key_bytes() == kb);
                                            }
                                        }
                                    }
                                    // The snapshot has no live record of the key: its last
                                    // record before the snapshot tail, if any, is a tombstone.
                                    let mut k: usize = st;
                                    while k > 0
                                        invariant
                                            k <= st,
                                            st <= buf.recs@.len(),
                                            pre == log.take(st as int),
                                            log == recs_view(buf.recs@),
                                            forall|j: int| 0 <= j < buf.recs@.len() ==> #[trigger] log[j] == rec_view(buf.recs@[j]),
                                            kb == key.key_bytes(),
                                            hash == key_hash(*key) ==> self.state(kb) == log_state(log, kb),
                                            last_in(log, kb) == last_in(pre, kb),
                                            hash == key_hash(*key) ==> !(last_in(pre, kb) >= 0 && buf.recs@[last_in(pre, kb)].kind == KIND_UPSERT),
                                            forall|j: int| k <= j < st ==> (#[trigger] pre[j]).0 != kb,
                                        decreases k,
                                    {
                                        k = k - 1;
                                        if buf.recs[k].key.same_key(key) {
                                            proof {
                                                assert(pre[k as int] == log[k as int]);
                                                assert(log[k as int] == rec_view(buf.recs@[k as int]));
                                                lemma_last_in_at(pre, kb, k as int);
                                            }
                                            return DeltaState::Tombstone;
                                        }
                                        proof {
                                            assert(pre[k as int] == log[k as int]);
                                            assert(log[k as int] == rec_view(buf.recs@[k as int]));
                                        }
                                    }
                                    proof {
                                        lemma_last_in_none(pre, kb);
                                    }
                                    return DeltaState::Miss;
                                },
                                Some(slot) => {
                                    let ghost j = it.pos - 1;
                                    proof {
                                        assert(map.slots_view()[j] == slot);
                                        assert((slot as int) < st);
                                    }
                                    let rec = &buf.recs[slot as usize];
                                    if rec.key.same_key(key) {
                                        proof {
                                            assert(last_of_prefix(buf.recs@, st as int, slot as int));
                                            assert(pre[slot as int] == log[slot as int]);
                                        }
                                        return DeltaState::Hit(&rec.value);
                                    }
                                },
                            }
                        }
                    },
                }
            },
        }
    }

    /// Reference to the value for a key with a precomputed hash; `None` for a
    /// tombstone or an absent key.
    pub fn get_with_hash<'a>(&'a self, key: &K, hash: u64) -> (r: Option<&'a V>)
        requires
            self.wf(),
        ensures
            hash == key_hash(*key) ==> match self.state(key.key_bytes()) {
                DeltaState::Hit(v) => r == Some(&v),
                _ => r is None,
            },
    {
        match self.lookup_with_hash(key, hash) {
            DeltaState::Hit(v) => Some(v),
            _ => None,
        }
    }

    /// Reference to the value for a key; `None` for a tombstone or an absent key.
    pub fn get<'a>(&'a self, key: &K) -> (r: Option<&'a V>)
        requires
            self.wf(),
        ensures
            match self.state(key.key_bytes()) {
                DeltaState::Hit(v) => r == Some(&v),
                _ => r is None,
            },
    {
        let h = hash64(key);
        self.get_with_hash(key, h)
    }

    /// Copy of the value for a key; `None` for a tombstone or an absent key.
    pub fn get_copy(&self, key: &K) -> (r: Option<V>)
        requires
            self.wf(),
        ensures
            match self.state(key.key_bytes()) {
                DeltaState::Hit(v) => r == Some(v),
                _ => r is None,
            },
    {
        match self.get(key) {
            Some(v) => Some(*v),
            None => None,
        }
    }
}


/// Appending an entry changes the state of its key only.
pub proof fn lemma_log_push<V>(log: Seq<(Seq<u8>, Option<V>)>, e: (Seq<u8>, Option<V>), kb: Seq<u8>)
    ensures
        log_state(log.push(e), kb) == (if e.0 == kb {
            match e.1 {
                Some(v) => DeltaState::Hit(v),
                None => DeltaState::Tombstone,
            }
        } else {
            log_state(log, kb)
        }),
{
    assert(log.push(e).drop_last() =~= log);
    if e.0 != kb {
        lemma_last_in(log, kb);
        let l = last_in(log, kb);
        if l >= 0 {
            assert(log.push(e)[l] == log[l]);
        }
    }
}

/// Dropping entries that a later entry of the same key supersedes (and, with
/// `drop_tombstones`, the last entries that are tombstones) keeps every
/// state, except that a tombstone then reads as absent.
pub proof fn lemma_dedup_state<V>(
    log: Seq<(Seq<u8>, Option<V>)>,
    keep: Seq<int>,
    out: Seq<(Seq<u8>, Option<V>)>,
    drop_tombstones: bool,
    kb: Seq<u8>,
)
    requires
        out.len() == keep.len(),
        forall|n: int| 0 <= n < keep.len() ==> 0 <= #[trigger] keep[n] < log.len(),
        forall|n: int, m: int| 0 <= n < m < keep.len() ==> keep[n] < keep[m],
        forall|n: int| 0 <= n < keep.len() ==> #[trigger] out[n] == log[keep[n]],
        forall|n: int| 0 <= n < keep.len() ==> last_in(log, (#[trigger] log[keep[n]]).0) == keep[n],
        drop_tombstones ==> forall|n: int| 0 <= n < keep.len() ==> (#[trigger] log[keep[n]]).1 is Some,
        forall|i: int| 0 <= i < log.len() && last_in(log, (#[trigger] log[i]).0) == i
            && !(drop_tombstones && log[i].1 is None) ==> exists|n: int| 0 <= n < keep.len() && keep[n] == i,
    ensures
        log_state(out, kb) == (if drop_tombstones && log_state(log, kb) is Tombstone {
            DeltaState::Miss
        } else {
            log_state(log, kb)
        }),
        forall|n: int, m: int| 0 <= n < m < out.len() ==> out[n].0 != out[m].0,
{
    lemma_last_in(log, kb);
    let l = last_in(log, kb);
    assert forall|n: int, m: int| 0 <= n < m < out.len() implies out[n].0 != out[m].0 by {
        let a = keep[n];
        let b = keep[m];
        assert(out[n] == log[a] && out[m] == log[b]);
        lemma_last_in(log, log[a].0);
        assert(last_in(log, log[a].0) == a);
    }
    if l < 0 {
        assert forall|j: int| 0 <= j < out.len() implies (#[trigger] out[j]).0 != kb by {
            assert(out[j] == log[keep[j]]);
        }
        lemma_last_in_none(out, kb);
    } else if drop_tombstones && log[l].1 is None {
        assert forall|j: int| 0 <= j < out.len() implies (#[trigger] out[j]).0 != kb by {
            assert(out[j] == log[keep[j]]);
            if log[keep[j]].0 == kb {
                assert(last_in(log, log[keep[j]].0) == keep[j]);
            }
        }
        lemma_last_in_none(out, kb);
    } else {
        assert(last_in(log, log[l].0) == l);
        let n = choose|n: int| 0 <= n < keep.len() && keep[n] == l;
        assert(out[n] == log[l]);
        assert forall|j: int| n < j < out.len() implies (#[trigger] out[j]).0 != kb by {
            assert(out[j] == log[keep[j]]);
        }
        lemma_last_in_at(out, kb, n);
    }
}

/// The entries among the first `n` of `log` that are the last of their key
/// in the whole log, in order; with `drop_tombstones`, only those that are
/// upserts.
pub open spec fn keep_latest<V>(log: Seq<(Seq<u8>, Option<V>)>, drop_tombstones: bool, n: nat) -> Seq<(Seq<u8>, Option<V>)>
    decreases n,
{
    if n == 0 {
        Seq::empty()
    } else {
        let prev = keep_latest(log, drop_tombstones, (n - 1) as nat);
        let e = log[n - 1];
        if last_in(log, e.0) == n - 1 && !(drop_tombstones && e.1 is None) {
            prev.push(e)
        } else {
            prev
        }
    }
}

/// No key's last record in `log` is an upsert.
pub open spec fn no_live<V>(log: Seq<(Seq<u8>, Option<V>)>) -> bool {
    forall|kb: Seq<u8>| !(#[trigger] log_state(log, kb) is Hit)
}

/// A log whose keys are pairwise distinct: each entry is the last of its key.
pub proof fn lemma_distinct_last<V>(log: Seq<(Seq<u8>, Option<V>)>, i: int)
    requires
        0 <= i < log.len(),
        forall|n: int, m: int| 0 <= n < m < log.len() ==> log[n].0 != log[m].0,
    ensures
        last_in(log, log[i].0) == i,
{
    lemma_last_in_at(log, log[i].0, i);
}

/// Whether record `i` is the last record of its key.
fn is_last_rec<K: IndexKey, V>(recs: &Vec<Rec<K, V>>, i: usize) -> (r: bool)
    requires
        i < recs@.len(),
    ensures
        r == (last_in(recs_view(recs@), recs@[i as int].key.key_bytes()) == i),
{
    let ghost log = recs_view(recs@);
    let ghost kb = recs@[i as int].key.key_bytes();
    proof {
        lemma_view_take(recs@, 0);
    }
    let n = recs.len();
    let mut j: usize = i + 1;
    while j < n
        invariant
            i < j <= recs@.len(),
            n == recs@.len(),
            log == recs_view(recs@),
            log.len() == recs@.len(),
            forall|q: int| 0 <= q < recs@.len() ==> #[trigger] log[q] == rec_view(recs@[q]),
            kb == recs@[i as int].key.key_bytes(),
            forall|q: int| i < q < j ==> (#[trigger] log[q]).0 != kb,
        decreases recs@.len() - j,
    {
        if recs[j].key.same_key(&recs[i].key) {
            proof {
                lemma_last_in(log, kb);
                assert(log[j as int].0 == kb);
            }
            return false;
        }
        j = j + 1;
    }
    proof {
        lemma_last_in_at(log, kb, i as int);
    }
    true
}


/// The records that are the last of their key, in order; with
/// `drop_tombstones`, only those that are upserts.
fn dedup_records<K: IndexKey, V: Copy>(recs: &Vec<Rec<K, V>>, drop_tombstones: bool, Ghost(idx): Ghost<int>, Ghost(bits): Ghost<u32>) -> (r: Vec<Rec<K, V>>)
    requires
        forall|i: int| 0 <= i < recs@.len() ==> bucket_of((#[trigger] recs@[i]).key.key_bytes(), bits) == idx,
    ensures
        r@.len() <= recs@.len(),
        forall|n: int| 0 <= n < r@.len() ==> bucket_of((#[trigger] r@[n]).key.key_bytes(), bits) == idx,
        forall|kb: Seq<u8>| #[trigger] log_state(recs_view(r@), kb) == (if drop_tombstones && log_state(recs_view(recs@), kb) is Tombstone {
            DeltaState::Miss
        } else {
            log_state(recs_view(recs@), kb)
        }),
        forall|n: int| 0 <= n < r@.len() ==> last_in(recs_view(r@), (#[trigger] r@[n]).key.key_bytes()) == n,
        drop_tombstones ==> forall|n: int| 0 <= n < r@.len() ==> (#[trigger] r@[n]).kind == KIND_UPSERT,
        recs_view(r@) == keep_latest(recs_view(recs@), drop_tombstones, recs@.len() as nat),
{
    let ghost log = recs_view(recs@);
    let mut out: Vec<Rec<K, V>> = Vec::new();
    let ghost mut keep: Seq<int> = Seq::empty();
    let n = recs.len();
    let mut i: usize = 0;
    proof {
        lemma_view_take(recs@, 0);
    }
    while i < n
        invariant
            0 <= i <= n,
            n == recs@.len(),
            log == recs_view(recs@),
            log.len() == recs@.len(),
            forall|q: int| 0 <= q < recs@.len() ==> #[trigger] log[q] == rec_view(recs@[q]),
            forall|q: int| 0 <= q < recs@.len() ==> bucket_of((#[trigger] recs@[q]).key.key_bytes(), bits) == idx,
            out@.len() == keep.len(),
            out@.len() <= i,
            forall|q: int| 0 <= q < keep.len() ==> 0 <= #[trigger] keep[q] < i,
            forall|a: int, b: int| 0 <= a < b < keep.len() ==> keep[a] < keep[b],
            forall|q: int| 0 <= q < keep.len() ==> rec_view(#[trigger] out@[q]) == log[keep[q]],
            forall|q: int| 0 <= q < keep.len() ==> bucket_of((#[trigger] out@[q]).key.key_bytes(), bits) == idx,
            forall|q: int| 0 <= q < keep.len() ==> last_in(log, (#[trigger] log[keep[q]]).0) == keep[q],
            drop_tombstones ==> forall|q: int| 0 <= q < keep.len() ==> (#[trigger] log[keep[q]]).1 is Some,
            drop_tombstones ==> forall|q: int| 0 <= q < keep.len() ==> (#[trigger] out@[q]).kind == KIND_UPSERT,
            forall|q: int| 0 <= q < i && last_in(log, (#[trigger] log[q]).0) == q
                && !(drop_tombstones && log[q].1 is None) ==> exists|m: int| 0 <= m < keep.len() && keep[m] == q,
            recs_view(out@) == keep_latest(log, drop_tombstones, i as nat),
        decreases n - i,
    {
        let ghost out0 = out@;
        let last = is_last_rec(recs, i);
        let ghost keep0 = keep;
        if last && (!drop_tombstones || recs[i].kind == KIND_UPSERT) {
            let rec = &recs[i];
            out.push(Rec { kind: rec.kind, key: rec.key.clone_key(), value: rec.value });
            proof {
                keep = keep.push(i as int);
                assert(keep[keep.len() - 1] == i);
                assert(recs_view(out@) =~= recs_view(out0).push(rec_view(out@[out@.len() - 1])));
            }
        }
        proof {
            assert(log[i as int] == rec_view(recs@[i as int]));
            assert(recs_view(out@) == keep_latest(log, drop_tombstones, (i + 1) as nat));
            assert forall|q: int| 0 <= q < i + 1 && last_in(log, (#[trigger] log[q]).0) == q
                && !(drop_tombstones && log[q].1 is None) implies exists|m: int| 0 <= m < keep.len() && keep[m] == q by {
                if q < i {
                    let m = choose|m: int| 0 <= m < keep0.len() && keep0[m] == q;
                    assert(keep[m] == q);
                } else {
                    assert(keep[keep.len() - 1] == q);
                }
            }
        }
        i = i + 1;
    }
    let ghost out_log = recs_view(out@);
    proof {
        lemma_view_take(out@, 0);
        assert forall|q: int| 0 <= q < keep.len() implies #[trigger] out_log[q] == log[keep[q]] by {
            assert(out_log[q] == rec_view(out@[q]));
        }
        assert forall|kb: Seq<u8>| #[trigger] log_state(recs_view(out@), kb) == (if drop_tombstones && log_state(recs_view(recs@), kb) is Tombstone {
            DeltaState::Miss
        } else {
            log_state(recs_view(recs@), kb)
        }) by {
            lemma_dedup_state(log, keep, out_log, drop_tombstones, kb);
        }
        assert forall|q: int| 0 <= q < out@.len() implies last_in(recs_view(out@), (#[trigger] out@[q]).key.key_bytes()) == q by {
            lemma_dedup_state(log, keep, out_log, drop_tombstones, Seq::empty());
            assert(out_log[q] == rec_view(out@[q]));
            lemma_distinct_last(out_log, q);
        }
    }
    out
}

/// A snapshot of all of `recs` (which must fit 16-bit slots), or none with
/// tail 0 when the records do not fit.
fn build_snapshot<K: IndexKey, V: Copy>(recs: &Vec<Rec<K, V>>, bits: u32) -> (r: (Option<ReadTinyMap>, usize))
    requires
        bits < 64,
    ensures
        r.1 <= recs@.len(),
        r.1 <= MAX_SNAPSHOT_RECORDS,
        r.0 is None ==> r.1 == 0,
        r.0 matches Some(m) ==> r.1 == recs@.len() && snap_ok(m, recs@, r.1 as int, bits),
        r.0 is None <==> recs@.len() > MAX_SNAPSHOT_RECORDS,
{
    let n = recs.len();
    if n > MAX_SNAPSHOT_RECORDS {
        return (None, 0);
    }
    let ghost log = recs_view(recs@);
    proof {
        lemma_view_take(recs@, n as int);
        assert(recs@.take(n as int) =~= recs@);
    }
    let mut items: Vec<TinyMapItem> = Vec::new();
    let mut i: usize = 0;
    while i < n
        invariant
            0 <= i <= n,
            n == recs@.len(),
            n <= MAX_SNAPSHOT_RECORDS,
            bits < 64,
            log == recs_view(recs@),
            forall|q: int| 0 <= q < recs@.len() ==> #[trigger] log[q] == rec_view(recs@[q]),
            forall|q: int| 0 <= q < items@.len() ==> {
                let it = #[trigger] items@[q];
                &&& 0 <= it.2 < i
                &&& it.2 <= u16::MAX
                &&& last_in(log, recs@[it.2 as int].key.key_bytes()) == it.2
                &&& it.3 == recs@[it.2 as int].kind
                &&& it.0 == tag_of(recs@[it.2 as int].key.key_bytes(), bits)
            },
            forall|q: int| 0 <= q < i && last_in(log, (#[trigger] recs@[q]).key.key_bytes()) == q
                ==> exists|m: int| 0 <= m < items@.len() && items@[m].2 == q,
        decreases n - i,
    {
        let ghost items0 = items@;
        if is_last_rec(recs, i) {
            let h = hash64(&recs[i].key);
            let tag = tag8_from_hash_disjoint(h, bits);
            items.push((tag, h, i, recs[i].kind));
            proof {
                assert(items@[items@.len() - 1].2 == i);
            }
        }
        proof {
            assert forall|q: int| 0 <= q < i + 1 && last_in(log, (#[trigger] recs@[q]).key.key_bytes()) == q
                implies exists|m: int| 0 <= m < items@.len() && items@[m].2 == q by {
                if q < i {
                    let m = choose|m: int| 0 <= m < items0.len() && items0[m].2 == q;
                    assert(items@[m] == items0[m]);
                } else {
                    assert(items@[items@.len() - 1].2 == q);
                }
            }
        }
        i = i + 1;
    }
    let ghost items_v = items@;
    let map = ReadTinyMap::new(items);
    proof {
        assert forall|j: int| 0 <= j < map.slots_view().len() implies {
            let s = #[trigger] map.slots_view()[j] as int;
            &&& s < n
            &&& last_of_prefix(recs@, n as int, s)
            &&& recs@[s].kind == KIND_UPSERT
            &&& map.tags_view()[j] == tag_of(recs@[s].key.key_bytes(), bits)
        } by {
            let m = choose|m: int| 0 <= m < items_v.len() && items_v[m].3 == 0 && items_v[m].0 == map.tags_view()[j]
                && items_v[m].2 == map.slots_view()[j];
            let it = items_v[m];
        }
        assert forall|q: int| 0 <= q < n && last_of_prefix(recs@, n as int, q) && (#[trigger] recs@[q]).kind == KIND_UPSERT
            implies map.has_entry(tag_of(recs@[q].key.key_bytes(), bits), q as u16) by {
            let m = choose|m: int| 0 <= m < items_v.len() && items_v[m].2 == q;
            assert(items_v[m].3 == 0);
        }
    }
    (Some(map), n)
}


/// Every key's bucket is a valid bucket index.
pub proof fn lemma_bucket_in_range(kb: Seq<u8>, bits: u32)
    requires
        bits < usize::BITS,
    ensures
        0 <= bucket_of(kb, bits) < (1usize << bits),
{
    let h = ahash_bytes(kb);
    assert((h as usize & (((1usize << bits) - 1) as usize)) < (1usize << bits)) by (bit_vector)
        requires bits < usize::BITS;
}

proof fn lemma_snap_extend<K: IndexKey, V>(m: ReadTinyMap, recs: Seq<Rec<K, V>>, r: Rec<K, V>, t: int, bits: u32)
    requires
        0 <= t <= recs.len(),
        snap_ok(m, recs, t, bits),
    ensures
        snap_ok(m, recs.push(r), t, bits),
{
    let recs2 = recs.push(r);
    assert(recs2.take(t) =~= recs.take(t));
    assert forall|j: int| 0 <= j < m.slots_view().len() implies {
        let s = #[trigger] m.slots_view()[j] as int;
        &&& s < t
        &&& last_of_prefix(recs2, t, s)
        &&& recs2[s].kind == KIND_UPSERT
        &&& m.tags_view()[j] == tag_of(recs2[s].key.key_bytes(), bits)
    } by {
        let s = m.slots_view()[j] as int;
        assert(recs2[s] == recs[s]);
    }
    assert forall|i: int| 0 <= i < t && last_of_prefix(recs2, t, i) && (#[trigger] recs2[i]).kind == KIND_UPSERT
        implies m.has_entry(tag_of(recs2[i].key.key_bytes(), bits), i as u16) by {
        assert(recs2[i] == recs[i]);
    }
}

impl<K: IndexKey, V: Copy> RadixIndex<K, V> {
    /// Every bucket's state other than `bidx`'s is the same in `a` and `b`.
    closed spec fn same_elsewhere(a: Seq<Bucket<K, V>>, b: Seq<Bucket<K, V>>, bidx: int) -> bool {
        &&& a.len() == b.len()
        &&& forall|i: int| 0 <= i < a.len() && i != bidx ==> #[trigger] a[i] == b[i]
    }

    /// Install `nb` as bucket `bidx`, keeping registration, whose log has the
    /// states `f` gives.
    proof fn lemma_replace_bucket(old_ix: &Self, new_ix: &Self, bidx: int)
        requires
            old_ix.wf(),
            0 <= bidx < old_ix.buckets@.len(),
            new_ix.bucket_bits == old_ix.bucket_bits,
            new_ix.active == old_ix.active,
            new_ix.initial_buffer_capacity == old_ix.initial_buffer_capacity,
            new_ix.arena == old_ix.arena,
            Self::same_elsewhere(old_ix.buckets@, new_ix.buckets@, bidx),
            new_ix.buckets@[bidx].registered == old_ix.buckets@[bidx].registered,
            new_ix.buckets@[bidx].head is Some ==> new_ix.buckets@[bidx].registered,
            bucket_wf(new_ix.buckets@[bidx], bidx, new_ix.bucket_bits),
        ensures
            new_ix.wf(),
            forall|kb: Seq<u8>| bucket_of(kb, new_ix.bucket_bits) != bidx ==> #[trigger] new_ix.state(kb) == old_ix.state(kb),
            forall|kb: Seq<u8>| bucket_of(kb, new_ix.bucket_bits) == bidx
                ==> #[trigger] new_ix.state(kb) == log_state(bucket_log(new_ix.buckets@[bidx]), kb),
            forall|kb: Seq<u8>| bucket_of(kb, new_ix.bucket_bits) == bidx
                ==> #[trigger] old_ix.state(kb) == log_state(bucket_log(old_ix.buckets@[bidx]), kb),
    {
        assert forall|i: int| 0 <= i < new_ix.buckets@.len() implies bucket_wf(#[trigger] new_ix.buckets@[i], i, new_ix.bucket_bits) by {
            if i != bidx {
                assert(new_ix.buckets@[i] == old_ix.buckets@[i]);
            }
        }
        assert forall|a: int| 0 <= a < new_ix.active@.len() implies (#[trigger] new_ix.active@[a]) < new_ix.buckets@.len()
            && new_ix.buckets@[new_ix.active@[a] as int].registered by {
            let x = new_ix.active@[a] as int;
            if x != bidx {
                assert(new_ix.buckets@[x] == old_ix.buckets@[x]);
            }
        }
        assert forall|i: int| 0 <= i < new_ix.buckets@.len() && (#[trigger] new_ix.buckets@[i]).head is Some
            implies new_ix.buckets@[i].registered by {
            if i != bidx {
                assert(new_ix.buckets@[i] == old_ix.buckets@[i]);
            }
        }
        assert forall|i: int| 0 <= i < new_ix.buckets@.len() && (#[trigger] new_ix.buckets@[i]).registered
            implies exists|a: int| 0 <= a < new_ix.active@.len() && new_ix.active@[a] == i by {
            if i != bidx {
                assert(new_ix.buckets@[i] == old_ix.buckets@[i]);
            }
            assert(old_ix.buckets@[i].registered);
        }
        assert forall|kb: Seq<u8>| bucket_of(kb, new_ix.bucket_bits) != bidx implies #[trigger] new_ix.state(kb) == old_ix.state(kb) by {
            lemma_bucket_in_range(kb, new_ix.bucket_bits);
            let bi = bucket_of(kb, new_ix.bucket_bits);
            assert(new_ix.buckets@[bi] == old_ix.buckets@[bi]);
        }
    }

    /// Consolidate a bucket: keep only the latest record of each key,
    /// tombstones included, in their order; rebuild the snapshot over them.
    /// The capacity doubles if more than half of it is still in use, and is
    /// at least the initial capacity.
    fn consolidate_bucket(&mut self, bidx: usize)
        requires
            old(self).wf(),
            bidx < old(self).buckets@.len(),
        ensures
            final(self).wf(),
            forall|kb: Seq<u8>| #[trigger] final(self).state(kb) == old(self).state(kb),
            final(self).bucket_bits == old(self).bucket_bits,
            final(self).active == old(self).active,
            final(self).initial_buffer_capacity == old(self).initial_buffer_capacity,
            Self::same_elsewhere(old(self).buckets@, final(self).buckets@, bidx as int),
            final(self).buckets@[bidx as int].registered == old(self).buckets@[bidx as int].registered,
            final(self).buckets@[bidx as int].head matches Some(buf) ==> buf.recs@.len() <= bucket_log(old(self).buckets@[bidx as int]).len(),
            final(self).buckets@[bidx as int].head is None ==> bucket_log(old(self).buckets@[bidx as int]).len() == 0,
            bucket_log(final(self).buckets@[bidx as int]) == keep_latest(
                bucket_log(old(self).buckets@[bidx as int]),
                false,
                bucket_log(old(self).buckets@[bidx as int]).len(),
            ),
            bucket_consolidated(final(self).buckets@[bidx as int]),
            final(self).buckets@[bidx as int].head matches Some(buf) ==> (
                old(self).buckets@[bidx as int].head matches Some(ob)
                && buf.cap == consolidated_cap(ob.cap, buf.recs@.len(), old(self).initial_buffer_capacity)),
    {
        self.fold_bucket(bidx, false);
    }

    /// Compact a bucket: keep only the latest record of each key, and only
    /// when it is an upsert; rebuild the snapshot. The capacity is twice the
    /// live count (saturating), at least the initial capacity.
    fn compact_bucket(&mut self, bidx: usize)
        requires
            old(self).wf(),
            bidx < old(self).buckets@.len(),
        ensures
            final(self).wf(),
            forall|kb: Seq<u8>| #[trigger] final(self).state(kb) == (if bucket_of(kb, old(self).bits_view()) == bidx
                && old(self).state(kb) is Tombstone {
                DeltaState::Miss
            } else {
                old(self).state(kb)
            }),
            final(self).bucket_bits == old(self).bucket_bits,
            final(self).active == old(self).active,
            final(self).initial_buffer_capacity == old(self).initial_buffer_capacity,
            Self::same_elsewhere(old(self).buckets@, final(self).buckets@, bidx as int),
            final(self).buckets@[bidx as int].registered == old(self).buckets@[bidx as int].registered,
            final(self).buckets@[bidx as int].head matches Some(buf) ==> buf.recs@.len() <= bucket_log(old(self).buckets@[bidx as int]).len(),
            bucket_log(final(self).buckets@[bidx as int]) == keep_latest(
                bucket_log(old(self).buckets@[bidx as int]),
                true,
                bucket_log(old(self).buckets@[bidx as int]).len(),
            ),
            bucket_consolidated(final(self).buckets@[bidx as int]),
            final(self).buckets@[bidx as int].head is None <==> bucket_log(final(self).buckets@[bidx as int]).len() == 0,
            final(self).buckets@[bidx as int].head matches Some(buf) ==>
                buf.cap == compacted_cap(buf.recs@.len(), old(self).initial_buffer_capacity),
    {
        self.fold_bucket(bidx, true);
    }

    /// Shared body of [`Self::consolidate_bucket`] and [`Self::compact_bucket`].
    fn fold_bucket(&mut self, bidx: usize, drop_tombstones: bool)
        requires
            old(self).wf(),
            bidx < old(self).buckets@.len(),
        ensures
            final(self).wf(),
            forall|kb: Seq<u8>| #[trigger] final(self).state(kb) == (if drop_tombstones && bucket_of(kb, old(self).bits_view()) == bidx
                && old(self).state(kb) is Tombstone {
                DeltaState::Miss
            } else {
                old(self).state(kb)
            }),
            final(self).bucket_bits == old(self).bucket_bits,
            final(self).active == old(self).active,
            final(self).initial_buffer_capacity == old(self).initial_buffer_capacity,
            Self::same_elsewhere(old(self).buckets@, final(self).buckets@, bidx as int),
            final(self).buckets@[bidx as int].registered == old(self).buckets@[bidx as int].registered,
            final(self).buckets@[bidx as int].head matches Some(buf) ==> buf.recs@.len() <= bucket_log(old(self).buckets@[bidx as int]).len(),
            final(self).buckets@[bidx as int].head is None ==> (!drop_tombstones ==> bucket_log(old(self).buckets@[bidx as int]).len() == 0),
            bucket_log(final(self).buckets@[bidx as int]) == keep_latest(
                bucket_log(old(self).buckets@[bidx as int]),
                drop_tombstones,
                bucket_log(old(self).buckets@[bidx as int]).len(),
            ),
            bucket_consolidated(final(self).buckets@[bidx as int]),
            !drop_tombstones ==> (final(self).buckets@[bidx as int].head matches Some(buf) ==> (
                old(self).buckets@[bidx as int].head matches Some(ob)
                && buf.cap == consolidated_cap(ob.cap, buf.recs@.len(), old(self).initial_buffer_capacity))),
            drop_tombstones ==> (final(self).buckets@[bidx as int].head matches Some(buf) ==>
                buf.cap == compacted_cap(buf.recs@.len(), old(self).initial_buffer_capacity)),
            final(self).buckets@[bidx as int].head matches Some(buf) ==> buf.recs@.len() > 0,
    {
        let ghost old_ix = *self;
        proof {
            assert(bucket_wf(self.buckets@[bidx as int], bidx as int, self.bucket_bits));
        }
        let b = &self.buckets[bidx];
        let registered = b.registered;
        let ghost old_log = bucket_log(self.buckets@[bidx as int]);
        let nb = match &b.head {
            None => {
                return;
            },
            Some(buf) => {
                let old_cap = buf.cap;
                let new_recs = dedup_records(&buf.recs, drop_tombstones, Ghost(bidx as int), Ghost(self.bucket_bits));
                let new_count = new_recs.len();
                proof {
                    assert(old_log == recs_view(buf.recs@));
                    lemma_view_take(buf.recs@, 0);
                }
                if new_count == 0 {
                    let nb0 = Bucket { head: None, registered, snapshot: None, snapshot_tail: 0 };
                    proof {
                        assert forall|kb: Seq<u8>| #[trigger] log_state(bucket_log(nb0), kb) == (if drop_tombstones && log_state(old_log, kb) is Tombstone {
                            DeltaState::Miss
                        } else {
                            log_state(old_log, kb)
                        }) by {
                            assert(recs_view(new_recs@).len() == 0);
                            assert(log_state(recs_view(new_recs@), kb) is Miss);
                        }
                        if !drop_tombstones && old_log.len() > 0 {
                            let kb = old_log.last().0;
                            lemma_last_in(old_log, kb);
                            assert(log_state(recs_view(new_recs@), kb) is Miss);
                        }
                    }
                    nb0
                } else {
                    let new_cap = if drop_tombstones {
                        let twice = if new_count <= usize::MAX / 2 { new_count * 2 } else { usize::MAX };
                        if twice > self.initial_buffer_capacity { twice } else { self.initial_buffer_capacity }
                    } else {
                        let grown = if new_count > old_cap / 2 {
                            if old_cap <= usize::MAX / 2 { old_cap * 2 } else { usize::MAX }
                        } else {
                            old_cap
                        };
                        if grown > self.initial_buffer_capacity { grown } else { self.initial_buffer_capacity }
                    };
                    let (snapshot, snapshot_tail) = build_snapshot(&new_recs, self.bucket_bits);
                    let ghost nv = recs_view(new_recs@);
                    let nb1 = Bucket { head: Some(Buffer { recs: new_recs, cap: new_cap }), registered, snapshot, snapshot_tail };
                    proof {
                        assert(bucket_log(nb1) == nv);
                        lemma_view_take(nb1.head->Some_0.recs@, 0);
                        assert forall|q: int| 0 <= q < nv.len() implies last_in(nv, (#[trigger] nv[q]).0) == q by {
                            assert(nv[q] == rec_view(nb1.head->Some_0.recs@[q]));
                        }
                        assert forall|kb: Seq<u8>| #[trigger] log_state(bucket_log(nb1), kb) == (if drop_tombstones && log_state(old_log, kb) is Tombstone {
                            DeltaState::Miss
                        } else {
                            log_state(old_log, kb)
                        }) by {
                            assert(log_state(nv, kb) == log_state(recs_view(new_recs@), kb));
                        }
                    }
                    nb1
                }
            },
        };
        self.buckets.set(bidx, nb);
        proof {
            Self::lemma_replace_bucket(&old_ix, self, bidx as int);
            assert forall|kb: Seq<u8>| #[trigger] self.state(kb) == (if drop_tombstones && bucket_of(kb, old_ix.bucket_bits) == bidx
                && old_ix.state(kb) is Tombstone {
                DeltaState::Miss
            } else {
                old_ix.state(kb)
            }) by {
                if bucket_of(kb, self.bucket_bits) == bidx {
                    assert(log_state(bucket_log(self.buckets@[bidx as int]), kb) == (if drop_tombstones && log_state(old_log, kb) is Tombstone {
                        DeltaState::Miss
                    } else {
                        log_state(old_log, kb)
                    }));
                }
            }
            assert(bucket_wf(self.buckets@[bidx as int], bidx as int, self.bucket_bits));
        }
        let bytes = match &self.buckets[bidx].head {
            Some(buf) => {
                let entries = match &self.buckets[bidx].snapshot {
                    Some(m) => m.count(),
                    None => 0,
                };
                Self::buffer_bytes(buf.cap, entries)
            },
            None => None,
        };
        if let Some(bytes) = bytes {
            self.account(bytes, core::mem::align_of::<Buffer<K, V>>());
        }
    }
}


impl<K: IndexKey, V: Copy> RadixIndex<K, V> {
    /// Register a bucket in the sorted activation list on first use, and
    /// give it a buffer of the initial capacity if it has none.
    fn ensure_activated(&mut self, bidx: usize)
        requires
            old(self).wf(),
            bidx < old(self).buckets@.len(),
        ensures
            final(self).wf(),
            forall|kb: Seq<u8>| #[trigger] final(self).state(kb) == old(self).state(kb),
            final(self).bucket_bits == old(self).bucket_bits,
            final(self).buckets@.len() == old(self).buckets@.len(),
            final(self).initial_buffer_capacity == old(self).initial_buffer_capacity,
            final(self).buckets@[bidx as int].registered,
    {
        if self.buckets[bidx].registered {
            return;
        }
        let ghost old_ix = *self;
        proof {
            assert(bucket_wf(self.buckets@[bidx as int], bidx as int, self.bucket_bits));
        }
        // Insertion point in the sorted activation list.
        let mut lo: usize = 0;
        let mut hi: usize = self.active.len();
        while lo < hi
            invariant
                0 <= lo <= hi <= self.active@.len(),
                self.active == old_ix.active,
                forall|a: int, b: int| 0 <= a < b < self.active@.len() ==> self.active@[a] < self.active@[b],
                forall|a: int| 0 <= a < lo ==> self.active@[a] < bidx,
                forall|a: int| hi <= a < self.active@.len() ==> self.active@[a] > bidx,
                forall|a: int| 0 <= a < self.active@.len() ==> (#[trigger] self.active@[a]) != bidx,
            decreases hi - lo,
        {
            let mid = lo + (hi - lo) / 2;
            if self.active[mid] < bidx {
                lo = mid + 1;
            } else {
                hi = mid;
            }
        }
        let ghost a0 = self.active@;
        self.active.insert(lo, bidx);
        let has_buffer = self.buckets[bidx].head.is_some();
        let snapshot = if has_buffer { self.buckets[bidx].snapshot.take() } else { None };
        let head = if has_buffer { self.buckets[bidx].head.take() } else {
            Some(Buffer { recs: Vec::new(), cap: self.initial_buffer_capacity })
        };
        let tail = self.buckets[bidx].snapshot_tail;
        self.buckets.set(bidx, Bucket { head, registered: true, snapshot, snapshot_tail: tail });
        proof {
            let nb = self.buckets@[bidx as int];
            let ob = old_ix.buckets@[bidx as int];
            assert(bucket_log(nb) =~= bucket_log(ob));
            assert forall|i: int| 0 <= i < self.buckets@.len() implies bucket_wf(#[trigger] self.buckets@[i], i, self.bucket_bits) by {
                if i != bidx {
                    assert(self.buckets@[i] == old_ix.buckets@[i]);
                }
            }
            assert forall|a: int, b: int| 0 <= a < b < self.active@.len() implies self.active@[a] < self.active@[b] by {
                if a < lo && b > lo {
                    assert(self.active@[a] == a0[a] && self.active@[b] == a0[b - 1]);
                } else if a == lo {
                    assert(self.active@[b] == a0[b - 1]);
                } else if b == lo {
                    assert(self.active@[a] == a0[a]);
                } else if a > lo {
                    assert(self.active@[a] == a0[a - 1] && self.active@[b] == a0[b - 1]);
                } else {
                    assert(self.active@[a] == a0[a] && self.active@[b] == a0[b]);
                }
            }
            assert forall|a: int| 0 <= a < self.active@.len() implies (#[trigger] self.active@[a]) < self.buckets@.len()
                && self.buckets@[self.active@[a] as int].registered by {
                if a != lo {
                    let x = if a < lo { a0[a] } else { a0[a - 1] };
                    assert(self.active@[a] == x);
                    if x != bidx {
                        assert(self.buckets@[x as int] == old_ix.buckets@[x as int]);
                    }
                }
            }
            assert forall|i: int| 0 <= i < self.buckets@.len() && (#[trigger] self.buckets@[i]).registered
                implies exists|a: int| 0 <= a < self.active@.len() && self.active@[a] == i by {
                if i == bidx {
                    assert(self.active@[lo as int] == i);
                } else {
                    assert(self.buckets@[i] == old_ix.buckets@[i]);
                    let a = choose|a: int| 0 <= a < a0.len() && a0[a] == i;
                    if a < lo {
                        assert(self.active@[a] == i);
                    } else {
                        assert(self.active@[a + 1] == i);
                    }
                }
            }
            assert forall|kb: Seq<u8>| #[trigger] self.state(kb) == old_ix.state(kb) by {
                lemma_bucket_in_range(kb, self.bucket_bits);
                let bi = bucket_of(kb, self.bucket_bits);
                if bi != bidx {
                    assert(self.buckets@[bi] == old_ix.buckets@[bi]);
                }
            }
        }
        if !has_buffer {
            if let Some(bytes) = Self::buffer_bytes(self.initial_buffer_capacity, 0) {
                self.account(bytes, core::mem::align_of::<Buffer<K, V>>());
            }
        }
    }

    /// Make sure bucket `bidx` has a buffer with room, consolidating it when full.
    fn reserve_slot(&mut self, bidx: usize)
        requires
            old(self).wf(),
            bidx < old(self).buckets@.len(),
            old(self).buckets@[bidx as int].registered,
        ensures
            final(self).wf(),
            forall|kb: Seq<u8>| #[trigger] final(self).state(kb) == old(self).state(kb),
            final(self).bucket_bits == old(self).bucket_bits,
            final(self).buckets@.len() == old(self).buckets@.len(),
            final(self).initial_buffer_capacity == old(self).initial_buffer_capacity,
            final(self).buckets@[bidx as int].head is Some,
            final(self).buckets@[bidx as int].registered == old(self).buckets@[bidx as int].registered,
    {
        let full = match &self.buckets[bidx].head {
            Some(buf) => buf.recs.len() >= buf.cap,
            None => false,
        };
        if full {
            self.consolidate_bucket(bidx);
        }
        if self.buckets[bidx].head.is_none() {
            let ghost old_ix = *self;
            proof {
                assert(bucket_wf(self.buckets@[bidx as int], bidx as int, self.bucket_bits));
            }
            let registered = self.buckets[bidx].registered;
            self.buckets.set(bidx, Bucket {
                head: Some(Buffer { recs: Vec::new(), cap: self.initial_buffer_capacity }),
                registered,
                snapshot: None,
                snapshot_tail: 0,
            });
            proof {
                Self::lemma_replace_bucket(&old_ix, self, bidx as int);
                assert forall|kb: Seq<u8>| #[trigger] self.state(kb) == old_ix.state(kb) by {
                    if bucket_of(kb, self.bucket_bits) == bidx {
                        assert(bucket_log(self.buckets@[bidx as int]) =~= bucket_log(old_ix.buckets@[bidx as int]));
                    }
                }
            }
            if let Some(bytes) = Self::buffer_bytes(self.initial_buffer_capacity, 0) {
                self.account(bytes, core::mem::align_of::<Buffer<K, V>>());
            }
        }
    }

    /// Append a record for `key` to its bucket.
    fn append_record(&mut self, key: &K, kind: u8, value: V)
        requires
            old(self).wf(),
        ensures
            final(self).wf(),
            forall|kb: Seq<u8>| #[trigger] final(self).state(kb) == (if kb == key.key_bytes() {
                if kind == KIND_UPSERT { DeltaState::Hit(value) } else { DeltaState::Tombstone }
            } else {
                old(self).state(kb)
            }),
            final(self).bucket_bits == old(self).bucket_bits,
            final(self).buckets@.len() == old(self).buckets@.len(),
    {
        let h = hash64(key);
        let bidx = self.bucket_index(h);
        self.ensure_activated(bidx);
        self.reserve_slot(bidx);
        let ghost mid = *self;
        proof {
            assert(bucket_wf(self.buckets@[bidx as int], bidx as int, self.bucket_bits));
        }
        let rec = Rec { kind, key: key.clone_key(), value };
        let ghost rv = rec_view(rec);
        let mut buf = self.buckets[bidx].head.take().unwrap();
        let ghost recs0 = buf.recs@;
        buf.recs.push(rec);
        self.buckets[bidx].head = Some(buf);
        proof {
            let nb = self.buckets@[bidx as int];
            let ob = mid.buckets@[bidx as int];
            assert(recs_view(recs0.push(rec)) =~= recs_view(recs0).push(rv));
            if let Some(m) = nb.snapshot {
                lemma_snap_extend(m, recs0, rec, nb.snapshot_tail as int, self.bucket_bits);
            }
            assert forall|i: int| 0 <= i < nb.head->Some_0.recs@.len()
                implies bucket_of((#[trigger] nb.head->Some_0.recs@[i]).key.key_bytes(), self.bucket_bits) == bidx by {
                if i < recs0.len() {
                    assert(nb.head->Some_0.recs@[i] == recs0[i]);
                }
            }
            assert(bucket_wf(nb, bidx as int, self.bucket_bits));
            Self::lemma_replace_bucket(&mid, self, bidx as int);
            assert forall|kb: Seq<u8>| #[trigger] self.state(kb) == (if kb == key.key_bytes() {
                if kind == KIND_UPSERT { DeltaState::Hit(value) } else { DeltaState::Tombstone }
            } else {
                old(self).state(kb)
            }) by {
                if bucket_of(kb, self.bucket_bits) == bidx {
                    lemma_log_push(recs_view(recs0), rv, kb);
                }
            }
        }
    }

    /// Insert or update a key: appends an upsert record to the key's bucket.
    pub fn upsert(&mut self, key: &K, value: &V)
        requires
            old(self).wf(),
        ensures
            final(self).wf(),
            forall|kb: Seq<u8>| #[trigger] final(self).state(kb) == (if kb == key.key_bytes() {
                DeltaState::Hit(*value)
            } else {
                old(self).state(kb)
            }),
            final(self).bits_view() == old(self).bits_view(),
            final(self).bucket_count_view() == old(self).bucket_count_view(),
    {
        self.append_record(key, KIND_UPSERT, *value);
    }

    /// Delete a key: appends a tombstone record to the key's bucket.
    pub fn delete(&mut self, key: &K)
        where V: Default
        requires
            old(self).wf(),
        ensures
            final(self).wf(),
            forall|kb: Seq<u8>| #[trigger] final(self).state(kb) == (if kb == key.key_bytes() {
                DeltaState::Tombstone
            } else {
                old(self).state(kb)
            }),
            final(self).bits_view() == old(self).bits_view(),
            final(self).bucket_count_view() == old(self).bucket_count_view(),
    {
        self.append_record(key, KIND_TOMBSTONE, V::default());
    }

    /// Clear all buckets and the activation list.
    pub fn clear_all(&mut self)
        requires
            old(self).wf(),
        ensures
            final(self).wf(),
            forall|kb: Seq<u8>| #[trigger] final(self).state(kb) == DeltaState::<V>::Miss,
            final(self).bits_view() == old(self).bits_view(),
            final(self).bucket_count_view() == old(self).bucket_count_view(),
            final(self).details_view().len() == 0,
    {
        let n = self.buckets.len();
        let mut i: usize = 0;
        while i < n
            invariant
                0 <= i <= n,
                n == self.buckets@.len(),
                self.bucket_bits == old(self).bucket_bits,
                self.initial_buffer_capacity == old(self).initial_buffer_capacity,
                self.buckets@.len() == old(self).buckets@.len(),
                self.arena == old(self).arena,
                old(self).wf(),
                forall|j: int| 0 <= j < i ==> (#[trigger] self.buckets@[j]).head is None && !self.buckets@[j].registered
                    && self.buckets@[j].snapshot is None && self.buckets@[j].snapshot_tail == 0,
            decreases n - i,
        {
            self.buckets.set(i, Bucket { head: None, registered: false, snapshot: None, snapshot_tail: 0 });
            i = i + 1;
        }
        self.active = Vec::new();
        proof {
            assert forall|j: int| 0 <= j < self.buckets@.len() implies bucket_wf(#[trigger] self.buckets@[j], j, self.bucket_bits) by {
                assert(self.buckets@[j].head is None);
            }
            assert forall|kb: Seq<u8>| #[trigger] self.state(kb) == DeltaState::<V>::Miss by {
                lemma_bucket_in_range(kb, self.bucket_bits);
            }
        }
    }

    /// Account in the arena for one request of `size` bytes at the alignment
    /// of `align`, when the request is of a reasonable size and the alignment
    /// a power of two (as every type's alignment is); nothing else changes.
    fn account(&mut self, size: usize, align: usize)
        requires
            old(self).arena.wf(),
        ensures
            final(self).arena.wf(),
            final(self).buckets == old(self).buckets,
            final(self).bucket_bits == old(self).bucket_bits,
            final(self).active == old(self).active,
            final(self).initial_buffer_capacity == old(self).initial_buffer_capacity,
            forall|kb: Seq<u8>| #[trigger] final(self).state(kb) == old(self).state(kb),
            old(self).wf() ==> final(self).wf(),
    {
        if size <= MAX_REASONABLE_SIZE && align <= usize::MAX / 2 + 1 {
            if crate::pow2::next_power_of_two(align) == align {
                let _ = self.arena.alloc_bytes(size, align);
            }
        }
    }

    /// Bytes of a buffer of `cap` records: its header, then the records,
    /// then, 2-byte aligned, a snapshot of `entries` entries when it has any
    /// (`None` when the sum does not fit a `usize`).
    fn buffer_bytes(cap: usize, entries: usize) -> (r: Option<usize>) {
        let header = core::mem::size_of::<Buffer<K, V>>();
        let rec = core::mem::size_of::<Rec<K, V>>();
        let recs = match cap.checked_mul(rec) {
            Some(x) => x,
            None => {
                return None;
            },
        };
        let base = match header.checked_add(recs) {
            Some(x) => x,
            None => {
                return None;
            },
        };
        if entries == 0 {
            return Some(base);
        }
        if base > usize::MAX - 1 || entries > usize::MAX / 8 {
            return None;
        }
        proof {
            crate::pow2::lemma_two_is_pow2();
        }
        let snap_at = crate::mph_delta_index::arena::align_up(base, 2);
        let snap = ReadTinyMap::calculate_size(entries);
        snap_at.checked_add(snap)
    }

    /// Rebuild a bucket's snapshot over its whole log (no new buffer).
    fn rebuild_snapshot(&mut self, bidx: usize)
        requires
            old(self).wf(),
            bidx < old(self).buckets@.len(),
        ensures
            final(self).wf(),
            forall|kb: Seq<u8>| #[trigger] final(self).state(kb) == old(self).state(kb),
            final(self).bucket_bits == old(self).bucket_bits,
            final(self).active == old(self).active,
            final(self).buckets@.len() == old(self).buckets@.len(),
            final(self).initial_buffer_capacity == old(self).initial_buffer_capacity,
            Self::same_elsewhere(old(self).buckets@, final(self).buckets@, bidx as int),
            final(self).buckets@[bidx as int].registered == old(self).buckets@[bidx as int].registered,
            bucket_log(final(self).buckets@[bidx as int]) == bucket_log(old(self).buckets@[bidx as int]),
            snap_fresh(final(self).buckets@[bidx as int]),
            final(self).buckets@[bidx as int].head == old(self).buckets@[bidx as int].head,
    {
        let ghost old_ix = *self;
        proof {
            assert(bucket_wf(self.buckets@[bidx as int], bidx as int, self.bucket_bits));
        }
        let (snapshot, tail) = match &self.buckets[bidx].head {
            None => {
                return;
            },
            Some(buf) => build_snapshot(&buf.recs, self.bucket_bits),
        };
        let entries = match &snapshot {
            Some(m) => m.count(),
            None => 0,
        };
        self.buckets[bidx].snapshot = snapshot;
        self.buckets[bidx].snapshot_tail = tail;
        proof {
            assert(bucket_log(self.buckets@[bidx as int]) == bucket_log(old_ix.buckets@[bidx as int]));
            Self::lemma_replace_bucket(&old_ix, self, bidx as int);
        }
        if entries > 0 && entries <= usize::MAX / 8 {
            proof {
                crate::pow2::lemma_two_is_pow2();
            }
            self.account(ReadTinyMap::calculate_size(entries), 2);
        }
    }
}


spec fn log_len<K, V>(b: Bucket<K, V>) -> nat {
    match b.head {
        Some(buf) => buf.recs@.len(),
        None => 0,
    }
}

spec fn head_count<K, V>(bs: Seq<Bucket<K, V>>, act: Seq<usize>, n: int) -> nat
    decreases n,
{
    if n <= 0 {
        0
    } else {
        head_count(bs, act, n - 1) + if bs[act[n - 1] as int].head is Some { 1nat } else { 0nat }
    }
}

spec fn sat_records<K, V>(bs: Seq<Bucket<K, V>>, act: Seq<usize>, n: int) -> nat
    decreases n,
{
    if n <= 0 {
        0
    } else {
        let s = sat_records(bs, act, n - 1) + log_len(bs[act[n - 1] as int]);
        if s > usize::MAX { usize::MAX as nat } else { s }
    }
}

spec fn stale_count<K, V>(bs: Seq<Bucket<K, V>>, act: Seq<usize>, n: int) -> nat
    decreases n,
{
    if n <= 0 {
        0
    } else {
        stale_count(bs, act, n - 1) + if bs[act[n - 1] as int].head is Some
            && bs[act[n - 1] as int].snapshot_tail < log_len(bs[act[n - 1] as int]) { 1nat } else { 0nat }
    }
}

proof fn lemma_sums_local<K, V>(bs1: Seq<Bucket<K, V>>, bs2: Seq<Bucket<K, V>>, act: Seq<usize>, n: int)
    requires
        0 <= n <= act.len(),
        forall|a: int| 0 <= a < n ==> bs1[(#[trigger] act[a]) as int] == bs2[act[a] as int],
    ensures
        head_count(bs1, act, n) == head_count(bs2, act, n),
        sat_records(bs1, act, n) == sat_records(bs2, act, n),
        stale_count(bs1, act, n) == stale_count(bs2, act, n),
        sat_records(bs1, act, n) <= usize::MAX,
        head_count(bs1, act, n) <= n,
        stale_count(bs1, act, n) <= n,
    decreases n,
{
    if n > 0 {
        lemma_sums_local(bs1, bs2, act, n - 1);
        assert(bs1[act[n - 1] as int] == bs2[act[n - 1] as int]);
    }
}

/// Bucket `b` is one of the first `i` activated buckets.
spec fn done_in(act: Seq<usize>, i: int, b: int) -> bool {
    exists|a: int| 0 <= a < i && act[a] == b
}

impl<K: IndexKey, V: Copy> RadixIndex<K, V> {
    /// Number of activated buckets with a buffer.
    pub closed spec fn buffered_buckets(&self) -> nat {
        head_count(self.buckets@, self.active@, self.active@.len() as int)
    }

    /// Records across the activated buckets, saturating at `usize::MAX`.
    pub closed spec fn record_total(&self) -> nat {
        sat_records(self.buckets@, self.active@, self.active@.len() as int)
    }

    /// Number of activated buckets whose snapshot does not cover their whole log.
    pub closed spec fn stale_snapshots(&self) -> nat {
        stale_count(self.buckets@, self.active@, self.active@.len() as int)
    }

    /// Rebuild the snapshot of every activated bucket that has records beyond
    /// its snapshot. Returns the number of snapshots rebuilt.
    pub fn consolidate_snapshots_only(&mut self) -> (r: usize)
        requires
            old(self).wf(),
        ensures
            final(self).wf(),
            forall|kb: Seq<u8>| #[trigger] final(self).state(kb) == old(self).state(kb),
            r == old(self).stale_snapshots(),
            final(self).bits_view() == old(self).bits_view(),
            final(self).bucket_count_view() == old(self).bucket_count_view(),
            final(self).snapshots_fresh(),
    {
        let n = self.active.len();
        let mut rebuilt: usize = 0;
        let mut i: usize = 0;
        while i < n
            invariant
                0 <= i <= n,
                n == self.active@.len(),
                self.wf(),
                self.active == old(self).active,
                self.bucket_bits == old(self).bucket_bits,
                self.buckets@.len() == old(self).buckets@.len(),
                forall|kb: Seq<u8>| #[trigger] self.state(kb) == old(self).state(kb),
                forall|a: int| i <= a < n ==> self.buckets@[(#[trigger] self.active@[a]) as int] == old(self).buckets@[self.active@[a] as int],
                rebuilt == stale_count(old(self).buckets@, self.active@, i as int),
                rebuilt <= i,
                forall|a: int| 0 <= a < i ==> snap_fresh(self.buckets@[(#[trigger] self.active@[a]) as int]),
            decreases n - i,
        {
            let bidx = self.active[i];
            proof {
                lemma_sums_local(old(self).buckets@, old(self).buckets@, self.active@, i as int);
                assert(self.buckets@[bidx as int] == old(self).buckets@[bidx as int]);
            }
            let stale = match &self.buckets[bidx].head {
                Some(buf) => self.buckets[bidx].snapshot_tail < buf.recs.len(),
                None => false,
            };
            if !stale {
                proof {
                    let b = self.buckets@[bidx as int];
                    assert(bucket_wf(b, bidx as int, self.bucket_bits));
                    assert(snap_fresh(b));
                }
            }
            if stale {
                let ghost pre = self.buckets@;
                self.rebuild_snapshot(bidx);
                rebuilt = rebuilt + 1;
                proof {
                    assert forall|a: int| 0 <= a < i implies snap_fresh(self.buckets@[(#[trigger] self.active@[a]) as int]) by {
                        assert(self.active@[a] < self.active@[i as int]);
                        assert(pre[self.active@[a] as int] == self.buckets@[self.active@[a] as int]);
                    }
                    assert forall|a: int| i < a < n implies self.buckets@[(#[trigger] self.active@[a]) as int] == old(self).buckets@[self.active@[a] as int] by {
                        assert(self.active@[a] > self.active@[i as int]);
                        assert(pre[self.active@[a] as int] == self.buckets@[self.active@[a] as int]);
                    }
                }
            }
            i = i + 1;
        }
        proof {
            assert forall|j: int| 0 <= j < self.buckets@.len() implies snap_fresh(#[trigger] self.buckets@[j]) by {
                if self.buckets@[j].head is Some {
                    let a = choose|a: int| 0 <= a < self.active@.len() && self.active@[a] == j;
                    assert(snap_fresh(self.buckets@[self.active@[a] as int]));
                }
            }
        }
        rebuilt
    }

    /// Consolidate every activated bucket: keep the latest record of each key,
    /// tombstones included. Returns the number of buckets consolidated and
    /// the record totals before and after (each saturating).
    pub fn consolidate_buckets(&mut self) -> (r: (usize, usize, usize))
        requires
            old(self).wf(),
        ensures
            final(self).wf(),
            forall|kb: Seq<u8>| #[trigger] final(self).state(kb) == old(self).state(kb),
            r.0 == old(self).buffered_buckets(),
            r.1 == old(self).record_total(),
            r.2 == final(self).record_total(),
            final(self).bits_view() == old(self).bits_view(),
            final(self).bucket_count_view() == old(self).bucket_count_view(),
            final(self).consolidated(),
    {
        self.fold_buckets(false)
    }

    /// Compact every activated bucket: keep the latest record of each key
    /// only when it is an upsert. Returns the number of buckets compacted and
    /// the record totals before and after (each saturating).
    pub fn compact_buckets(&mut self) -> (r: (usize, usize, usize))
        requires
            old(self).wf(),
        ensures
            final(self).wf(),
            forall|kb: Seq<u8>| #[trigger] final(self).state(kb) == (if old(self).state(kb) is Tombstone {
                DeltaState::Miss
            } else {
                old(self).state(kb)
            }),
            r.0 == old(self).buffered_buckets(),
            r.1 == old(self).record_total(),
            r.2 == final(self).record_total(),
            final(self).bits_view() == old(self).bits_view(),
            final(self).bucket_count_view() == old(self).bucket_count_view(),
    {
        self.fold_buckets(true)
    }

    fn fold_buckets(&mut self, drop_tombstones: bool) -> (r: (usize, usize, usize))
        requires
            old(self).wf(),
        ensures
            final(self).wf(),
            forall|kb: Seq<u8>| #[trigger] final(self).state(kb) == (if drop_tombstones && old(self).state(kb) is Tombstone {
                DeltaState::Miss
            } else {
                old(self).state(kb)
            }),
            r.0 == old(self).buffered_buckets(),
            r.1 == old(self).record_total(),
            r.2 == final(self).record_total(),
            final(self).bits_view() == old(self).bits_view(),
            final(self).bucket_count_view() == old(self).bucket_count_view(),
            final(self).consolidated(),
    {
        let n = self.active.len();
        let mut count: usize = 0;
        let mut before: usize = 0;
        let mut after: usize = 0;
        let mut i: usize = 0;
        while i < n
            invariant
                0 <= i <= n,
                n == self.active@.len(),
                self.wf(),
                old(self).wf(),
                self.active == old(self).active,
                self.bucket_bits == old(self).bucket_bits,
                self.buckets@.len() == old(self).buckets@.len(),
                forall|kb: Seq<u8>| #[trigger] self.state(kb) == (if drop_tombstones && done_in(self.active@, i as int, bucket_of(kb, self.bucket_bits))
                    && old(self).state(kb) is Tombstone {
                    DeltaState::Miss
                } else {
                    old(self).state(kb)
                }),
                forall|a: int| i <= a < n ==> self.buckets@[(#[trigger] self.active@[a]) as int] == old(self).buckets@[self.active@[a] as int],
                count == head_count(old(self).buckets@, self.active@, i as int),
                before == sat_records(old(self).buckets@, self.active@, i as int),
                after == sat_records(self.buckets@, self.active@, i as int),
                count <= i,
                forall|a: int| 0 <= a < i ==> bucket_consolidated(self.buckets@[(#[trigger] self.active@[a]) as int]),
            decreases n - i,
        {
            let bidx = self.active[i];
            proof {
                lemma_sums_local(old(self).buckets@, old(self).buckets@, self.active@, i as int);
                lemma_sums_local(self.buckets@, self.buckets@, self.active@, i as int);
                assert(self.buckets@[bidx as int] == old(self).buckets@[bidx as int]);
            }
            let ghost pre = self.buckets@;
            let ghost pre_ix = *self;
            let (has_buf, tail) = match &self.buckets[bidx].head {
                Some(buf) => (true, buf.recs.len()),
                None => (false, 0),
            };
            if has_buf {
                before = before.saturating_add(tail);
                self.fold_bucket(bidx, drop_tombstones);
                let t2 = match &self.buckets[bidx].head {
                    Some(buf) => buf.recs.len(),
                    None => 0,
                };
                after = after.saturating_add(t2);
                count = count + 1;
            }
            proof {
                assert forall|a: int| 0 <= a < i implies pre[(#[trigger] self.active@[a]) as int] == self.buckets@[self.active@[a] as int] by {
                    assert(self.active@[a] < self.active@[i as int]);
                }
                if !has_buf {
                    assert(bucket_log(self.buckets@[bidx as int]).len() == 0);
                }
                assert(bucket_consolidated(self.buckets@[bidx as int]));
                assert forall|a: int| 0 <= a < i + 1 implies bucket_consolidated(self.buckets@[(#[trigger] self.active@[a]) as int]) by {
                    if a < i {
                        assert(bucket_consolidated(pre[self.active@[a] as int]));
                    }
                }
                lemma_sums_local(pre, self.buckets@, self.active@, i as int);
                assert forall|a: int| i + 1 <= a < n implies self.buckets@[(#[trigger] self.active@[a]) as int] == old(self).buckets@[self.active@[a] as int] by {
                    assert(self.active@[a] > self.active@[i as int]);
                    assert(pre[self.active@[a] as int] == self.buckets@[self.active@[a] as int]);
                }
                assert forall|kb: Seq<u8>| #[trigger] self.state(kb) == (if drop_tombstones && done_in(self.active@, i + 1, bucket_of(kb, self.bucket_bits))
                    && old(self).state(kb) is Tombstone {
                    DeltaState::Miss
                } else {
                    old(self).state(kb)
                }) by {
                    let b = bucket_of(kb, self.bucket_bits);
                    assert(pre_ix.state(kb) == (if drop_tombstones && done_in(self.active@, i as int, b) && old(self).state(kb) is Tombstone {
                        DeltaState::Miss
                    } else {
                        old(self).state(kb)
                    }));
                    if b == bidx {
                        assert(done_in(self.active@, i + 1, b)) by {
                            assert(self.active@[i as int] == b);
                        }
                        if done_in(self.active@, i as int, b) {
                            let a = choose|a: int| 0 <= a < i && self.active@[a] == b;
                            assert(self.active@[a] < self.active@[i as int]);
                        }
                        if !has_buf {
                            assert(bucket_log(pre[bidx as int]).len() == 0);
                            assert(pre_ix.state(kb) is Miss);
                        }
                    } else {
                        if done_in(self.active@, i + 1, b) {
                            let a = choose|a: int| 0 <= a < i + 1 && self.active@[a] == b;
                            assert(a != i);
                            assert(done_in(self.active@, i as int, b));
                        }
                    }
                }
            }
            i = i + 1;
        }
        proof {
            assert forall|kb: Seq<u8>| #[trigger] self.state(kb) == (if drop_tombstones && old(self).state(kb) is Tombstone {
                DeltaState::Miss
            } else {
                old(self).state(kb)
            }) by {
                let b = bucket_of(kb, self.bucket_bits);
                if drop_tombstones && old(self).state(kb) is Tombstone {
                    lemma_bucket_in_range(kb, self.bucket_bits);
                    assert(old(self).buckets@[b].head is Some);
                    assert(old(self).buckets@[b].registered);
                    let a = choose|a: int| 0 <= a < old(self).active@.len() && old(self).active@[a] == b;
                    assert(done_in(self.active@, n as int, b));
                }
            }
            assert forall|j: int| 0 <= j < self.buckets@.len() implies bucket_consolidated(#[trigger] self.buckets@[j]) by {
                if self.buckets@[j].head is Some {
                    let a = choose|a: int| 0 <= a < self.active@.len() && self.active@[a] == j;
                    assert(bucket_consolidated(self.buckets@[self.active@[a] as int]));
                } else {
                    assert(bucket_log(self.buckets@[j]).len() == 0);
                }
            }
        }
        (count, before, after)
    }
}


spec fn snapshot_log<K: IndexKey, V>(b: Bucket<K, V>) -> Seq<(Seq<u8>, Option<V>)> {
    match (b.head, b.snapshot) {
        (Some(buf), Some(_)) => recs_view(buf.recs@.take(b.snapshot_tail as int)),
        _ => Seq::empty(),
    }
}

impl<K: IndexKey, V: Copy> RadixIndex<K, V> {
    /// For every key with a record, its key and its latest value (`None`
    /// for a tombstone), each key once.
    pub fn latest_records<'a>(&'a self) -> (r: Vec<(&'a K, Option<&'a V>)>)
        requires
            self.wf(),
        ensures
            forall|j: int| 0 <= j < r@.len() ==> match (#[trigger] r@[j]).1 {
                Some(v) => self.state(r@[j].0.key_bytes()) == DeltaState::Hit(*v),
                None => self.state(r@[j].0.key_bytes()) is Tombstone,
            },
            forall|kb: Seq<u8>| #[trigger] self.has_record(kb) ==> exists|j: int| 0 <= j < r@.len() && r@[j].0.key_bytes() == kb,
            forall|j: int, k: int| 0 <= j < k < r@.len() ==> r@[j].0.key_bytes() != r@[k].0.key_bytes(),
    {
        let mut out: Vec<(&'a K, Option<&'a V>)> = Vec::new();
        let nb = self.buckets.len();
        let mut b: usize = 0;
        while b < nb
            invariant
                0 <= b <= nb,
                nb == self.buckets@.len(),
                self.wf(),
                forall|j: int| 0 <= j < out@.len() ==> match (#[trigger] out@[j]).1 {
                    Some(v) => self.state(out@[j].0.key_bytes()) == DeltaState::Hit(*v),
                    None => self.state(out@[j].0.key_bytes()) is Tombstone,
                },
                forall|j: int| 0 <= j < out@.len() ==> bucket_of((#[trigger] out@[j]).0.key_bytes(), self.bucket_bits) < b,
                forall|kb: Seq<u8>| bucket_of(kb, self.bucket_bits) < b && #[trigger] self.has_record(kb)
                    ==> exists|j: int| 0 <= j < out@.len() && out@[j].0.key_bytes() == kb,
                forall|j: int, k: int| 0 <= j < k < out@.len() ==> out@[j].0.key_bytes() != out@[k].0.key_bytes(),
            decreases nb - b,
        {
            proof {
                assert(bucket_wf(self.buckets@[b as int], b as int, self.bucket_bits));
            }
            match &self.buckets[b].head {
                None => {
                    proof {
                        assert forall|kb: Seq<u8>| bucket_of(kb, self.bucket_bits) < b + 1 && #[trigger] self.has_record(kb)
                            implies exists|j: int| 0 <= j < out@.len() && out@[j].0.key_bytes() == kb by {
                            if bucket_of(kb, self.bucket_bits) == b {
                                assert(bucket_log(self.buckets@[b as int]).len() == 0);
                            }
                        }
                    }
                },
                Some(buf) => {
                    let ghost log = recs_view(buf.recs@);
                    let ghost start = out@.len();
                    proof {
                        lemma_view_take(buf.recs@, 0);
                        assert(bucket_log(self.buckets@[b as int]) == log);
                    }
                    let n = buf.recs.len();
                    let mut i: usize = 0;
                    while i < n
                        invariant
                            0 <= i <= n,
                            n == buf.recs@.len(),
                            self.wf(),
                            b < nb,
                            nb == self.buckets@.len(),
                            self.buckets@[b as int].head == Some(*buf),
                            log == recs_view(buf.recs@),
                            log == bucket_log(self.buckets@[b as int]),
                            log.len() == buf.recs@.len(),
                            forall|q: int| 0 <= q < buf.recs@.len() ==> #[trigger] log[q] == rec_view(buf.recs@[q]),
                            forall|q: int| 0 <= q < buf.recs@.len() ==> bucket_of((#[trigger] buf.recs@[q]).key.key_bytes(), self.bucket_bits) == b,
                            start <= out@.len(),
                            forall|j: int| 0 <= j < out@.len() ==> match (#[trigger] out@[j]).1 {
                                Some(v) => self.state(out@[j].0.key_bytes()) == DeltaState::Hit(*v),
                                None => self.state(out@[j].0.key_bytes()) is Tombstone,
                            },
                            forall|j: int| 0 <= j < start ==> bucket_of((#[trigger] out@[j]).0.key_bytes(), self.bucket_bits) < b,
                            forall|j: int| start <= j < out@.len() ==> bucket_of((#[trigger] out@[j]).0.key_bytes(), self.bucket_bits) == b
                                && last_in(log, out@[j].0.key_bytes()) < i,
                            forall|kb: Seq<u8>| bucket_of(kb, self.bucket_bits) < b && #[trigger] self.has_record(kb)
                                ==> exists|j: int| 0 <= j < out@.len() && out@[j].0.key_bytes() == kb,
                            forall|kb: Seq<u8>| bucket_of(kb, self.bucket_bits) == b && 0 <= #[trigger] last_in(log, kb) < i
                                ==> exists|j: int| 0 <= j < out@.len() && out@[j].0.key_bytes() == kb,
                            forall|j: int, k: int| 0 <= j < k < out@.len() ==> out@[j].0.key_bytes() != out@[k].0.key_bytes(),
                        decreases n - i,
                    {
                        let ghost out0 = out@;
                        let last = is_last_rec(&buf.recs, i);
                        if last {
                            let rec = &buf.recs[i];
                            let v = if rec.kind == KIND_UPSERT { Some(&rec.value) } else { None };
                            out.push((&rec.key, v));
                            proof {
                                assert forall|kb: Seq<u8>| bucket_of(kb, self.bucket_bits) < b && #[trigger] self.has_record(kb)
                                    implies exists|j: int| 0 <= j < out@.len() && out@[j].0.key_bytes() == kb by {
                                    let j = choose|j: int| 0 <= j < out0.len() && out0[j].0.key_bytes() == kb;
                                    assert(out@[j] == out0[j]);
                                }
                                let kb = rec.key.key_bytes();
                                assert(log[i as int] == rec_view(buf.recs@[i as int]));
                                assert(self.state(kb) == log_state(log, kb));
                                assert forall|j: int, k: int| 0 <= j < k < out@.len() implies out@[j].0.key_bytes() != out@[k].0.key_bytes() by {
                                    if k == out@.len() - 1 && j >= start {
                                        assert(out@[j] == out0[j]);
                                        lemma_last_in(log, out0[j].0.key_bytes());
                                    } else if k == out@.len() - 1 {
                                        assert(out@[j] == out0[j]);
                                    } else {
                                        assert(out@[j] == out0[j] && out@[k] == out0[k]);
                                    }
                                }
                                assert(out@[out@.len() - 1].0.key_bytes() == kb);
                            }
                        }
                        proof {
                            assert forall|kb: Seq<u8>| bucket_of(kb, self.bucket_bits) == b && 0 <= #[trigger] last_in(log, kb) < i + 1
                                implies exists|j: int| 0 <= j < out@.len() && out@[j].0.key_bytes() == kb by {
                                lemma_last_in(log, kb);
                                assert(log[i as int] == rec_view(buf.recs@[i as int]));
                                if last_in(log, kb) == i {
                                    assert(last);
                                    assert(out@[out@.len() - 1].0.key_bytes() == kb);
                                } else {
                                    let j = choose|j: int| 0 <= j < out0.len() && out0[j].0.key_bytes() == kb;
                                    assert(out@[j] == out0[j]);
                                }
                            }
                        }
                        i = i + 1;
                    }
                    proof {
                        assert forall|kb: Seq<u8>| bucket_of(kb, self.bucket_bits) < b + 1 && #[trigger] self.has_record(kb)
                            implies exists|j: int| 0 <= j < out@.len() && out@[j].0.key_bytes() == kb by {
                            if bucket_of(kb, self.bucket_bits) == b {
                                lemma_last_in(log, kb);
                                assert(0 <= last_in(log, kb) < n);
                            }
                        }
                    }
                },
            }
            b = b + 1;
        }
        proof {
            assert forall|kb: Seq<u8>| #[trigger] self.has_record(kb) implies exists|j: int| 0 <= j < out@.len() && out@[j].0.key_bytes() == kb by {
                lemma_bucket_in_range(kb, self.bucket_bits);
            }
        }
        out
    }
}


impl<K: IndexKey, V: Copy> RadixIndex<K, V> {

    /// Keys and latest values of the keys whose latest record is an upsert,
    /// each key once.
    pub fn iter_with_keys<'a>(&'a self) -> (r: Vec<(&'a K, &'a V)>)
        requires
            self.wf(),
        ensures
            forall|j: int| 0 <= j < r@.len() ==> self.state((#[trigger] r@[j]).0.key_bytes()) == DeltaState::Hit(*r@[j].1),
            forall|kb: Seq<u8>| #[trigger] self.state(kb) is Hit ==> exists|j: int| 0 <= j < r@.len() && r@[j].0.key_bytes() == kb,
            forall|j: int, k: int| 0 <= j < k < r@.len() ==> r@[j].0.key_bytes() != r@[k].0.key_bytes(),
            self.live_keys().finite(),
            r@.len() == self.live_keys().len(),
    {
        let recs = self.latest_records();
        let mut out: Vec<(&'a K, &'a V)> = Vec::new();
        let ghost mut src: Seq<int> = Seq::empty();
        let mut i: usize = 0;
        while i < recs.len()
            invariant
                self.wf(),
                0 <= i <= recs@.len(),
                forall|j: int| 0 <= j < recs@.len() ==> match (#[trigger] recs@[j]).1 {
                    Some(v) => self.state(recs@[j].0.key_bytes()) == DeltaState::Hit(*v),
                    None => self.state(recs@[j].0.key_bytes()) is Tombstone,
                },
                forall|j: int, k: int| 0 <= j < k < recs@.len() ==> recs@[j].0.key_bytes() != recs@[k].0.key_bytes(),
                src.len() == out@.len(),
                forall|j: int| 0 <= j < out@.len() ==> 0 <= #[trigger] src[j] < i && out@[j].0 == recs@[src[j]].0
                    && recs@[src[j]].1 == Some(out@[j].1),
                forall|j: int, k: int| 0 <= j < k < out@.len() ==> src[j] < src[k],
                forall|m: int| 0 <= m < i && (#[trigger] recs@[m]).1 is Some ==> exists|j: int| 0 <= j < out@.len() && src[j] == m,
            decreases recs@.len() - i,
        {
            let (k, v) = recs[i];
            let ghost src0 = src;
            let ghost out0 = out@;
            match v {
                Some(val) => {
                    out.push((k, val));
                    proof {
                        src = src.push(i as int);
                        assert forall|m: int| 0 <= m < i + 1 && (#[trigger] recs@[m]).1 is Some
                            implies exists|j: int| 0 <= j < out@.len() && src[j] == m by {
                            if m < i {
                                let j = choose|j: int| 0 <= j < out0.len() && src0[j] == m;
                                assert(src[j] == m);
                            } else {
                                assert(src[out0.len() as int] == m);
                            }
                        }
                    }
                },
                None => {
                    proof {
                        assert forall|m: int| 0 <= m < i + 1 && (#[trigger] recs@[m]).1 is Some
                            implies exists|j: int| 0 <= j < out@.len() && src[j] == m by {
                            if m < i {
                                let j = choose|j: int| 0 <= j < out0.len() && src0[j] == m;
                                assert(src[j] == m);
                            }
                        }
                    }
                },
            }
            i = i + 1;
        }
        proof {
            assert forall|j: int| 0 <= j < out@.len() implies self.state((#[trigger] out@[j]).0.key_bytes()) == DeltaState::Hit(*out@[j].1) by {
                assert(recs@[src[j]].1 == Some(out@[j].1));
            }
            assert forall|kb: Seq<u8>| #[trigger] self.state(kb) is Hit implies exists|j: int| 0 <= j < out@.len() && out@[j].0.key_bytes() == kb by {
                assert(self.has_record(kb));
                let m = choose|m: int| 0 <= m < recs@.len() && recs@[m].0.key_bytes() == kb;
                assert(recs@[m].1 is Some);
                let j = choose|j: int| 0 <= j < out@.len() && src[j] == m;
                assert(out@[j].0.key_bytes() == kb);
            }
            assert forall|j: int, k: int| 0 <= j < k < out@.len() implies out@[j].0.key_bytes() != out@[k].0.key_bytes() by {
                assert(src[j] < src[k]);
            }
            let ks = out@.map_values(|e: (&'a K, &'a V)| e.0.key_bytes());
            assert(ks.no_duplicates()) by {
                assert forall|a: int, b: int| 0 <= a < ks.len() && 0 <= b < ks.len() && a != b implies ks[a] != ks[b] by {
                    if a < b {
                        assert(out@[a].0.key_bytes() != out@[b].0.key_bytes());
                    } else {
                        assert(out@[b].0.key_bytes() != out@[a].0.key_bytes());
                    }
                }
            }
            assert(ks.to_set() =~= self.live_keys()) by {
                assert forall|kb: Seq<u8>| ks.to_set().contains(kb) <==> self.live_keys().contains(kb) by {
                    if ks.to_set().contains(kb) {
                        let q = choose|q: int| 0 <= q < ks.len() && ks[q] == kb;
                        assert(self.state(out@[q].0.key_bytes()) == DeltaState::Hit(*out@[q].1));
                    }
                    if self.live_keys().contains(kb) {
                        let j = choose|j: int| 0 <= j < out@.len() && out@[j].0.key_bytes() == kb;
                        assert(ks[j] == kb);
                    }
                }
            }
            ks.unique_seq_to_set();
        }
        out
    }

    /// Latest values of the keys whose latest record is an upsert.
    pub fn iter<'a>(&'a self) -> (r: Vec<&'a V>)
        requires
            self.wf(),
        ensures
            forall|j: int| #![trigger r@[j]] 0 <= j < r@.len() ==> exists|kb: Seq<u8>| #![trigger self.state(kb)] self.state(kb) == DeltaState::Hit(*r@[j]),
            forall|kb: Seq<u8>| #[trigger] self.state(kb) is Hit
                ==> exists|j: int| 0 <= j < r@.len() && *r@[j] == self.state(kb)->Hit_0,
            self.live_keys().finite(),
            r@.len() == self.live_keys().len(),
    {
        let entries = self.iter_with_keys();
        let mut out: Vec<&'a V> = Vec::new();
        let mut i: usize = 0;
        while i < entries.len()
            invariant
                0 <= i <= entries@.len(),
                out@.len() == i,
                forall|j: int| 0 <= j < i ==> #[trigger] out@[j] == entries@[j].1,
            decreases entries@.len() - i,
        {
            out.push(entries[i].1);
            i = i + 1;
        }
        proof {
            assert forall|j: int| #![trigger out@[j]] 0 <= j < out@.len() implies exists|kb: Seq<u8>| #![trigger self.state(kb)] self.state(kb) == DeltaState::Hit(*out@[j]) by {
                assert(self.state(entries@[j].0.key_bytes()) == DeltaState::Hit(*entries@[j].1));
            }
            assert forall|kb: Seq<u8>| #[trigger] self.state(kb) is Hit
                implies exists|j: int| 0 <= j < out@.len() && *out@[j] == self.state(kb)->Hit_0 by {
                let j = choose|j: int| 0 <= j < entries@.len() && entries@[j].0.key_bytes() == kb;
                assert(self.state(entries@[j].0.key_bytes()) == DeltaState::Hit(*entries@[j].1));
                assert(out@[j] == entries@[j].1);
            }
        }
        out
    }
}


/// Record `i` is the last record of its key in `recs`, and an upsert.
spec fn live_at<K: IndexKey, V>(recs: Seq<Rec<K, V>>, i: int) -> bool {
    &&& last_in(recs_view(recs), recs[i].key.key_bytes()) == i
    &&& recs[i].kind == KIND_UPSERT
}

/// Number of the first `n` records that are the last of their key and an
/// upsert: the keys that end live among them.
spec fn live_upto<K: IndexKey, V>(recs: Seq<Rec<K, V>>, n: int) -> nat
    decreases n,
{
    if n <= 0 {
        0
    } else {
        live_upto(recs, n - 1) + if live_at(recs, n - 1) { 1nat } else { 0nat }
    }
}

/// The keys whose last record in `log` is an upsert.
pub open spec fn hit_keys<V>(log: Seq<(Seq<u8>, Option<V>)>) -> Set<Seq<u8>> {
    Set::new(|kb: Seq<u8>| log_state(log, kb) is Hit)
}

/// Keys of the live records among the first `n`.
spec fn live_keys_upto<K: IndexKey, V>(recs: Seq<Rec<K, V>>, n: int) -> Set<Seq<u8>> {
    Set::new(|kb: Seq<u8>| exists|i: int| 0 <= i < n && #[trigger] live_at(recs, i) && recs[i].key.key_bytes() == kb)
}

proof fn lemma_live_upto<K: IndexKey, V>(recs: Seq<Rec<K, V>>, n: int)
    requires
        0 <= n <= recs.len(),
    ensures
        live_keys_upto(recs, n).finite(),
        live_keys_upto(recs, n).len() == live_upto(recs, n),
        live_upto(recs, n) <= n,
    decreases n,
{
    lemma_view_take(recs, 0);
    if n == 0 {
        assert(live_keys_upto(recs, 0) =~= Set::<Seq<u8>>::empty());
    } else {
        lemma_live_upto(recs, n - 1);
        let prev = live_keys_upto(recs, n - 1);
        let cur = live_keys_upto(recs, n);
        if live_at(recs, n - 1) {
            let k = recs[n - 1].key.key_bytes();
            assert(!prev.contains(k)) by {
                if prev.contains(k) {
                    let i = choose|i: int| 0 <= i < n - 1 && #[trigger] live_at(recs, i) && recs[i].key.key_bytes() == k;
                }
            }
            assert(cur =~= prev.insert(k));
        } else {
            assert(cur =~= prev);
        }
    }
}

/// The live records of a bucket's log are its hit keys, one each.
proof fn lemma_live_is_hits<K: IndexKey, V>(recs: Seq<Rec<K, V>>)
    ensures
        hit_keys(recs_view(recs)).finite(),
        hit_keys(recs_view(recs)).len() == live_upto(recs, recs.len() as int),
        live_upto(recs, recs.len() as int) <= recs.len(),
{
    let log = recs_view(recs);
    lemma_view_take(recs, 0);
    lemma_live_upto(recs, recs.len() as int);
    assert(live_keys_upto(recs, recs.len() as int) =~= hit_keys(log)) by {
        assert forall|kb: Seq<u8>| live_keys_upto(recs, recs.len() as int).contains(kb) <==> hit_keys(log).contains(kb) by {
            lemma_last_in(log, kb);
            let l = last_in(log, kb);
            if hit_keys(log).contains(kb) {
                assert(log[l] == rec_view(recs[l]));
                assert(live_at(recs, l));
            }
            if live_keys_upto(recs, recs.len() as int).contains(kb) {
                let i = choose|i: int| 0 <= i < recs.len() && #[trigger] live_at(recs, i) && recs[i].key.key_bytes() == kb;
                assert(log[i] == rec_view(recs[i]));
            }
        }
    }
}

spec fn upsert_count<K, V>(recs: Seq<Rec<K, V>>) -> nat
    decreases recs.len(),
{
    if recs.len() == 0 {
        0
    } else {
        upsert_count(recs.drop_last()) + if recs.last().kind == KIND_UPSERT { 1nat } else { 0nat }
    }
}

/// Number of upsert records whose key has tag `t`.
spec fn tag_count<K: IndexKey, V>(recs: Seq<Rec<K, V>>, bits: u32, t: int) -> nat
    decreases recs.len(),
{
    if recs.len() == 0 {
        0
    } else {
        tag_count(recs.drop_last(), bits, t) + if recs.last().kind == KIND_UPSERT
            && tag_of(recs.last().key.key_bytes(), bits) == t { 1nat } else { 0nat }
    }
}

/// Number of tags below `upto` carried by more than `more_than` upsert records.
spec fn tags_over<K: IndexKey, V>(recs: Seq<Rec<K, V>>, bits: u32, more_than: nat, upto: int) -> nat
    decreases upto,
{
    if upto <= 0 {
        0
    } else {
        tags_over(recs, bits, more_than, upto - 1) + if tag_count(recs, bits, upto - 1) > more_than { 1nat } else { 0nat }
    }
}

spec fn bucket_detail<K: IndexKey, V>(b: Bucket<K, V>, idx: usize, bits: u32) -> BucketStats {
    let recs = b.head->Some_0.recs@;
    BucketStats {
        bucket_idx: idx,
        key_count: live_upto(recs, recs.len() as int) as usize,
        total_records: recs.len() as usize,
        buffer_capacity: b.head->Some_0.cap,
        tinymap_size: match b.snapshot {
            Some(m) => m.slots_view().len() as usize,
            None => 0,
        },
        growth_count: 0,
        tag8_collisions: tags_over(recs, bits, 1, 256) as usize,
        unique_tags: tags_over(recs, bits, 0, 256) as usize,
    }
}

spec fn details_of<K: IndexKey, V>(bs: Seq<Bucket<K, V>>, act: Seq<usize>, bits: u32, n: int) -> Seq<BucketStats>
    decreases n,
{
    if n <= 0 {
        Seq::empty()
    } else {
        let prev = details_of(bs, act, bits, n - 1);
        let b = bs[act[n - 1] as int];
        if b.head is Some { prev.push(bucket_detail(b, act[n - 1], bits)) } else { prev }
    }
}

proof fn lemma_counts_bound<K: IndexKey, V>(recs: Seq<Rec<K, V>>, bits: u32, t: int)
    ensures
        upsert_count(recs) <= recs.len(),
        tag_count(recs, bits, t) <= recs.len(),
    decreases recs.len(),
{
    if recs.len() > 0 {
        lemma_counts_bound(recs.drop_last(), bits, t);
    }
}

proof fn lemma_tags_over_bound<K: IndexKey, V>(recs: Seq<Rec<K, V>>, bits: u32, more_than: nat, upto: int)
    ensures
        tags_over(recs, bits, more_than, upto) <= if upto < 0 { 0 } else { upto },
    decreases upto,
{
    if upto > 0 {
        lemma_tags_over_bound(recs, bits, more_than, upto - 1);
    }
}

/// Upsert count and per-tag counts of a bucket's records.
fn bucket_counts<K: IndexKey, V: Copy>(recs: &Vec<Rec<K, V>>, bits: u32) -> (r: (usize, usize, usize))
    requires
        bits < 64,
    ensures
        r.0 == live_upto(recs@, recs@.len() as int),
        r.1 == tags_over(recs@, bits, 1, 256),
        r.2 == tags_over(recs@, bits, 0, 256),
{
    let mut counts: Vec<usize> = Vec::new();
    let mut t: usize = 0;
    while t < 256
        invariant
            0 <= t <= 256,
            counts@.len() == t,
            forall|q: int| 0 <= q < t ==> #[trigger] counts@[q] == 0,
        decreases 256 - t,
    {
        counts.push(0);
        t = t + 1;
    }
    let n = recs.len();
    let mut keys: usize = 0;
    let mut i: usize = 0;
    proof {
        assert(recs@.take(0) =~= Seq::<Rec<K, V>>::empty());
    }
    while i < n
        invariant
            0 <= i <= n,
            n == recs@.len(),
            bits < 64,
            counts@.len() == 256,
            keys == live_upto(recs@, i as int),
            forall|q: int| 0 <= q < 256 ==> #[trigger] counts@[q] == tag_count(recs@.take(i as int), bits, q),
            forall|q: int| 0 <= q < 256 ==> #[trigger] counts@[q] <= i,
            keys <= i,
        decreases n - i,
    {
        let ghost c0 = counts@;
        proof {
            assert(recs@.take(i + 1).drop_last() =~= recs@.take(i as int));
        }
        if recs[i].kind == KIND_UPSERT && is_last_rec(recs, i) {
            keys = keys + 1;
        }
        if recs[i].kind == KIND_UPSERT {
            let h = hash64(&recs[i].key);
            let tag = tag8_from_hash_disjoint(h, bits);
            let c = counts[tag as usize];
            counts.set(tag as usize, c + 1);
            proof {
                assert forall|q: int| 0 <= q < 256 implies #[trigger] counts@[q] == tag_count(recs@.take(i + 1), bits, q) by {
                    if q != tag as int {
                        assert(counts@[q] == c0[q]);
                    }
                }
            }
        }
        i = i + 1;
    }
    proof {
        assert(recs@.take(n as int) =~= recs@);
    }
    let mut collisions: usize = 0;
    let mut unique: usize = 0;
    let mut t: usize = 0;
    while t < 256
        invariant
            0 <= t <= 256,
            counts@.len() == 256,
            forall|q: int| 0 <= q < 256 ==> #[trigger] counts@[q] == tag_count(recs@, bits, q),
            collisions == tags_over(recs@, bits, 1, t as int),
            unique == tags_over(recs@, bits, 0, t as int),
            collisions <= t,
            unique <= t,
        decreases 256 - t,
    {
        if counts[t] > 1 {
            collisions = collisions + 1;
        }
        if counts[t] > 0 {
            unique = unique + 1;
        }
        t = t + 1;
    }
    (keys, collisions, unique)
}

impl<K: IndexKey, V: Copy> RadixIndex<K, V> {
    /// The keys whose latest record is an upsert.
    pub open spec fn live_keys(&self) -> Set<Seq<u8>> {
        Set::new(|kb: Seq<u8>| self.state(kb) is Hit)
    }

    /// The live keys of the first `n` activated buckets.
    closed spec fn live_in_first(&self, n: int) -> Set<Seq<u8>> {
        Set::new(|kb: Seq<u8>| self.state(kb) is Hit
            && exists|a: int| 0 <= a < n && self.active@[a] == bucket_of(kb, self.bucket_bits))
    }

    /// The live keys of bucket `bi` are the hit keys of its log.
    proof fn lemma_bucket_hits(&self, bi: int)
        requires
            self.wf(),
            0 <= bi < self.buckets@.len(),
        ensures
            Set::new(|kb: Seq<u8>| self.state(kb) is Hit && bucket_of(kb, self.bucket_bits) == bi)
                == hit_keys(bucket_log(self.buckets@[bi])),
    {
        let b = self.buckets@[bi];
        let log = bucket_log(b);
        assert(bucket_wf(b, bi, self.bucket_bits));
        assert(Set::new(|kb: Seq<u8>| self.state(kb) is Hit && bucket_of(kb, self.bucket_bits) == bi) =~= hit_keys(log)) by {
            assert forall|kb: Seq<u8>| hit_keys(log).contains(kb) implies self.state(kb) is Hit && bucket_of(kb, self.bucket_bits) == bi by {
                lemma_last_in(log, kb);
                let l = last_in(log, kb);
                let recs = b.head->Some_0.recs@;
                lemma_view_take(recs, 0);
                assert(log[l] == rec_view(recs[l]));
                assert(bucket_of(recs[l].key.key_bytes(), self.bucket_bits) == bi);
            }
        }
    }

    proof fn lemma_details_count(&self, n: int)
        requires
            self.wf(),
            0 <= n <= self.active@.len(),
        ensures
            self.live_in_first(n).finite(),
            depth_sum(details_of(self.buckets@, self.active@, self.bucket_bits, n)) == self.live_in_first(n).len(),
        decreases n,
    {
        if n == 0 {
            assert(self.live_in_first(0) =~= Set::<Seq<u8>>::empty());
        } else {
            self.lemma_details_count(n - 1);
            let bi = self.active@[n - 1] as int;
            let b = self.buckets@[bi];
            let prev = self.live_in_first(n - 1);
            let cur = self.live_in_first(n);
            let hits = Set::new(|kb: Seq<u8>| self.state(kb) is Hit && bucket_of(kb, self.bucket_bits) == bi);
            self.lemma_bucket_hits(bi);
            assert(cur =~= prev + hits) by {
                assert forall|kb: Seq<u8>| cur.contains(kb) implies (prev + hits).contains(kb) by {
                    let a = choose|a: int| 0 <= a < n && self.active@[a] == bucket_of(kb, self.bucket_bits);
                    if a < n - 1 {
                        assert(prev.contains(kb));
                    }
                }
                assert forall|kb: Seq<u8>| (prev + hits).contains(kb) implies cur.contains(kb) by {
                    if prev.contains(kb) {
                        let a = choose|a: int| 0 <= a < n - 1 && self.active@[a] == bucket_of(kb, self.bucket_bits);
                        assert(self.active@[a] == bucket_of(kb, self.bucket_bits));
                    } else {
                        assert(self.active@[n - 1] == bucket_of(kb, self.bucket_bits));
                    }
                }
            }
            assert(prev.disjoint(hits)) by {
                assert forall|kb: Seq<u8>| !(prev.contains(kb) && hits.contains(kb)) by {
                    if prev.contains(kb) && hits.contains(kb) {
                        let a = choose|a: int| 0 <= a < n - 1 && self.active@[a] == bucket_of(kb, self.bucket_bits);
                        assert(self.active@[a] < self.active@[n - 1]);
                    }
                }
            }
            let d0 = details_of(self.buckets@, self.active@, self.bucket_bits, n - 1);
            match b.head {
                Some(buf) => {
                    lemma_live_is_hits(buf.recs@);
                    vstd::set_lib::lemma_set_disjoint_lens(prev, hits);
                    let d = d0.push(bucket_detail(b, self.active@[n - 1], self.bucket_bits));
                    assert(details_of(self.buckets@, self.active@, self.bucket_bits, n) == d);
                    assert(d.drop_last() =~= d0);
                    assert(buf.recs.len() == buf.recs@.len());
                    assert(d.last().key_count as nat == live_upto(buf.recs@, buf.recs@.len() as int));
                    assert(bucket_log(b) == recs_view(buf.recs@));
                    assert(hits.len() == live_upto(buf.recs@, buf.recs@.len() as int));
                    assert(depth_sum(d) == depth_sum(d0) + d.last().key_count as nat);
                    assert((prev + hits).len() == prev.len() + hits.len());
                },
                None => {
                    assert(hits =~= Set::<Seq<u8>>::empty());
                    assert(cur =~= prev);
                },
            }
        }
    }

    /// Every live key is counted in the details: their key counts add up to
    /// the number of live keys.
    pub proof fn lemma_details_live(&self)
        requires
            self.wf(),
        ensures
            self.live_keys().finite(),
            depth_sum(self.details_view()) == self.live_keys().len(),
    {
        self.lemma_details_count(self.active@.len() as int);
        assert(self.live_in_first(self.active@.len() as int) =~= self.live_keys()) by {
            assert forall|kb: Seq<u8>| self.live_keys().contains(kb) implies self.live_in_first(self.active@.len() as int).contains(kb) by {
                lemma_bucket_in_range(kb, self.bucket_bits);
                let bi = bucket_of(kb, self.bucket_bits);
                assert(bucket_wf(self.buckets@[bi], bi, self.bucket_bits));
                assert(self.buckets@[bi].head is Some);
                assert(self.buckets@[bi].registered);
                let a = choose|a: int| 0 <= a < self.active@.len() && self.active@[a] == bi;
            }
        }
    }

    /// Per-bucket details of the activated buckets with a buffer, in activation order.
    pub closed spec fn details_view(&self) -> Seq<BucketStats> {
        details_of(self.buckets@, self.active@, self.bucket_bits, self.active@.len() as int)
    }

    /// Collect statistics: configuration, the details of every activated
    /// bucket with a buffer, and the totals derived from them.
    pub fn collect_stats(&self) -> (r: RadixIndexStats)
        requires
            self.wf(),
        ensures
            r.total_buckets == self.bucket_count_view(),
            r.bucket_bits == self.bits_view(),
            r.bucket_details@ == self.details_view(),
            self.live_keys().finite(),
            r.total_keys == (if self.live_keys().len() > usize::MAX { usize::MAX as nat } else { self.live_keys().len() }),
            r.hotpath_arena == self.arena_view(),
            r.buffer_arena == (ArenaStats { bytes_allocated: 0, bytes_large: 0, num_regions: 0, num_large: 0, num_retired: 0, bytes_retired: 0 }),
            r.record_arena == r.buffer_arena,
            r.bucket_details@.len() == 0 ==> r.total_keys == 0 && r.active_buckets == 0
                && r.max_bucket_depth == 0 && r.min_bucket_depth == 0,
            r.bucket_details@.len() > 0 ==> {
                let d = r.bucket_details@;
                &&& r.total_keys == (if depth_sum(d) > usize::MAX { usize::MAX as nat } else { depth_sum(d) })
                &&& r.active_buckets == nonzero_count(d)
                &&& (nonzero_count(d) > 0 ==> is_max_depth(d, r.max_bucket_depth)
                    && is_min_nonzero_depth(d, r.min_bucket_depth))
                &&& (nonzero_count(d) == 0 ==> r.max_bucket_depth == 0 && r.min_bucket_depth == 0)
            },
    {
        let mut details: Vec<BucketStats> = Vec::new();
        let na = self.active.len();
        let mut a: usize = 0;
        while a < na
            invariant
                0 <= a <= na,
                na == self.active@.len(),
                self.wf(),
                details@ == details_of(self.buckets@, self.active@, self.bucket_bits, a as int),
            decreases na - a,
        {
            let b = self.active[a];
            let bucket = &self.buckets[b];
            match &bucket.head {
                Some(buf) => {
                    let (key_count, tag8_collisions, unique_tags) = bucket_counts(&buf.recs, self.bucket_bits);
                    let tinymap_size = match &bucket.snapshot {
                        Some(m) => m.len(),
                        None => 0,
                    };
                    proof {
                        assert(bucket_wf(self.buckets@[b as int], b as int, self.bucket_bits));
                        lemma_counts_bound(buf.recs@, self.bucket_bits, 0);
                        lemma_live_is_hits(buf.recs@);
                        lemma_tags_over_bound(buf.recs@, self.bucket_bits, 1, 256);
                        lemma_tags_over_bound(buf.recs@, self.bucket_bits, 0, 256);
                    }
                    details.push(BucketStats {
                        bucket_idx: b,
                        key_count,
                        total_records: buf.recs.len(),
                        buffer_capacity: buf.cap,
                        tinymap_size,
                        growth_count: 0,
                        tag8_collisions,
                        unique_tags,
                    });
                },
                None => {},
            }
            a = a + 1;
        }
        let mut stats = RadixIndexStats {
            total_buckets: self.buckets.len(),
            bucket_bits: self.bucket_bits,
            active_buckets: 0,
            total_keys: 0,
            max_bucket_depth: 0,
            min_bucket_depth: 0,
            hotpath_arena: self.arena.stats(),
            buffer_arena: ArenaStats::empty(),
            record_arena: ArenaStats::empty(),
            bucket_details: details,
        };
        stats.calculate_derived_stats();
        proof {
            self.lemma_details_live();
        }
        stats
    }
}

} // verus!
