//! Two-tier index: an immutable minimal-perfect-hash base, a radix delta
//! overlay for writes since the last publish, and a segmented stream that
//! holds the values both tiers point into.
use vstd::prelude::*;
use core::marker::PhantomData;
use crate::ids::IndexKey;
use crate::segmented_stream::{SegmentedStream, StreamIndex};
use crate::mph_delta_index::util::{ahash_bytes, hash64, key_hash, tag16_from_hash};
use crate::mph_delta_index::mph_index::{MPHIndex, Slot};
use crate::mph_delta_index::mph_indexer::{MphIndexer, BBHashIndexer, BbhConfig, key_seq, is_perfect, slot_hit, lemma_single_key_build_ok};
use crate::mph_delta_index::radix_index::{RadixIndex, DeltaState, TARGET_SLOTS_PER_BUCKET};
use crate::mph_delta_index::radix_stats::RadixIndexStats;
use crate::mph_delta_index::bloom::DeltaBloom;

verus! {

/// Minimal stats structure for the index.
#[derive(Debug, Clone, Copy, PartialEq, Eq)]
pub struct OptimisedIndexStats {
    /// Number of entries in the base (slots of the perfect-hash index).
    pub len_base: usize,
    /// Number of upsert records in the delta tier.
    pub len_delta: usize,
}

impl Default for OptimisedIndexStats {
    fn default() -> (r: Self)
        ensures
            r.len_base == 0,
            r.len_delta == 0,
    {
        OptimisedIndexStats { len_base: 0, len_delta: 0 }
    }
}

/// The index facade, generic over the perfect-hash indexer.
pub struct OptimisedIndexGen<K, V, I> {
    /// Immutable base: keys and stream indices, placed by the indexer.
    mph_index: MPHIndex<K, StreamIndex, I>,
    /// The values, in append order.
    stream: SegmentedStream<V>,
    /// Writes since the last publish.
    radix_index: RadixIndex<K, StreamIndex>,
    /// Filter over the hashes of the keys written since the last publish.
    bloom: DeltaBloom,
    _pd: PhantomData<(K, V, I)>,
}

/// The delta tier's bucket count and initial bucket capacity for a target and
/// a maximum number of keys: the smallest power of two, at least 2, that
/// gives at most `TARGET_SLOTS_PER_BUCKET` target keys per bucket, and an even
/// share of the maximum per bucket, at least `TARGET_SLOTS_PER_BUCKET`.
pub open spec fn delta_capacities(buckets: nat, initial: nat, target: usize, max: usize) -> bool {
    &&& buckets >= 2
    &&& buckets >= target / TARGET_SLOTS_PER_BUCKET
    &&& (buckets == 2 || buckets / 2 < target / TARGET_SLOTS_PER_BUCKET)
    &&& exists|b: u32| b < usize::BITS && buckets == (1usize << b)
    &&& initial == (if max as nat / buckets > TARGET_SLOTS_PER_BUCKET as nat {
        max as nat / buckets
    } else {
        TARGET_SLOTS_PER_BUCKET as nat
    })
}

/// The index with the default BBHash indexer.
pub type OptimisedIndex<K, V> = OptimisedIndexGen<K, V, BBHashIndexer<K>>;

impl<K: IndexKey, V, I: MphIndexer<K>> OptimisedIndexGen<K, V, I> {
    /// The base tier's stream index for key bytes `kb`, as a base lookup
    /// finds it: the slot the indexer gives, when its stored hash matches.
    pub closed spec fn base_lookup(&self, kb: Seq<u8>) -> Option<StreamIndex> {
        self.mph_index.lookup(kb, ahash_bytes(kb))
    }

    /// The base tier's stream index for key bytes `kb` looked up with hash `h`.
    pub closed spec fn base_lookup_with(&self, kb: Seq<u8>, h: u64) -> Option<StreamIndex> {
        self.mph_index.lookup(kb, h)
    }

    /// What the delta tier says about key bytes `kb`.
    pub closed spec fn delta_state(&self, kb: Seq<u8>) -> DeltaState<StreamIndex> {
        self.radix_index.state(kb)
    }

    /// The value the index holds for key bytes `kb`: the delta tier decides
    /// when it has a record of the key, the base otherwise.
    pub closed spec fn get_view(&self, kb: Seq<u8>) -> Option<V> {
        match self.radix_index.state(kb) {
            DeltaState::Hit(si) => self.stream.entry_at(si),
            DeltaState::Tombstone => None,
            DeltaState::Miss => match self.base_lookup(kb) {
                Some(si) => self.stream.entry_at(si),
                None => None,
            },
        }
    }

    /// The stream of values.
    pub closed spec fn stream_view(&self) -> SegmentedStream<V> {
        self.stream
    }

    /// Number of base slots.
    pub closed spec fn base_len(&self) -> nat {
        self.mph_index.slots@.len()
    }

    /// The delta tier holds at most one record per key, and its snapshots
    /// are fresh.
    pub closed spec fn delta_consolidated(&self) -> bool {
        self.radix_index.consolidated()
    }

    /// The delta tier's snapshots are fresh.
    pub closed spec fn delta_snapshots_fresh(&self) -> bool {
        self.radix_index.snapshots_fresh()
    }

    /// Number of buckets of the delta tier.
    pub closed spec fn delta_bucket_count(&self) -> nat {
        self.radix_index.bucket_count_view()
    }

    /// Initial buffer capacity of a delta bucket.
    pub closed spec fn delta_initial_capacity(&self) -> nat {
        self.radix_index.initial_capacity_view()
    }

    /// Slot `j` of the base holds the key that the indexer places there, with
    /// that key's hash.
    closed spec fn slot_placed(&self, j: int) -> bool {
        let slot = self.mph_index.slots@[j];
        &&& self.mph_index.indexer.eval_spec(slot.key.key_bytes()) == j
        &&& slot.hash64 == ahash_bytes(slot.key.key_bytes())
        &&& self.stream.entry_at(slot.value) is Some
    }

    /// The tiers agree with each other: every base slot holds its key and a
    /// stored value, every delta hit points at a stored value, and the filter
    /// covers every key written since the last publish.
    pub closed spec fn wf(&self) -> bool {
        &&& self.mph_index.indexer.indexer_valid()
        &&& forall|j: int| 0 <= j < self.mph_index.slots@.len() ==> #[trigger] self.slot_placed(j)
        &&& self.stream.wf()
        &&& self.radix_index.wf()
        &&& self.bloom.wf()
        &&& forall|kb: Seq<u8>| #[trigger] self.radix_index.state(kb) matches DeltaState::Hit(si) ==> self.stream.entry_at(si) is Some
        &&& forall|kb: Seq<u8>| #[trigger] self.radix_index.has_record(kb) ==> self.bloom.may_contain(ahash_bytes(kb))
    }

    /// Create an empty index with an indexer and radix capacities.
    pub fn new_with_indexer_and_capacity(indexer: I, radix_target_capacity: usize, radix_max_capacity: usize) -> (r: Self)
        requires
            indexer.indexer_valid(),
            radix_target_capacity <= usize::MAX / 32,
        ensures
            r.wf(),
            forall|kb: Seq<u8>| #[trigger] r.get_view(kb) is None,
            r.base_len() == 0,
            delta_capacities(r.delta_bucket_count(), r.delta_initial_capacity(), radix_target_capacity, radix_max_capacity),
    {
        let stream = SegmentedStream::new();
        let radix_index = RadixIndex::with_capacity(radix_target_capacity, radix_max_capacity);
        let mph_index = MPHIndex::empty(indexer);
        let bloom = DeltaBloom::with_capacity(radix_target_capacity);
        let r = OptimisedIndexGen { mph_index, stream, radix_index, bloom, _pd: PhantomData };
        proof {
            assert forall|kb: Seq<u8>| #[trigger] r.get_view(kb) is None by {
                assert(r.radix_index.state(kb) == DeltaState::<StreamIndex>::Miss);
            }
        }
        r
    }

    /// Value of a key: the delta tier is consulted when the filter says the
    /// key may have been written there, the base otherwise.
    pub fn get<'a>(&'a self, key: &K) -> (r: Option<&'a V>)
        requires
            self.wf(),
        ensures
            r is Some <==> self.get_view(key.key_bytes()) is Some,
            r matches Some(v) ==> self.get_view(key.key_bytes()) == Some(*v),
    {
        let hash = hash64(key);
        if self.bloom.might_contain_prehashed(hash) {
            match self.radix_index.lookup_with_hash(key, hash) {
                DeltaState::Hit(sidx) => {
                    return Some(self.stream.resolve_ref_unchecked(sidx));
                },
                DeltaState::Tombstone => {
                    return None;
                },
                DeltaState::Miss => {},
            }
        } else {
            proof {
                if self.radix_index.has_record(key.key_bytes()) {
                    assert(self.bloom.may_contain(ahash_bytes(key.key_bytes())));
                }
            }
        }
        self.get_mph_with_hash(key, hash)
    }

    /// Value of a key in the delta tier only.
    pub fn get_radix<'a>(&'a self, key: &K) -> (r: Option<&'a V>)
        requires
            self.wf(),
        ensures
            match self.delta_state(key.key_bytes()) {
                DeltaState::Hit(si) => r is Some && Some(*r->Some_0) == self.stream_view().entry_at(si),
                _ => r is None,
            },
    {
        match self.radix_index.get(key) {
            Some(sidx) => Some(self.stream.resolve_ref_unchecked(sidx)),
            None => None,
        }
    }

    /// Value of a key in the base only.
    pub fn get_mph<'a>(&'a self, key: &K) -> (r: Option<&'a V>)
        requires
            self.wf(),
        ensures
            match self.base_lookup(key.key_bytes()) {
                Some(si) => r is Some && Some(*r->Some_0) == self.stream_view().entry_at(si),
                None => r is None,
            },
    {
        let hash = hash64(key);
        self.get_mph_with_hash(key, hash)
    }

    /// Value of a key in the base only, with its precomputed hash.
    pub fn get_mph_with_hash<'a>(&'a self, key: &K, hash: u64) -> (r: Option<&'a V>)
        requires
            self.wf(),
        ensures
            match self.base_lookup_with(key.key_bytes(), hash) {
                Some(si) => r is Some && Some(*r->Some_0) == self.stream_view().entry_at(si),
                None => r is None,
            },
    {
        match self.mph_index.get_with_hash(key, hash) {
            Some(sidx) => {
                proof {
                    let j = self.mph_index.indexer.eval_spec(key.key_bytes());
                    assert(self.slot_placed(j));
                }
                Some(self.stream.resolve_ref_unchecked(sidx))
            },
            None => None,
        }
    }

    /// Stream index of a key in the base only.
    pub fn get_mph_index(&self, key: &K) -> (r: Option<&StreamIndex>)
        requires
            self.wf(),
        ensures
            r is Some <==> self.base_lookup(key.key_bytes()) is Some,
            r matches Some(si) ==> self.base_lookup(key.key_bytes()) == Some(*si),
    {
        self.mph_index.get(key)
    }

    /// Value of a key in a given base snapshot.
    pub fn get_mph_from_snapshot<'a>(&'a self, snapshot: &'a MPHIndex<K, StreamIndex, I>, key: &K) -> (r: Option<&'a V>)
        requires
            self.wf(),
            snapshot.indexer.indexer_valid(),
        ensures
            match snapshot.lookup(key.key_bytes(), key_hash(*key)) {
                Some(si) => match self.stream_view().entry_at(si) {
                    Some(v) => r == Some(&v),
                    None => r is None,
                },
                None => r is None,
            },
    {
        match snapshot.get(key) {
            Some(sidx) => self.stream.resolve_ref(sidx),
            None => None,
        }
    }

    /// Stream index of a key in a given base snapshot.
    pub fn get_mph_index_from_snapshot<'a>(&'a self, snapshot: &'a MPHIndex<K, StreamIndex, I>, key: &K) -> (r: Option<&'a StreamIndex>)
        requires
            snapshot.indexer.indexer_valid(),
        ensures
            r is Some <==> snapshot.lookup(key.key_bytes(), key_hash(*key)) is Some,
            r matches Some(si) ==> snapshot.lookup(key.key_bytes(), key_hash(*key)) == Some(*si),
    {
        snapshot.get(key)
    }

    /// Insert or update a key: the value is appended to the stream and the
    /// delta tier points the key at it.
    pub fn upsert(&mut self, key: K, val: V)
        requires
            old(self).wf(),
        ensures
            final(self).wf(),
            forall|kb: Seq<u8>| #[trigger] final(self).get_view(kb) == (if kb == key.key_bytes() {
                Some(val)
            } else {
                old(self).get_view(kb)
            }),
            final(self).base_len() == old(self).base_len(),
    {
        let hash = hash64(&key);
        let sidx = match self.stream.append_with_index(val) {
            Ok(s) => s,
            Err(_) => {
                proof {
                    assert(false);
                }
                return;
            },
        };
        let ghost s1 = self.stream;
        self.radix_index.upsert(&key, &sidx);
        self.bloom.insert_prehashed(hash);
        proof {
            self.lemma_delta_write(old(self), key.key_bytes());
            assert forall|kb: Seq<u8>| #[trigger] self.get_view(kb) == (if kb == key.key_bytes() {
                Some(val)
            } else {
                old(self).get_view(kb)
            }) by {
                if kb != key.key_bytes() {
                    self.lemma_view_stable(old(self), kb);
                }
            }
        }
    }

    /// Remove a key: the delta tier records a tombstone for it.
    pub fn remove(&mut self, key: &K)
        requires
            old(self).wf(),
        ensures
            final(self).wf(),
            forall|kb: Seq<u8>| #[trigger] final(self).get_view(kb) == (if kb == key.key_bytes() {
                None
            } else {
                old(self).get_view(kb)
            }),
            final(self).base_len() == old(self).base_len(),
    {
        let hash = hash64(key);
        self.radix_index.delete(key);
        self.bloom.insert_prehashed(hash);
        proof {
            self.lemma_delta_write(old(self), key.key_bytes());
            assert forall|kb: Seq<u8>| #[trigger] self.get_view(kb) == (if kb == key.key_bytes() {
                None
            } else {
                old(self).get_view(kb)
            }) by {
                if kb != key.key_bytes() {
                    self.lemma_view_stable(old(self), kb);
                }
            }
        }
    }

    /// Whether the index holds a value for the key.
    pub fn contains_key(&self, key: &K) -> (r: bool)
        requires
            self.wf(),
        ensures
            r == self.get_view(key.key_bytes()) is Some,
    {
        self.get(key).is_some()
    }

    /// Owned copy of the value of a key.
    pub fn get_owned(&self, key: &K) -> (r: Option<V>)
        where V: Clone
        requires
            self.wf(),
        ensures
            r is Some <==> self.get_view(key.key_bytes()) is Some,
            r matches Some(v) ==> cloned(self.get_view(key.key_bytes())->Some_0, v),
    {
        match self.get(key) {
            Some(v) => Some(v.clone()),
            None => None,
        }
    }

    /// After a write of key bytes `wkb` to the delta tier (and its hash to the
    /// filter), the tiers still agree.
    proof fn lemma_delta_write(&self, old_ix: &Self, wkb: Seq<u8>)
        requires
            old_ix.wf(),
            self.mph_index == old_ix.mph_index,
            self.stream.wf(),
            self.radix_index.wf(),
            self.bloom.wf(),
            forall|si: StreamIndex| #[trigger] old_ix.stream.entry_at(si) is Some ==> self.stream.entry_at(si) == old_ix.stream.entry_at(si),
            forall|kb: Seq<u8>| kb != wkb ==> #[trigger] self.radix_index.state(kb) == old_ix.radix_index.state(kb),
            self.radix_index.state(wkb) matches DeltaState::Hit(si) ==> self.stream.entry_at(si) is Some,
            self.bloom.may_contain(ahash_bytes(wkb)),
            forall|s: u64| #[trigger] old_ix.bloom.may_contain(s) ==> self.bloom.may_contain(s),
        ensures
            self.wf(),
    {
        assert forall|kb: Seq<u8>| #[trigger] self.radix_index.state(kb) is Hit implies self.stream.entry_at(self.radix_index.state(kb)->Hit_0) is Some by {
            if kb != wkb {
                assert(old_ix.radix_index.state(kb) == self.radix_index.state(kb));
            }
        }
        assert forall|kb: Seq<u8>| #[trigger] self.radix_index.has_record(kb) implies self.bloom.may_contain(ahash_bytes(kb)) by {
            if kb != wkb {
                assert(old_ix.radix_index.state(kb) == self.radix_index.state(kb));
                assert(old_ix.radix_index.has_record(kb));
            }
        }
        self.lemma_stream_grew(old_ix);
    }

    /// Facts relating a state to an earlier one whose stream it extends.
    proof fn lemma_stream_grew(&self, old_ix: &Self)
        requires
            old_ix.wf(),
            self.mph_index == old_ix.mph_index,
            self.stream.wf(),
            self.radix_index.wf(),
            self.bloom.wf(),
            forall|si: StreamIndex| #[trigger] old_ix.stream.entry_at(si) is Some ==> self.stream.entry_at(si) == old_ix.stream.entry_at(si),
            forall|kb: Seq<u8>| #[trigger] self.radix_index.state(kb) matches DeltaState::Hit(si) ==> self.stream.entry_at(si) is Some,
            forall|kb: Seq<u8>| #[trigger] self.radix_index.has_record(kb) ==> self.bloom.may_contain(ahash_bytes(kb)),
        ensures
            self.wf(),
    {
        assert forall|j: int| 0 <= j < self.mph_index.slots@.len() implies #[trigger] self.slot_placed(j) by {
            assert(old_ix.slot_placed(j));
        }
    }

    proof fn lemma_view_stable(&self, old_ix: &Self, kb: Seq<u8>)
        requires
            old_ix.wf(),
            self.wf(),
            self.mph_index == old_ix.mph_index,
            forall|si: StreamIndex| #[trigger] old_ix.stream.entry_at(si) is Some ==> self.stream.entry_at(si) == old_ix.stream.entry_at(si),
            self.radix_index.state(kb) == old_ix.radix_index.state(kb),
        ensures
            self.get_view(kb) == old_ix.get_view(kb),
    {
        match old_ix.radix_index.state(kb) {
            DeltaState::Hit(si) => {},
            DeltaState::Tombstone => {},
            DeltaState::Miss => {
                if let Some(si) = old_ix.base_lookup(kb) {
                    let j = old_ix.mph_index.indexer.eval_spec(kb);
                    assert(old_ix.slot_placed(j));
                }
            },
        }
    }
}


/// The key encodings of a list of entries.
pub open spec fn entry_keys<K: IndexKey, T>(es: Seq<(K, T)>) -> Seq<Seq<u8>> {
    es.map_values(|e: (K, T)| e.0.key_bytes())
}

/// The entries' keys are pairwise distinct.
pub open spec fn distinct_keys<K: IndexKey, T>(es: Seq<(K, T)>) -> bool {
    forall|a: int, b: int| 0 <= a < b < es.len() ==> es[a].0.key_bytes() != es[b].0.key_bytes()
}

/// Some entry has key bytes `kb`.
pub open spec fn has_key<K: IndexKey, T>(es: Seq<(K, T)>, kb: Seq<u8>) -> bool {
    exists|q: int| 0 <= q < es.len() && es[q].0.key_bytes() == kb
}

impl<K: IndexKey, V, I: MphIndexer<K>> OptimisedIndexGen<K, V, I> {
    /// The base entry of key bytes `kb`: the slot the indexer gives for them,
    /// when it holds that key with a nonzero hash.
    closed spec fn base_entry(&self, kb: Seq<u8>) -> Option<StreamIndex> {
        let j = self.mph_index.indexer.eval_spec(kb);
        if 0 <= j < self.mph_index.slots@.len() && self.mph_index.slots@[j].key.key_bytes() == kb
            && self.mph_index.slots@[j].hash64 != 0 {
            Some(self.mph_index.slots@[j].value)
        } else {
            None
        }
    }

    /// The keys a publish keeps: those with a live record in the delta
    /// tier, and the base keys with no delta record.
    pub closed spec fn stored_keys(&self) -> Set<Seq<u8>> {
        Set::new(|kb: Seq<u8>| self.target(kb) is Some)
    }

    /// Where a key points once the delta tier is folded into the base.
    closed spec fn target(&self, kb: Seq<u8>) -> Option<StreamIndex> {
        match self.radix_index.state(kb) {
            DeltaState::Hit(si) => Some(si),
            DeltaState::Tombstone => None,
            DeltaState::Miss => self.base_entry(kb),
        }
    }

    /// The key's hash is nonzero and differs from the hash of every other key
    /// in either tier.
    pub closed spec fn hash_distinct(&self, kb: Seq<u8>) -> bool {
        &&& ahash_bytes(kb) != 0
        &&& forall|j: int| 0 <= j < self.mph_index.slots@.len() && (#[trigger] self.mph_index.slots@[j]).key.key_bytes() != kb
            ==> self.mph_index.slots@[j].hash64 != ahash_bytes(kb)
        &&& forall|kb2: Seq<u8>| #[trigger] self.radix_index.has_record(kb2) && kb2 != kb ==> ahash_bytes(kb2) != ahash_bytes(kb)
    }

    /// The entries the next base holds: the base entries whose key the delta
    /// tier has no record of, in slot order, then the delta tier's live keys.
    fn merged_entries(&self) -> (r: Vec<(K, StreamIndex)>)
        requires
            self.wf(),
        ensures
            distinct_keys(r@),
            forall|q: int| 0 <= q < r@.len() ==> self.target((#[trigger] r@[q]).0.key_bytes()) == Some(r@[q].1),
            forall|kb: Seq<u8>| #[trigger] self.target(kb) is Some ==> has_key(r@, kb),
    {
        let mut out: Vec<(K, StreamIndex)> = Vec::new();
        let n = self.mph_index.slots.len();
        let mut j: usize = 0;
        while j < n
            invariant
                0 <= j <= n,
                n == self.mph_index.slots@.len(),
                self.wf(),
                distinct_keys(out@),
                forall|q: int| 0 <= q < out@.len() ==> self.radix_index.state((#[trigger] out@[q]).0.key_bytes()) is Miss
                    && self.base_entry(out@[q].0.key_bytes()) == Some(out@[q].1)
                    && self.mph_index.indexer.eval_spec(out@[q].0.key_bytes()) < j,
                forall|kb: Seq<u8>| #[trigger] self.base_entry(kb) is Some && self.radix_index.state(kb) is Miss
                    && self.mph_index.indexer.eval_spec(kb) < j ==> has_key(out@, kb),
            decreases n - j,
        {
            let slot = &self.mph_index.slots[j];
            proof {
                assert(self.slot_placed(j as int));
            }
            if slot.hash64 != 0 {
                let st = self.radix_index.lookup_with_hash(&slot.key, slot.hash64);
                let miss = match st {
                    DeltaState::Miss => true,
                    _ => false,
                };
                if miss {
                    let ghost out0 = out@;
                    out.push((slot.key.clone_key(), slot.value));
                    proof {
                        assert forall|a: int, b: int| 0 <= a < b < out@.len() implies out@[a].0.key_bytes() != out@[b].0.key_bytes() by {
                            if b == out@.len() - 1 {
                                assert(out@[a] == out0[a]);
                            } else {
                                assert(out@[a] == out0[a] && out@[b] == out0[b]);
                            }
                        }
                        assert forall|kb: Seq<u8>| #[trigger] self.base_entry(kb) is Some && self.radix_index.state(kb) is Miss
                            && self.mph_index.indexer.eval_spec(kb) < j + 1 implies has_key(out@, kb) by {
                            if self.mph_index.indexer.eval_spec(kb) == j {
                                assert(out@[out@.len() - 1].0.key_bytes() == kb);
                            } else {
                                let q = choose|q: int| 0 <= q < out0.len() && out0[q].0.key_bytes() == kb;
                                assert(out@[q] == out0[q]);
                            }
                        }
                    }
                }
            }
            j = j + 1;
        }
        let ghost base_part = out@;
        let recs = self.radix_index.latest_records();
        let mut t: usize = 0;
        while t < recs.len()
            invariant
                0 <= t <= recs@.len(),
                self.wf(),
                base_part.len() <= out@.len(),
                forall|q: int| 0 <= q < base_part.len() ==> #[trigger] out@[q] == base_part[q],
                distinct_keys(out@),
                forall|q: int| 0 <= q < base_part.len() ==> self.radix_index.state((#[trigger] base_part[q]).0.key_bytes()) is Miss
                    && self.base_entry(base_part[q].0.key_bytes()) == Some(base_part[q].1),
                forall|q: int| base_part.len() <= q < out@.len() ==> self.radix_index.state((#[trigger] out@[q]).0.key_bytes()) == DeltaState::Hit(out@[q].1)
                    && exists|u: int| 0 <= u < t && recs@[u].0.key_bytes() == out@[q].0.key_bytes(),
                forall|kb: Seq<u8>| #[trigger] self.base_entry(kb) is Some && self.radix_index.state(kb) is Miss ==> has_key(out@, kb),
                forall|u: int| 0 <= u < t && (#[trigger] recs@[u]).1 is Some ==> has_key(out@, recs@[u].0.key_bytes()),
                forall|j2: int| 0 <= j2 < recs@.len() ==> match (#[trigger] recs@[j2]).1 {
                    Some(v) => self.radix_index.state(recs@[j2].0.key_bytes()) == DeltaState::Hit(*v),
                    None => self.radix_index.state(recs@[j2].0.key_bytes()) is Tombstone,
                },
                forall|a: int, b: int| 0 <= a < b < recs@.len() ==> recs@[a].0.key_bytes() != recs@[b].0.key_bytes(),
            decreases recs@.len() - t,
        {
            let (k, st) = recs[t];
            if let Some(si) = st {
                let ghost out0 = out@;
                out.push((k.clone_key(), *si));
                proof {
                    let kb = k.key_bytes();
                    assert(recs@[t as int].1 is Some);
                    assert forall|a: int, b: int| 0 <= a < b < out@.len() implies out@[a].0.key_bytes() != out@[b].0.key_bytes() by {
                        if b == out@.len() - 1 {
                            assert(out@[a] == out0[a]);
                            if a >= base_part.len() {
                                let u = choose|u: int| 0 <= u < t && recs@[u].0.key_bytes() == out0[a].0.key_bytes();
                            }
                        } else {
                            assert(out@[a] == out0[a] && out@[b] == out0[b]);
                        }
                    }
                    assert forall|q: int| base_part.len() <= q < out@.len() implies self.radix_index.state((#[trigger] out@[q]).0.key_bytes()) == DeltaState::Hit(out@[q].1)
                        && exists|u: int| 0 <= u < t + 1 && recs@[u].0.key_bytes() == out@[q].0.key_bytes() by {
                        if q < out@.len() - 1 {
                            assert(out@[q] == out0[q]);
                            let u = choose|u: int| 0 <= u < t && recs@[u].0.key_bytes() == out0[q].0.key_bytes();
                        } else {
                            assert(recs@[t as int].0.key_bytes() == out@[q].0.key_bytes());
                        }
                    }
                    assert forall|kb: Seq<u8>| #[trigger] self.base_entry(kb) is Some && self.radix_index.state(kb) is Miss implies has_key(out@, kb) by {
                        let q = choose|q: int| 0 <= q < out0.len() && out0[q].0.key_bytes() == kb;
                        assert(out@[q] == out0[q]);
                    }
                    assert forall|u: int| 0 <= u < t + 1 && (#[trigger] recs@[u]).1 is Some implies has_key(out@, recs@[u].0.key_bytes()) by {
                        if u < t {
                            let q = choose|q: int| 0 <= q < out0.len() && out0[q].0.key_bytes() == recs@[u].0.key_bytes();
                            assert(out@[q] == out0[q]);
                        } else {
                            assert(out@[out@.len() - 1].0.key_bytes() == recs@[u].0.key_bytes());
                        }
                    }
                }
            }
            t = t + 1;
        }
        proof {
            assert forall|q: int| 0 <= q < out@.len() implies self.target((#[trigger] out@[q]).0.key_bytes()) == Some(out@[q].1) by {
                if q < base_part.len() {
                    assert(out@[q] == base_part[q]);
                }
            }
            assert forall|kb: Seq<u8>| #[trigger] self.target(kb) is Some implies has_key(out@, kb) by {
                if self.radix_index.state(kb) is Hit {
                    assert(self.radix_index.has_record(kb));
                    let u = choose|u: int| 0 <= u < recs@.len() && recs@[u].0.key_bytes() == kb;
                    assert(recs@[u].1 is Some);
                }
            }
        }
        out
    }
}


/// Slot `i` of `slots` holds entry `q` of `es`: its key, its value and its hash.
pub open spec fn slot_holds<K: IndexKey>(slots: Seq<Slot<K, StreamIndex>>, i: int, es: Seq<(K, StreamIndex)>, q: int) -> bool {
    &&& slots[i].key.key_bytes() == es[q].0.key_bytes()
    &&& slots[i].value == es[q].1
    &&& slots[i].hash64 == ahash_bytes(es[q].0.key_bytes())
}

/// Slot `i` holds one of the entries, the one whose key the indexer places there.
pub open spec fn slot_from_entry<K: IndexKey, I: MphIndexer<K>>(slots: Seq<Slot<K, StreamIndex>>, i: int, es: Seq<(K, StreamIndex)>, ix: I) -> bool {
    exists|q: int| 0 <= q < es.len() && ix.eval_spec(es[q].0.key_bytes()) == i && #[trigger] slot_holds(slots, i, es, q)
}

/// Put each entry in the slot the indexer gives its key.
fn place_slots<K: IndexKey, I: MphIndexer<K>>(entries: Vec<(K, StreamIndex)>, ix: &I) -> (r: Vec<Slot<K, StreamIndex>>)
    requires
        ix.indexer_valid(),
        ix.slot_count() == entries@.len(),
        is_perfect(|kb: Seq<u8>| ix.eval_spec(kb), entry_keys(entries@)),
    ensures
        r@.len() == entries@.len(),
        forall|q: int| 0 <= q < entries@.len() ==> {
            let i = ix.eval_spec((#[trigger] entries@[q]).0.key_bytes());
            &&& 0 <= i < r@.len()
            &&& slot_holds(r@, i, entries@, q)
        },
        forall|i: int| 0 <= i < r@.len() ==> #[trigger] slot_from_entry(r@, i, entries@, *ix),
{
    let n = entries.len();
    let ghost es = entries@;
    let ghost ks = entry_keys(es);
    let ghost f = |kb: Seq<u8>| ix.eval_spec(kb);
    proof {
        assert forall|q: int| 0 <= q < n implies #[trigger] ks[q] == es[q].0.key_bytes() by {}
    }
    let mut opt: Vec<Option<Slot<K, StreamIndex>>> = Vec::new();
    let mut c: usize = 0;
    while c < n
        invariant
            0 <= c <= n,
            opt@.len() == c,
            forall|i: int| 0 <= i < c ==> (#[trigger] opt@[i]) is None,
        decreases n - c,
    {
        opt.push(None);
        c = c + 1;
    }
    let mut pending = entries;
    while pending.len() > 0
        invariant
            n == es.len(),
            ix.indexer_valid(),
            ix.slot_count() == n,
            is_perfect(f, ks),
            f == (|kb: Seq<u8>| ix.eval_spec(kb)),
            ks == entry_keys(es),
            forall|q: int| 0 <= q < n ==> #[trigger] ks[q] == es[q].0.key_bytes(),
            pending@.len() <= n,
            pending@ == es.take(pending@.len() as int),
            opt@.len() == n,
            forall|q: int| pending@.len() <= q < n ==> {
                let i = ix.eval_spec((#[trigger] es[q]).0.key_bytes());
                &&& 0 <= i < n
                &&& opt@[i] is Some
                &&& slot_holds(opt@.map_values(|o: Option<Slot<K, StreamIndex>>| o->Some_0), i, es, q)
            },
            forall|i: int| 0 <= i < n && (#[trigger] opt@[i]) is Some ==> exists|q: int| pending@.len() <= q < n
                && ix.eval_spec((#[trigger] es[q]).0.key_bytes()) == i,
        decreases pending@.len(),
    {
        let ghost len0 = pending@.len();
        let ghost opt0 = opt@;
        let (k, si) = pending.pop().unwrap();
        let ghost q0 = (len0 - 1) as int;
        proof {
            assert(es.take(len0 as int)[q0] == es[q0]);
            assert(pending@ =~= es.take(q0));
        }
        let h = hash64(&k);
        let idx = ix.eval(&k);
        opt.set(idx, Some(Slot::new(tag16_from_hash(h), h, k, si)));
        proof {
            assert(f(ks[q0]) == idx);
            assert forall|q: int| q0 <= q < n implies {
                let i = ix.eval_spec((#[trigger] es[q]).0.key_bytes());
                &&& 0 <= i < n
                &&& opt@[i] is Some
                &&& slot_holds(opt@.map_values(|o: Option<Slot<K, StreamIndex>>| o->Some_0), i, es, q)
            } by {
                if q != q0 {
                    assert(f(ks[q]) != f(ks[q0]));
                    let i = ix.eval_spec(es[q].0.key_bytes());
                    assert(opt@[i] == opt0[i]);
                }
            }
            assert forall|i: int| 0 <= i < n && (#[trigger] opt@[i]) is Some implies exists|q: int| q0 <= q < n
                && ix.eval_spec((#[trigger] es[q]).0.key_bytes()) == i by {
                if i == idx {
                    assert(ix.eval_spec(es[q0].0.key_bytes()) == i);
                } else {
                    assert(opt@[i] == opt0[i]);
                    let q = choose|q: int| len0 <= q < n && ix.eval_spec((#[trigger] es[q]).0.key_bytes()) == i;
                }
            }
        }
    }
    proof {
        assert forall|i: int| 0 <= i < n implies (#[trigger] opt@[i]) is Some by {
            assert(slot_hit(f, ks, i));
            let q = choose|q: int| 0 <= q < ks.len() && #[trigger] f(ks[q]) == i;
        }
    }
    let ghost full = opt@;
    let mut out: Vec<Slot<K, StreamIndex>> = Vec::new();
    let mut i: usize = 0;
    while i < n
        invariant
            0 <= i <= n,
            n == es.len(),
            opt@.len() == n,
            full.len() == n,
            out@.len() == i,
            forall|j: int| i <= j < n ==> #[trigger] opt@[j] == full[j],
            forall|j: int| 0 <= j < n ==> (#[trigger] full[j]) is Some,
            forall|j: int| 0 <= j < i ==> #[trigger] out@[j] == full[j]->Some_0,
        decreases n - i,
    {
        let o = opt[i].take();
        match o {
            Some(slot) => {
                out.push(slot);
            },
            None => {
                proof {
                    assert(full[i as int] is Some);
                    assert(false);
                }
            },
        }
        i = i + 1;
    }
    proof {
        let proj = full.map_values(|o: Option<Slot<K, StreamIndex>>| o->Some_0);
        assert(out@ =~= proj);
        assert(es == entries@);
        assert forall|i: int| 0 <= i < out@.len() implies #[trigger] slot_from_entry(out@, i, entries@, *ix) by {
            assert(full[i] is Some);
            let q = choose|q: int| 0 <= q < n && ix.eval_spec((#[trigger] es[q]).0.key_bytes()) == i;
            assert(slot_holds(proj, i, es, q));
            assert(entries@[q] == es[q]);
            assert(slot_holds(out@, i, entries@, q));
        }
    }
    out
}


impl<K: IndexKey, V, I: MphIndexer<K>> OptimisedIndexGen<K, V, I> {
    /// Publish: rebuild the base from the current contents, with an indexer
    /// built for their keys, and empty the delta tier and the filter. When
    /// the indexer cannot be built for those keys nothing changes and the
    /// result is `false`. With no keys left, the base keeps its indexer and
    /// has no slots.
    ///
    /// Every stored key reads the same before and after, whatever its hash.
    /// A key that is not stored reads the same too when its hash is nonzero
    /// and differs from that of every other key in either tier. Stored keys
    /// whose hash is 0 are not carried into the next publish.
    pub fn publish(&mut self) -> (r: bool)
        requires
            old(self).wf(),
        ensures
            final(self).wf(),
            !r ==> *final(self) == *old(self),
            r ==> forall|kb: Seq<u8>| #[trigger] old(self).hash_distinct(kb) ==> final(self).get_view(kb) == old(self).get_view(kb),
            r ==> forall|kb: Seq<u8>| #[trigger] final(self).delta_state(kb) is Miss,
            r ==> final(self).stream_view() == old(self).stream_view(),
            (forall|kb: Seq<u8>| #[trigger] old(self).get_view(kb) is None) ==> r && final(self).base_len() == 0,
            old(self).stored_keys().finite(),
            r ==> final(self).base_len() == old(self).stored_keys().len(),
            r ==> final(self).delta_records() == 0,
            r ==> final(self).stored_keys() == old(self).stored_keys().filter(|kb: Seq<u8>| ahash_bytes(kb) != 0),
            r ==> forall|kb: Seq<u8>| #[trigger] old(self).stored_keys().contains(kb) ==> final(self).get_view(kb) == old(self).get_view(kb),
            r ==> (old(self).stored_keys().len() == 0 || exists|ks: Seq<Seq<u8>>|
                ks.no_duplicates() && ks.to_set() == old(self).stored_keys() && I::build_ok(ks)),
            !r ==> exists|ks: Seq<Seq<u8>>|
                ks.no_duplicates() && ks.to_set() == old(self).stored_keys() && ks.len() > 0 && !I::build_ok(ks),
    {
        let entries = self.merged_entries();
        let ghost es = entries@;
        let n = entries.len();
        let ghost ks = entry_keys(es);
        proof {
            assert(ks.no_duplicates()) by {
                assert forall|a: int, b: int| 0 <= a < ks.len() && 0 <= b < ks.len() && a != b implies ks[a] != ks[b] by {
                    if a < b {
                        assert(es[a].0.key_bytes() != es[b].0.key_bytes());
                    } else {
                        assert(es[b].0.key_bytes() != es[a].0.key_bytes());
                    }
                }
            }
            assert(ks.to_set() =~= old(self).stored_keys()) by {
                assert forall|kb: Seq<u8>| ks.to_set().contains(kb) <==> old(self).stored_keys().contains(kb) by {
                    if ks.to_set().contains(kb) {
                        let q = choose|q: int| 0 <= q < ks.len() && ks[q] == kb;
                        assert(self.target(es[q].0.key_bytes()) == Some(es[q].1));
                    }
                    if old(self).stored_keys().contains(kb) {
                        assert(self.target(kb) is Some);
                        assert(has_key(es, kb));
                        let q = choose|q: int| 0 <= q < es.len() && es[q].0.key_bytes() == kb;
                        assert(ks[q] == kb);
                    }
                }
            }
            ks.unique_seq_to_set();
            if n > 0 {
                let kb0 = es[0].0.key_bytes();
                assert(self.target(kb0) == Some(es[0].1));
                self.lemma_view_targeted(kb0);
                self.lemma_target_stored(kb0);
                assert(self.get_view(kb0) is Some);
            }
        }
        if n == 0 {
            self.mph_index.slots = Vec::new();
            self.radix_index.clear_all();
            self.bloom.clear();
            proof {
                assert forall|kb: Seq<u8>| #[trigger] old(self).hash_distinct(kb) implies self.get_view(kb) == old(self).get_view(kb) by {
                    assert(self.radix_index.state(kb) is Miss);
                    old(self).lemma_view_untargeted(kb, es);
                }
                assert forall|kb: Seq<u8>| #[trigger] old(self).stored_keys().contains(kb) implies self.get_view(kb) == old(self).get_view(kb) by {
                    assert(old(self).target(kb) is Some);
                    assert(has_key(es, kb));
                }
                assert(self.stored_keys() =~= old(self).stored_keys().filter(|kb: Seq<u8>| ahash_bytes(kb) != 0)) by {
                    assert forall|kb: Seq<u8>| !self.stored_keys().contains(kb) by {
                        assert(self.radix_index.state(kb) is Miss);
                    }
                }
            }
            return true;
        }
        let mut keys: Vec<K> = Vec::new();
        let mut q: usize = 0;
        while q < n
            invariant
                0 <= q <= n,
                n == entries@.len(),
                keys@.len() == q,
                forall|j: int| 0 <= j < q ==> (#[trigger] keys@[j]).key_bytes() == entries@[j].0.key_bytes(),
            decreases n - q,
        {
            keys.push(entries[q].0.clone_key());
            q = q + 1;
        }
        proof {
            assert(key_seq(keys@) =~= entry_keys(entries@));
        }
        let built = I::build(keys.as_slice());
        let ix = match built {
            Some(ix) => ix,
            None => {
                return false;
            },
        };
        let slots = place_slots(entries, &ix);
        let ghost new_slots = slots@;
        self.mph_index = MPHIndex::from_placed_slots(slots, ix);
        self.radix_index.clear_all();
        self.bloom.clear();
        proof {
            assert forall|j: int| 0 <= j < self.mph_index.slots@.len() implies #[trigger] self.slot_placed(j) by {
                assert(slot_from_entry(new_slots, j, es, ix));
                let q = choose|q: int| 0 <= q < es.len() && ix.eval_spec(es[q].0.key_bytes()) == j && #[trigger] slot_holds(new_slots, j, es, q);
                assert(old(self).target(es[q].0.key_bytes()) == Some(es[q].1));
                old(self).lemma_target_stored(es[q].0.key_bytes());
            }
            assert forall|kb: Seq<u8>| #[trigger] old(self).hash_distinct(kb) implies self.get_view(kb) == old(self).get_view(kb) by {
                assert(self.radix_index.state(kb) is Miss);
                if has_key(es, kb) {
                    let q = choose|q: int| 0 <= q < es.len() && es[q].0.key_bytes() == kb;
                    let j = ix.eval_spec(kb);
                    assert(slot_holds(new_slots, j, es, q));
                    assert(old(self).target(kb) == Some(es[q].1));
                    old(self).lemma_view_targeted(kb);
                } else {
                    let j = ix.eval_spec(kb);
                    if 0 <= j < new_slots.len() {
                        assert(slot_from_entry(new_slots, j, es, ix));
                        let q = choose|q: int| 0 <= q < es.len() && ix.eval_spec(es[q].0.key_bytes()) == j && #[trigger] slot_holds(new_slots, j, es, q);
                        old(self).lemma_other_hash(kb, es[q].0.key_bytes());
                    }
                    old(self).lemma_view_untargeted(kb, es);
                }
            }
            assert forall|kb: Seq<u8>| #[trigger] self.stored_keys().contains(kb)
                <==> (old(self).stored_keys().contains(kb) && ahash_bytes(kb) != 0) by {
                assert(self.radix_index.state(kb) is Miss);
                let j = ix.eval_spec(kb);
                if has_key(es, kb) {
                    let q = choose|q: int| 0 <= q < es.len() && es[q].0.key_bytes() == kb;
                    assert(slot_holds(new_slots, j, es, q));
                    assert(old(self).target(kb) == Some(es[q].1));
                } else {
                    if 0 <= j < new_slots.len() {
                        assert(slot_from_entry(new_slots, j, es, ix));
                        let q = choose|q: int| 0 <= q < es.len() && ix.eval_spec(es[q].0.key_bytes()) == j && #[trigger] slot_holds(new_slots, j, es, q);
                        assert(es[q].0.key_bytes() != kb);
                    }
                    assert(!ks.to_set().contains(kb)) by {
                        if ks.to_set().contains(kb) {
                            let q = choose|q: int| 0 <= q < ks.len() && ks[q] == kb;
                            assert(es[q].0.key_bytes() == kb);
                        }
                    }
                }
            }
            assert forall|kb: Seq<u8>| #[trigger] old(self).stored_keys().contains(kb) implies self.get_view(kb) == old(self).get_view(kb) by {
                assert(self.radix_index.state(kb) is Miss);
                assert(old(self).target(kb) is Some);
                assert(has_key(es, kb));
                let q = choose|q: int| 0 <= q < es.len() && es[q].0.key_bytes() == kb;
                let j = ix.eval_spec(kb);
                assert(slot_holds(new_slots, j, es, q));
                assert(old(self).target(kb) == Some(es[q].1));
                old(self).lemma_view_targeted(kb);
            }
            let ghost nz = |kb: Seq<u8>| ahash_bytes(kb) != 0;
            assert forall|kb: Seq<u8>| #[trigger] old(self).stored_keys().filter(nz).contains(kb)
                <==> (old(self).stored_keys().contains(kb) && ahash_bytes(kb) != 0) by {}
            assert(self.stored_keys() =~= old(self).stored_keys().filter(nz));
        }
        true
    }

    /// A key that the fold points somewhere reads the value stored there.
    proof fn lemma_view_targeted(&self, kb: Seq<u8>)
        requires
            self.wf(),
            self.target(kb) is Some,
        ensures
            self.get_view(kb) == self.stream.entry_at(self.target(kb)->Some_0),
    {
        if self.radix_index.state(kb) is Miss {
            let j = self.mph_index.indexer.eval_spec(kb);
            assert(self.slot_placed(j));
        }
    }

    /// What a key points to after the fold is stored in the stream.
    proof fn lemma_target_stored(&self, kb: Seq<u8>)
        requires
            self.wf(),
            self.target(kb) is Some,
        ensures
            self.stream.entry_at(self.target(kb)->Some_0) is Some,
    {
        if self.radix_index.state(kb) is Miss {
            let j = self.mph_index.indexer.eval_spec(kb);
            assert(self.slot_placed(j));
        }
    }

    /// A distinct-hash key that the fold drops reads nothing.
    proof fn lemma_view_untargeted(&self, kb: Seq<u8>, es: Seq<(K, StreamIndex)>)
        requires
            self.wf(),
            self.hash_distinct(kb),
            forall|kb2: Seq<u8>| #[trigger] self.target(kb2) is Some ==> has_key(es, kb2),
            !has_key(es, kb) || self.target(kb) is None,
        ensures
            !has_key(es, kb) ==> self.get_view(kb) is None,
    {
        if !has_key(es, kb) {
            assert(self.target(kb) is None);
            if self.radix_index.state(kb) is Miss {
                let j = self.mph_index.indexer.eval_spec(kb);
                if 0 <= j < self.mph_index.slots@.len() {
                    assert(self.slot_placed(j));
                }
            }
        }
    }

    /// A key kept by the fold other than `kb` has a different hash.
    proof fn lemma_other_hash(&self, kb: Seq<u8>, kb2: Seq<u8>)
        requires
            self.wf(),
            self.hash_distinct(kb),
            self.target(kb2) is Some,
            kb2 != kb,
        ensures
            ahash_bytes(kb2) != ahash_bytes(kb),
    {
        if self.radix_index.state(kb2) is Miss {
            let j = self.mph_index.indexer.eval_spec(kb2);
            assert(self.slot_placed(j));
            assert(self.mph_index.slots@[j].key.key_bytes() != kb);
        } else {
            assert(self.radix_index.has_record(kb2));
        }
    }
}


impl<K: IndexKey, V, I: MphIndexer<K>> OptimisedIndexGen<K, V, I> {
    /// Create an index whose base holds `base_keys` with `base_vals`, placed
    /// by `indexer`; the values are appended to the stream in order.
    pub fn new_with_base_keys_and_capacity(base_keys: &[K], base_vals: Vec<V>, indexer: I, radix_capacity: usize) -> (r: Self)
        requires
            indexer.indexer_valid(),
            indexer.slot_count() == base_keys@.len(),
            is_perfect(|kb: Seq<u8>| indexer.eval_spec(kb), key_seq(base_keys@)),
            base_vals@.len() == base_keys@.len(),
            radix_capacity <= usize::MAX / 32,
        ensures
            r.wf(),
            r.base_len() == base_keys@.len(),
            forall|q: int| 0 <= q < base_keys@.len() ==> #[trigger] r.get_view(base_keys@[q].key_bytes()) == Some(base_vals@[q]),
    {
        let mut stream: SegmentedStream<V> = SegmentedStream::new();
        let n = base_keys.len();
        let mut entries: Vec<(K, StreamIndex)> = Vec::new();
        let mut vals = base_vals;
        let ghost all_vals = vals@;
        let mut rev: Vec<V> = Vec::new();
        // Values in order: take them from the back, then append from the front.
        while vals.len() > 0
            invariant
                vals@.len() + rev@.len() == n,
                vals@ == all_vals.take(vals@.len() as int),
                forall|j: int| 0 <= j < rev@.len() ==> #[trigger] rev@[j] == all_vals[n - 1 - j],
                all_vals.len() == n,
            decreases vals@.len(),
        {
            let ghost l = vals@.len();
            let v = vals.pop().unwrap();
            proof {
                assert(all_vals.take(l as int)[l - 1] == all_vals[l - 1]);
                assert(vals@ =~= all_vals.take(l - 1));
            }
            rev.push(v);
        }
        let mut q: usize = 0;
        while q < n
            invariant
                0 <= q <= n,
                n == base_keys@.len(),
                rev@.len() == n - q,
                forall|j: int| 0 <= j < rev@.len() ==> #[trigger] rev@[j] == all_vals[n - 1 - j],
                all_vals.len() == n,
                stream.wf(),
                entries@.len() == q,
                forall|j: int| 0 <= j < q ==> (#[trigger] entries@[j]).0.key_bytes() == base_keys@[j].key_bytes()
                    && stream.entry_at(entries@[j].1) == Some(all_vals[j]),
            decreases n - q,
        {
            let v = rev.pop().unwrap();
            let ghost s0 = stream;
            let sidx = match stream.append_with_index(v) {
                Ok(si) => si,
                Err(_) => {
                    proof {
                        assert(false);
                    }
                    StreamIndex { page: 0, idx: 0 }
                },
            };
            entries.push((base_keys[q].clone_key(), sidx));
            proof {
                assert forall|j: int| 0 <= j < q + 1 implies (#[trigger] entries@[j]).0.key_bytes() == base_keys@[j].key_bytes()
                    && stream.entry_at(entries@[j].1) == Some(all_vals[j]) by {
                    if j < q {
                        assert(s0.entry_at(entries@[j].1) is Some);
                    }
                }
            }
            q = q + 1;
        }
        proof {
            assert(entry_keys(entries@) =~= key_seq(base_keys@));
        }
        let ghost es = entries@;
        let slots = place_slots(entries, &indexer);
        let ghost new_slots = slots@;
        let radix_index = RadixIndex::with_capacity(radix_capacity, if radix_capacity <= usize::MAX / 4 { radix_capacity * 4 } else { usize::MAX });
        let bloom = DeltaBloom::with_capacity(radix_capacity);
        let r = OptimisedIndexGen { mph_index: MPHIndex::from_placed_slots(slots, indexer), stream, radix_index, bloom, _pd: PhantomData };
        proof {
            assert forall|j: int| 0 <= j < r.mph_index.slots@.len() implies #[trigger] r.slot_placed(j) by {
                assert(slot_from_entry(new_slots, j, es, r.mph_index.indexer));
                let q = choose|q: int| 0 <= q < es.len() && r.mph_index.indexer.eval_spec(es[q].0.key_bytes()) == j
                    && #[trigger] slot_holds(new_slots, j, es, q);
            }
            assert forall|q: int| 0 <= q < base_keys@.len() implies #[trigger] r.get_view(base_keys@[q].key_bytes()) == Some(base_vals@[q]) by {
                let kb = base_keys@[q].key_bytes();
                assert(r.radix_index.state(kb) == DeltaState::<StreamIndex>::Miss);
                assert(es[q].0.key_bytes() == kb);
                let j = r.mph_index.indexer.eval_spec(kb);
                assert(slot_holds(new_slots, j, es, q));
            }
        }
        r
    }

    /// Values of the base, in slot order.
    pub fn iter_mph<'a>(&'a self) -> (r: Vec<&'a V>)
        requires
            self.wf(),
        ensures
            r@.len() == self.base_len(),
            forall|j: int| 0 <= j < r@.len() ==> Some(*#[trigger] r@[j]) == self.stream_view().entry_at(self.base_slot_value(j)),
    {
        let mut out: Vec<&'a V> = Vec::new();
        let mut j: usize = 0;
        while j < self.mph_index.slots.len()
            invariant
                self.wf(),
                0 <= j <= self.mph_index.slots@.len(),
                out@.len() == j,
                forall|q: int| 0 <= q < j ==> Some(*#[trigger] out@[q]) == self.stream_view().entry_at(self.base_slot_value(q)),
            decreases self.mph_index.slots@.len() - j,
        {
            proof {
                assert(self.slot_placed(j as int));
            }
            out.push(self.stream.resolve_ref_unchecked(&self.mph_index.slots[j].value));
            j = j + 1;
        }
        out
    }

    /// `v` is the stored value of a key whose latest delta record is an upsert.
    pub open spec fn from_delta(&self, v: V) -> bool {
        exists|kb: Seq<u8>| #[trigger] self.delta_state(kb) is Hit
            && self.stream_view().entry_at(self.delta_state(kb)->Hit_0) == Some(v)
    }

    /// `v` is stored for some slot of `snapshot`.
    pub open spec fn from_snapshot(&self, snapshot: &MPHIndex<K, StreamIndex, I>, v: V) -> bool {
        exists|q: int| 0 <= q < snapshot.slots@.len() && #[trigger] self.stream_view().entry_at(snapshot.slots@[q].value) == Some(v)
    }

    /// Stream indices of the base, in slot order.
    pub fn iter_mph_index(&self) -> (r: Vec<&StreamIndex>)
        requires
            self.wf(),
        ensures
            r@.len() == self.base_len(),
            forall|j: int| 0 <= j < r@.len() ==> *#[trigger] r@[j] == self.base_slot_value(j),
    {
        self.iter_mph_index_from_snapshot(&self.mph_index)
    }

    /// Stream index held by base slot `j`.
    pub closed spec fn base_slot_value(&self, j: int) -> StreamIndex {
        self.mph_index.slots@[j].value
    }

    /// Values of the keys whose latest delta record is an upsert, each such
    /// key's value present.
    pub fn iter_radix<'a>(&'a self) -> (r: Vec<&'a V>)
        requires
            self.wf(),
        ensures
            forall|j: int| 0 <= j < r@.len() ==> self.from_delta(*#[trigger] r@[j]),
            forall|kb: Seq<u8>| #[trigger] self.delta_state(kb) is Hit ==> exists|j: int| 0 <= j < r@.len()
                && self.stream_view().entry_at(self.delta_state(kb)->Hit_0) == Some(*r@[j]),
    {
        let sidxs = self.radix_index.iter_with_keys();
        let mut out: Vec<&'a V> = Vec::new();
        let ghost mut pos: Seq<int> = Seq::empty();
        let mut i: usize = 0;
        while i < sidxs.len()
            invariant
                self.wf(),
                0 <= i <= sidxs@.len(),
                forall|j: int| 0 <= j < sidxs@.len() ==> self.delta_state((#[trigger] sidxs@[j]).0.key_bytes()) == DeltaState::Hit(*sidxs@[j].1),
                forall|j: int| 0 <= j < out@.len() ==> self.from_delta(*#[trigger] out@[j]),
                pos.len() == i,
                forall|m: int| 0 <= m < i ==> 0 <= #[trigger] pos[m] < out@.len()
                    && self.stream_view().entry_at(*sidxs@[m].1) == Some(*out@[pos[m]]),
            decreases sidxs@.len() - i,
        {
            let (k, si) = sidxs[i];
            proof {
                assert(self.delta_state(k.key_bytes()) == DeltaState::Hit(*si));
                assert(self.radix_index.state(k.key_bytes()) == DeltaState::Hit(*si));
            }
            match self.stream.resolve_ref(si) {
                Some(v) => {
                    let ghost out0 = out@;
                    out.push(v);
                    proof {
                        pos = pos.push(out0.len() as int);
                        assert forall|j: int| 0 <= j < out@.len() implies self.from_delta(*#[trigger] out@[j]) by {
                            if j < out0.len() {
                                assert(out@[j] == out0[j]);
                            } else {
                                assert(self.delta_state(k.key_bytes()) == DeltaState::Hit(*si));
                            }
                        }
                        assert forall|m: int| 0 <= m < i + 1 implies 0 <= #[trigger] pos[m] < out@.len()
                            && self.stream_view().entry_at(*sidxs@[m].1) == Some(*out@[pos[m]]) by {
                            if m < i {
                                assert(out@[pos[m]] == out0[pos[m]]);
                            }
                        }
                    }
                },
                None => {
                    proof {
                        assert(false);
                    }
                },
            }
            i = i + 1;
        }
        proof {
            assert forall|kb: Seq<u8>| #[trigger] self.delta_state(kb) is Hit implies exists|j: int| 0 <= j < out@.len()
                && self.stream_view().entry_at(self.delta_state(kb)->Hit_0) == Some(*out@[j]) by {
                let m = choose|m: int| 0 <= m < sidxs@.len() && sidxs@[m].0.key_bytes() == kb;
                assert(self.delta_state(sidxs@[m].0.key_bytes()) == DeltaState::Hit(*sidxs@[m].1));
                assert(0 <= pos[m] < out@.len());
            }
        }
        out
    }

    /// Values of a given base snapshot that the stream holds, in slot order.
    pub fn iter_mph_from_snapshot<'a>(&'a self, snapshot: &'a MPHIndex<K, StreamIndex, I>) -> (r: Vec<&'a V>)
        requires
            self.wf(),
        ensures
            r@.len() <= snapshot.slots@.len(),
            forall|j: int| 0 <= j < r@.len() ==> self.from_snapshot(snapshot, *#[trigger] r@[j]),
            forall|q: int| 0 <= q < snapshot.slots@.len() && (#[trigger] self.stream_view().entry_at(snapshot.slots@[q].value)) is Some
                ==> exists|j: int| 0 <= j < r@.len() && Some(*r@[j]) == self.stream_view().entry_at(snapshot.slots@[q].value),
    {
        let mut out: Vec<&'a V> = Vec::new();
        let mut q: usize = 0;
        while q < snapshot.slots.len()
            invariant
                self.wf(),
                0 <= q <= snapshot.slots@.len(),
                out@.len() <= q,
                forall|j: int| 0 <= j < out@.len() ==> self.from_snapshot(snapshot, *#[trigger] out@[j]),
                forall|q2: int| 0 <= q2 < q && (#[trigger] self.stream_view().entry_at(snapshot.slots@[q2].value)) is Some
                    ==> exists|j: int| 0 <= j < out@.len() && Some(*out@[j]) == self.stream_view().entry_at(snapshot.slots@[q2].value),
            decreases snapshot.slots@.len() - q,
        {
            match self.stream.resolve_ref(&snapshot.slots[q].value) {
                Some(v) => {
                    let ghost out0 = out@;
                    out.push(v);
                    proof {
                        assert forall|j: int| 0 <= j < out@.len() implies self.from_snapshot(snapshot, *#[trigger] out@[j]) by {
                            if j < out0.len() {
                                assert(out@[j] == out0[j]);
                            } else {
                                assert(snapshot.slots@[q as int].value == snapshot.slots@[q as int].value);
                            }
                        }
                        assert forall|q2: int| 0 <= q2 < q + 1 && (#[trigger] self.stream_view().entry_at(snapshot.slots@[q2].value)) is Some
                            implies exists|j: int| 0 <= j < out@.len() && Some(*out@[j]) == self.stream_view().entry_at(snapshot.slots@[q2].value) by {
                            if q2 < q {
                                let j = choose|j: int| 0 <= j < out0.len() && Some(*out0[j]) == self.stream_view().entry_at(snapshot.slots@[q2].value);
                                assert(out@[j] == out0[j]);
                            } else {
                                assert(Some(*out@[out@.len() - 1]) == self.stream_view().entry_at(snapshot.slots@[q2].value));
                            }
                        }
                    }
                },
                None => {},
            }
            q = q + 1;
        }
        out
    }

    /// Stream indices of a given base snapshot, in slot order.
    pub fn iter_mph_index_from_snapshot<'a>(&'a self, snapshot: &'a MPHIndex<K, StreamIndex, I>) -> (r: Vec<&'a StreamIndex>)
        ensures
            r@.len() == snapshot.slots@.len(),
            forall|j: int| 0 <= j < r@.len() ==> *#[trigger] r@[j] == snapshot.slots@[j].value,
    {
        let mut out: Vec<&'a StreamIndex> = Vec::new();
        let mut j: usize = 0;
        while j < snapshot.slots.len()
            invariant
                0 <= j <= snapshot.slots@.len(),
                out@.len() == j,
                forall|q: int| 0 <= q < j ==> *#[trigger] out@[q] == snapshot.slots@[q].value,
            decreases snapshot.slots@.len() - j,
        {
            out.push(&snapshot.slots[j].value);
            j = j + 1;
        }
        out
    }

    /// The current base.
    pub fn snapshot(&self) -> (r: &MPHIndex<K, StreamIndex, I>)
        requires
            self.wf(),
        ensures
            r.indexer.indexer_valid(),
            r.slots@.len() == self.base_len(),
            forall|j: int| 0 <= j < r.slots@.len() ==> #[trigger] r.slots@[j].value == self.base_slot_value(j),
            forall|kb: Seq<u8>| #[trigger] r.lookup(kb, ahash_bytes(kb)) == self.base_lookup(kb),
    {
        &self.mph_index
    }

    /// Clear all data: the base keeps its indexer and loses its slots; the
    /// delta tier and the filter are emptied.
    pub fn clear(&mut self)
        requires
            old(self).wf(),
        ensures
            final(self).wf(),
            forall|kb: Seq<u8>| #[trigger] final(self).get_view(kb) is None,
            final(self).base_len() == 0,
    {
        self.radix_index.clear_all();
        self.mph_index.slots = Vec::new();
        self.bloom.clear();
        proof {
            assert forall|kb: Seq<u8>| #[trigger] self.get_view(kb) is None by {
                assert(self.radix_index.state(kb) is Miss);
            }
        }
    }

    /// Consolidate the delta tier's buckets (latest record of each key).
    pub fn consolidate_radix_only(&mut self)
        requires
            old(self).wf(),
        ensures
            final(self).wf(),
            forall|kb: Seq<u8>| #[trigger] final(self).get_view(kb) == old(self).get_view(kb),
            final(self).delta_consolidated(),
            final(self).base_len() == old(self).base_len(),
            final(self).stream_view() == old(self).stream_view(),
    {
        let _ = self.radix_index.consolidate_buckets();
        proof {
            self.lemma_same_delta(old(self));
        }
    }

    /// Rebuild the delta tier's stale snapshots.
    pub fn consolidate_radix_map_only(&mut self)
        requires
            old(self).wf(),
        ensures
            final(self).wf(),
            forall|kb: Seq<u8>| #[trigger] final(self).get_view(kb) == old(self).get_view(kb),
            final(self).delta_snapshots_fresh(),
            final(self).base_len() == old(self).base_len(),
            final(self).stream_view() == old(self).stream_view(),
    {
        let _ = self.radix_index.consolidate_snapshots_only();
        proof {
            self.lemma_same_delta(old(self));
        }
    }

    proof fn lemma_same_delta(&self, old_ix: &Self)
        requires
            old_ix.wf(),
            self.mph_index == old_ix.mph_index,
            self.stream == old_ix.stream,
            self.bloom == old_ix.bloom,
            self.radix_index.wf(),
            forall|kb: Seq<u8>| #[trigger] self.radix_index.state(kb) == old_ix.radix_index.state(kb),
        ensures
            self.wf(),
            forall|kb: Seq<u8>| #[trigger] self.get_view(kb) == old_ix.get_view(kb),
    {
        assert forall|kb: Seq<u8>| #[trigger] self.radix_index.has_record(kb) implies self.bloom.may_contain(ahash_bytes(kb)) by {
            assert(old_ix.radix_index.has_record(kb));
        }
        assert forall|kb: Seq<u8>| #[trigger] self.radix_index.state(kb) is Hit implies self.stream.entry_at(self.radix_index.state(kb)->Hit_0) is Some by {
            assert(old_ix.radix_index.state(kb) == self.radix_index.state(kb));
        }
        assert forall|j: int| 0 <= j < self.mph_index.slots@.len() implies #[trigger] self.slot_placed(j) by {
            assert(old_ix.slot_placed(j));
        }
    }

    /// Base length and delta record count.
    pub fn stats(&self) -> (r: OptimisedIndexStats)
        requires
            self.wf(),
        ensures
            r.len_base == self.base_len(),
            r.len_delta == self.delta_records(),
    {
        let len_base = self.mph_index.len();
        let len_delta = self.radix_index.collect_stats().total_keys;
        OptimisedIndexStats { len_base, len_delta }
    }

    /// The delta tier's per-bucket details.
    pub closed spec fn delta_details(&self) -> Seq<crate::mph_delta_index::radix_stats::BucketStats> {
        self.radix_index.details_view()
    }

    /// Number of keys with a live record in the delta tier, as its
    /// statistics count them.
    pub closed spec fn delta_records(&self) -> usize {
        let d = self.radix_index.details_view();
        if d.len() == 0 {
            0
        } else if crate::mph_delta_index::radix_stats::depth_sum(d) > usize::MAX {
            usize::MAX
        } else {
            crate::mph_delta_index::radix_stats::depth_sum(d) as usize
        }
    }

    /// Detailed statistics of the delta tier.
    pub fn radix_stats(&self) -> (r: RadixIndexStats)
        requires
            self.wf(),
        ensures
            r.bucket_details@ == self.delta_details(),
            r.total_keys == self.delta_records(),
    {
        self.radix_index.collect_stats()
    }

    /// Total number of entries: base slots plus delta upsert records (saturating).
    pub fn len(&self) -> (r: usize)
        requires
            self.wf(),
        ensures
            r == (if self.base_len() + self.delta_records() > usize::MAX { usize::MAX as int } else { self.base_len() + self.delta_records() }),
    {
        let stats = self.stats();
        stats.len_base.saturating_add(stats.len_delta)
    }

    /// Whether the index has no entries.
    pub fn is_empty(&self) -> (r: bool)
        requires
            self.wf(),
        ensures
            r == (self.base_len() == 0 && self.delta_records() == 0),
    {
        self.len() == 0
    }
}

impl<K: IndexKey + Default, V> OptimisedIndexGen<K, V, BBHashIndexer<K>> {
    /// Create an empty index with default capacities (4096 target keys in the
    /// delta tier, 8192 at most) and an indexer built for one default key.
    pub fn new() -> (r: Self)
        ensures
            r.wf(),
            forall|kb: Seq<u8>| #[trigger] r.get_view(kb) is None,
    {
        Self::new_with_capacity(4096, 8192)
    }

    /// Create an empty index with delta capacities and an indexer built for
    /// one default key.
    pub fn new_with_capacity(radix_target_capacity: usize, radix_max_capacity: usize) -> (r: Self)
        requires
            radix_target_capacity <= usize::MAX / 32,
        ensures
            r.wf(),
            forall|kb: Seq<u8>| #[trigger] r.get_view(kb) is None,
            r.base_len() == 0,
            delta_capacities(r.delta_bucket_count(), r.delta_initial_capacity(), radix_target_capacity, radix_max_capacity),
    {
        let dummy_key = K::default();
        let keys = vec![dummy_key];
        let cfg = BbhConfig::default();
        proof {
            assert(key_seq(keys@) =~= seq![keys@[0].key_bytes()]);
            lemma_single_key_build_ok(keys@[0].key_bytes(), cfg);
        }
        let indexer = BBHashIndexer::build(keys.as_slice(), cfg);
        Self::new_with_indexer_and_capacity(indexer, radix_target_capacity, radix_max_capacity)
    }
}

} // verus!
