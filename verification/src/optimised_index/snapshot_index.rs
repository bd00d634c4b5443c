//! Two-tier index: a published snapshot (reserved slots and a base array
//! placed by a perfect-hash indexer) under an in-memory delta overlay, which
//! is written directly or fed from an append-only stream of delta operations.
use vstd::prelude::*;
use crate::ids::IndexKey;
use crate::mph_delta_index::bloom::DeltaBloom;
use crate::mph_delta_index::mph_indexer::MphIndexer;
use crate::mph_delta_index::radix_index::DeltaState;
use crate::mph_delta_index::util::{ahash_bytes, hash64};
use crate::optimised_index::radix_delta::RadixDelta;
use crate::segmented_stream::{Cursor, SegmentedStream};

verus! {

/// Delta operation carried in the delta stream.
pub enum DeltaOp<K, V> {
    /// Insert or update the value associated with a key.
    Upsert(K, V),
    /// Remove a key by writing a tombstone.
    Delete(K),
}

/// A published snapshot: reserved schema keys and values in slot order, and
/// the base values placed by the indexer.
pub struct SnapshotGen<K, V, I> {
    /// Monotonic snapshot version.
    pub version: u64,
    /// Reserved schema keys in slot order.
    pub reserved_keys: Vec<K>,
    /// Reserved schema values aligned to `reserved_keys`.
    pub reserved_vals: Vec<V>,
    /// Base values, at the slots the indexer gives their keys.
    pub mph_vals: Vec<V>,
    /// Indexer for base lookups.
    pub mph_indexer: I,
}

/// Statistics of the two-tier index.
#[derive(Debug, Clone, Copy, PartialEq, Eq)]
pub struct OptimisedIndexStats {
    /// Version of the base snapshot.
    pub base_version: u64,
    /// Number of base values.
    pub len_base: usize,
    /// Number of delta entries (not counted).
    pub len_delta: usize,
    /// Whether routing prefers the delta first.
    pub routing_mode_delta_first: bool,
}

/// The base value of key bytes `kb` in a snapshot: the value at the slot the
/// indexer gives, when that slot exists.
pub open spec fn base_value<K: IndexKey, V, I: MphIndexer<K>>(snap: SnapshotGen<K, V, I>, kb: Seq<u8>) -> Option<V> {
    let j = snap.mph_indexer.eval_spec(kb);
    if 0 <= j < snap.mph_vals@.len() {
        Some(snap.mph_vals@[j])
    } else {
        None
    }
}

/// The value of key bytes `kb` with overlay state `st` over snapshot `snap`:
/// a delta value wins, a tombstone hides the key, a miss falls to the base.
pub open spec fn overlay_value<K: IndexKey, V, I: MphIndexer<K>>(st: DeltaState<V>, snap: SnapshotGen<K, V, I>, kb: Seq<u8>) -> Option<V> {
    match st {
        DeltaState::Hit(v) => Some(v),
        DeltaState::Tombstone => None,
        DeltaState::Miss => base_value(snap, kb),
    }
}

/// Overlay `b` is overlay `a` after applying `op`, as `RadixDelta::upsert`
/// and `RadixDelta::delete` state.
pub open spec fn delta_step<K: IndexKey, V>(a: RadixDelta<K, V>, op: DeltaOp<K, V>, b: RadixDelta<K, V>) -> bool {
    &&& b.wf()
    &&& b.cap_view() == a.cap_view()
    &&& b.dir_len() == a.dir_len()
    &&& match op {
        DeltaOp::Upsert(k, v) => forall|kb: Seq<u8>| #[trigger] b.state(kb) == (
            if kb == k.key_bytes() && !(a.state(kb) is Miss && a.bucket_full(kb)) {
                DeltaState::Hit(v)
            } else if a.state(k.key_bytes()) is Miss && a.evicted(k.key_bytes()) == Some(kb) {
                DeltaState::Miss
            } else {
                a.state(kb)
            }),
        DeltaOp::Delete(k) => forall|kb: Seq<u8>| #[trigger] b.state(kb) == (
            if kb == k.key_bytes() && !(a.state(kb) is Miss && a.bucket_taken(kb)) {
                DeltaState::Tombstone
            } else {
                a.state(kb)
            }),
    }
}

/// `ds` are the overlays met while applying `ops` in order: each is the
/// previous one after the next operation.
pub open spec fn replays<K: IndexKey, V>(ds: Seq<RadixDelta<K, V>>, ops: Seq<DeltaOp<K, V>>) -> bool {
    &&& ds.len() == ops.len() + 1
    &&& forall|i: int| 0 <= i < ops.len() ==> #[trigger] delta_step(ds[i], ops[i], ds[i + 1])
}

/// Two-tier index: snapshot, delta stream, delta overlay and a Bloom filter
/// over the keys written to the overlay or the stream.
pub struct OptimisedIndexGen<K, V, I> {
    snapshot: SnapshotGen<K, V, I>,
    delta_stream: SegmentedStream<DeltaOp<K, V>>,
    delta: RadixDelta<K, V>,
    bloom: DeltaBloom,
}

impl<K: IndexKey, V: Copy, I: MphIndexer<K>> OptimisedIndexGen<K, V, I> {
    /// The published snapshot.
    pub closed spec fn snapshot_view(&self) -> SnapshotGen<K, V, I> {
        self.snapshot
    }

    /// The delta stream.
    pub closed spec fn stream(&self) -> SegmentedStream<DeltaOp<K, V>> {
        self.delta_stream
    }

    /// The delta overlay.
    pub closed spec fn delta_view(&self) -> RadixDelta<K, V> {
        self.delta
    }

    /// The value a read gives for key bytes `kb`.
    pub open spec fn get_view(&self, kb: Seq<u8>) -> Option<V> {
        overlay_value(self.delta_view().state(kb), self.snapshot_view(), kb)
    }

    /// The parts are well formed and the filter covers every key with an
    /// overlay record.
    pub closed spec fn wf(&self) -> bool {
        &&& self.snapshot.mph_indexer.indexer_valid()
        &&& self.delta_stream.wf()
        &&& self.delta.wf()
        &&& self.bloom.wf()
        &&& forall|kb: Seq<u8>| !(#[trigger] self.delta.state(kb) is Miss) ==> self.bloom.may_contain(ahash_bytes(kb))
    }

    /// Create an index over a snapshot and a delta stream, with an empty
    /// overlay.
    pub fn new(snapshot: SnapshotGen<K, V, I>, delta_stream: SegmentedStream<DeltaOp<K, V>>) -> (r: Self)
        requires
            snapshot.mph_indexer.indexer_valid(),
            delta_stream.wf(),
        ensures
            r.wf(),
            r.snapshot_view() == snapshot,
            r.stream() == delta_stream,
            forall|kb: Seq<u8>| #[trigger] r.delta_view().state(kb) is Miss,
            forall|kb: Seq<u8>| #[trigger] r.get_view(kb) == base_value(snapshot, kb),
    {
        let r = OptimisedIndexGen {
            snapshot,
            delta_stream,
            delta: RadixDelta::new(),
            bloom: DeltaBloom::with_capacity(1024),
        };
        r
    }

    /// Read through the overlay into a snapshot: the filter skips the overlay
    /// for keys never written to it.
    fn read_with<'a>(&'a self, snap: &'a SnapshotGen<K, V, I>, key: &K) -> (r: Option<&'a V>)
        requires
            self.wf(),
            snap.mph_indexer.indexer_valid(),
        ensures
            r matches Some(v) ==> overlay_value(self.delta.state(key.key_bytes()), *snap, key.key_bytes()) == Some(*v),
            r is None ==> overlay_value(self.delta.state(key.key_bytes()), *snap, key.key_bytes()) is None,
    {
        let h = hash64(key);
        if self.bloom.might_contain_prehashed(h) {
            match self.delta.get_ref_hashed(key, h) {
                DeltaState::Hit(v) => {
                    return Some(v);
                },
                DeltaState::Tombstone => {
                    return None;
                },
                DeltaState::Miss => {},
            }
        }
        let idx = snap.mph_indexer.eval(key);
        if idx < snap.mph_vals.len() {
            Some(&snap.mph_vals[idx])
        } else {
            None
        }
    }

    /// Value of a key: the overlay's value, none for a tombstone, or else the
    /// base value.
    pub fn get<'a>(&'a self, key: &K) -> (r: Option<&'a V>)
        requires
            self.wf(),
        ensures
            r matches Some(v) ==> self.get_view(key.key_bytes()) == Some(*v),
            r is None ==> self.get_view(key.key_bytes()) is None,
    {
        self.read_with(&self.snapshot, key)
    }

    /// Value of a key read through the overlay into a given snapshot.
    pub fn get_with_snapshot<'a>(&'a self, snap: &'a SnapshotGen<K, V, I>, key: &K) -> (r: Option<&'a V>)
        requires
            self.wf(),
            snap.mph_indexer.indexer_valid(),
        ensures
            r matches Some(v) ==> overlay_value(self.delta_view().state(key.key_bytes()), *snap, key.key_bytes()) == Some(*v),
            r is None ==> overlay_value(self.delta_view().state(key.key_bytes()), *snap, key.key_bytes()) is None,
    {
        self.read_with(snap, key)
    }

    /// Reserved value of a given snapshot, base only.
    pub fn get_reserved_with_snapshot<'a>(&'a self, snap: &'a SnapshotGen<K, V, I>, slot: usize) -> (r: Option<&'a V>)
        ensures
            r matches Some(v) ==> slot < snap.reserved_vals@.len() && *v == snap.reserved_vals@[slot as int],
            r is None ==> slot >= snap.reserved_vals@.len(),
    {
        if slot < snap.reserved_vals.len() {
            Some(&snap.reserved_vals[slot])
        } else {
            None
        }
    }

    /// Write a value to the overlay; the filter records the key.
    pub fn upsert(&mut self, key: K, value: V)
        requires
            old(self).wf(),
        ensures
            final(self).wf(),
            delta_step(old(self).delta_view(), DeltaOp::Upsert(key, value), final(self).delta_view()),
            final(self).snapshot_view() == old(self).snapshot_view(),
            final(self).stream() == old(self).stream(),
    {
        let ghost d0 = self.delta;
        let h = hash64(&key);
        self.bloom.insert_prehashed(h);
        self.delta.upsert(key, value);
        proof {
            assert forall|kb: Seq<u8>| !(#[trigger] self.delta.state(kb) is Miss) implies self.bloom.may_contain(ahash_bytes(kb)) by {
                if kb != key.key_bytes() {
                    assert(!(d0.state(kb) is Miss));
                }
            }
        }
    }

    /// Write a tombstone for a key to the overlay; the filter records the key.
    pub fn remove(&mut self, key: &K)
        requires
            old(self).wf(),
        ensures
            final(self).wf(),
            delta_step(old(self).delta_view(), DeltaOp::Delete(*key), final(self).delta_view()),
            final(self).snapshot_view() == old(self).snapshot_view(),
            final(self).stream() == old(self).stream(),
    {
        let ghost d0 = self.delta;
        let h = hash64(key);
        self.delta.delete(key);
        self.bloom.insert_prehashed(h);
        proof {
            assert forall|kb: Seq<u8>| !(#[trigger] self.delta.state(kb) is Miss) implies self.bloom.may_contain(ahash_bytes(kb)) by {
                if kb != key.key_bytes() {
                    assert(!(d0.state(kb) is Miss));
                }
            }
        }
    }

    /// Whether a read gives a value: the overlay decides when it has a
    /// record of the key, the base otherwise.
    pub fn contains_key(&self, key: &K) -> (r: bool)
        requires
            self.wf(),
        ensures
            r == self.get_view(key.key_bytes()) is Some,
    {
        match self.delta.get_ref(key) {
            DeltaState::Hit(_) => {
                return true;
            },
            DeltaState::Tombstone => {
                return false;
            },
            DeltaState::Miss => {},
        }
        let idx = self.snapshot.mph_indexer.eval(key);
        idx < self.snapshot.mph_vals.len()
    }

    /// Number of base values.
    pub fn len(&self) -> (r: usize)
        ensures
            r == self.snapshot_view().mph_vals@.len(),
    {
        self.snapshot.mph_vals.len()
    }

    /// Statistics: the snapshot's version and base length; the delta is not
    /// counted.
    pub fn stats(&self) -> (r: OptimisedIndexStats)
        ensures
            r.base_version == self.snapshot_view().version,
            r.len_base == self.snapshot_view().mph_vals@.len(),
            r.len_delta == 0,
            !r.routing_mode_delta_first,
    {
        OptimisedIndexStats {
            base_version: self.snapshot.version,
            len_base: self.snapshot.mph_vals.len(),
            len_delta: 0,
            routing_mode_delta_first: false,
        }
    }

    /// Base value at a slot of the base array.
    pub fn get_by_index(&self, idx: usize) -> (r: Option<&V>)
        ensures
            r matches Some(v) ==> idx < self.snapshot_view().mph_vals@.len() && *v == self.snapshot_view().mph_vals@[idx as int],
            r is None ==> idx >= self.snapshot_view().mph_vals@.len(),
    {
        if idx < self.snapshot.mph_vals.len() {
            Some(&self.snapshot.mph_vals[idx])
        } else {
            None
        }
    }

    /// Reserved value at a slot, base only.
    pub fn get_reserved_slot(&self, slot: usize) -> (r: Option<&V>)
        ensures
            r matches Some(v) ==> slot < self.snapshot_view().reserved_vals@.len()
                && *v == self.snapshot_view().reserved_vals@[slot as int],
            r is None ==> slot >= self.snapshot_view().reserved_vals@.len(),
    {
        if slot < self.snapshot.reserved_vals.len() {
            Some(&self.snapshot.reserved_vals[slot])
        } else {
            None
        }
    }

    /// Reserved value at a slot with the overlay: the overlay decides for
    /// the slot's reserved key when it has a record of it.
    pub fn get_reserved_slot_with_overlay(&self, slot: usize) -> (r: Option<&V>)
        requires
            self.wf(),
        ensures
            ({
                let snap = self.snapshot_view();
                let base = if slot < snap.reserved_vals@.len() { Some(snap.reserved_vals@[slot as int]) } else { None };
                let want = if slot < snap.reserved_keys@.len() {
                    match self.delta_view().state(snap.reserved_keys@[slot as int].key_bytes()) {
                        DeltaState::Hit(v) => Some(v),
                        DeltaState::Tombstone => None,
                        DeltaState::Miss => base,
                    }
                } else {
                    base
                };
                &&& (r matches Some(v) ==> want == Some(*v))
                &&& (r is None ==> want is None)
            }),
    {
        if slot < self.snapshot.reserved_keys.len() {
            match self.delta.get_ref(&self.snapshot.reserved_keys[slot]) {
                DeltaState::Hit(v) => {
                    return Some(v);
                },
                DeltaState::Tombstone => {
                    return None;
                },
                DeltaState::Miss => {},
            }
        }
        if slot < self.snapshot.reserved_vals.len() {
            Some(&self.snapshot.reserved_vals[slot])
        } else {
            None
        }
    }

    /// Replace the published snapshot.
    pub fn publish_snapshot(&mut self, snapshot: SnapshotGen<K, V, I>)
        requires
            old(self).wf(),
            snapshot.mph_indexer.indexer_valid(),
        ensures
            final(self).wf(),
            final(self).snapshot_view() == snapshot,
            final(self).delta_view() == old(self).delta_view(),
            final(self).stream() == old(self).stream(),
    {
        self.snapshot = snapshot;
    }

    /// A cursor at the head of the delta stream.
    pub fn create_delta_cursor(&self) -> (r: Cursor)
        requires
            self.wf(),
        ensures
            r.valid_for(&self.stream()),
            r.pos(&self.stream()) == 0,
    {
        Cursor::new_at_head(&self.delta_stream)
    }

    /// Append an upsert to the delta stream (the overlay takes it when the
    /// stream is applied); the filter records the key.
    pub fn append_delta_upsert(&mut self, key: K, value: V)
        requires
            old(self).wf(),
        ensures
            final(self).wf(),
            final(self).stream()@ == old(self).stream()@.push(DeltaOp::Upsert(key, value)),
            final(self).delta_view() == old(self).delta_view(),
            final(self).snapshot_view() == old(self).snapshot_view(),
    {
        let h = hash64(&key);
        let _ = self.delta_stream.append(DeltaOp::Upsert(key, value));
        self.bloom.insert_prehashed(h);
    }

    /// Append a delete to the delta stream (the overlay takes it when the
    /// stream is applied); the filter records the key.
    pub fn append_delta_delete(&mut self, key: K)
        requires
            old(self).wf(),
        ensures
            final(self).wf(),
            final(self).stream()@ == old(self).stream()@.push(DeltaOp::Delete(key)),
            final(self).delta_view() == old(self).delta_view(),
            final(self).snapshot_view() == old(self).snapshot_view(),
    {
        let h = hash64(&key);
        let _ = self.delta_stream.append(DeltaOp::Delete(key));
        self.bloom.insert_prehashed(h);
    }
    /// Apply up to `max_ops` operations of the delta stream, from the cursor
    /// on, to the overlay in order; returns how many were applied: `max_ops`,
    /// or all that are left when fewer are.
    pub fn apply_delta_once(&mut self, cursor: &mut Cursor, max_ops: usize) -> (n: usize)
        requires
            old(self).wf(),
            old(cursor).valid_for(&old(self).stream()),
        ensures
            final(self).wf(),
            final(self).stream() == old(self).stream(),
            final(self).snapshot_view() == old(self).snapshot_view(),
            final(cursor).valid_for(&final(self).stream()),
            old(cursor).pos(&old(self).stream()) <= old(self).stream()@.len(),
            n == (if max_ops < old(self).stream()@.len() - old(cursor).pos(&old(self).stream()) {
                max_ops as int
            } else {
                old(self).stream()@.len() - old(cursor).pos(&old(self).stream())
            }),
            final(cursor).pos(&final(self).stream()) == old(cursor).pos(&old(self).stream()) + n,
            exists|ds: Seq<RadixDelta<K, V>>| #![trigger replays(ds, old(self).stream()@.subrange(
                old(cursor).pos(&old(self).stream()), old(cursor).pos(&old(self).stream()) + n))]
                replays(ds, old(self).stream()@.subrange(
                    old(cursor).pos(&old(self).stream()), old(cursor).pos(&old(self).stream()) + n))
                && ds[0] == old(self).delta_view() && ds[n as int] == final(self).delta_view(),
    {
        let ghost p0 = cursor.pos(&self.delta_stream);
        let ghost ops = self.delta_stream@;
        let ghost mut ds: Seq<RadixDelta<K, V>> = seq![self.delta];
        let mut applied: usize = 0;
        proof {
            cursor.lemma_pos_bound(&self.delta_stream);
            assert(ops.subrange(p0, p0).len() == 0);
            assert(replays(ds, ops.subrange(p0, p0)));
        }
        while applied < max_ops
            invariant
                self.wf(),
                self.delta_stream == old(self).delta_stream,
                self.snapshot == old(self).snapshot,
                ops == self.delta_stream@,
                p0 == old(cursor).pos(&old(self).stream()),
                0 <= p0,
                cursor.valid_for(&self.delta_stream),
                cursor.pos(&self.delta_stream) == p0 + applied,
                p0 + applied <= ops.len(),
                applied <= max_ops,
                ds.len() == applied + 1,
                ds[0] == old(self).delta,
                ds[applied as int] == self.delta,
                replays(ds, ops.subrange(p0, p0 + applied)),
            ensures
                self.wf(),
                self.delta_stream == old(self).delta_stream,
                self.snapshot == old(self).snapshot,
                cursor.valid_for(&self.delta_stream),
                cursor.pos(&self.delta_stream) == p0 + applied,
                p0 + applied <= ops.len(),
                applied <= max_ops,
                applied == max_ops || p0 + applied == ops.len(),
                ds.len() == applied + 1,
                ds[0] == old(self).delta,
                ds[applied as int] == self.delta,
                replays(ds, ops.subrange(p0, p0 + applied)),
            decreases max_ops - applied,
        {
            let next = cursor.next(&self.delta_stream);
            match next {
                None => {
                    break;
                },
                Some(op) => {
                    let ghost before = self.delta;
                    let ghost bloom0 = self.bloom;
                    match op {
                        DeltaOp::Upsert(k, v) => {
                            let h = hash64(k);
                            self.bloom.insert_prehashed(h);
                            self.delta.upsert(k.clone_key(), *v);
                        },
                        DeltaOp::Delete(k) => {
                            let h = hash64(k);
                            self.bloom.insert_prehashed(h);
                            self.delta.delete(k);
                        },
                    }
                    proof {
                        let opk = ops[p0 + applied];
                        assert(*op == opk);
                        assert(delta_step(before, opk, self.delta));
                        assert forall|kb: Seq<u8>| !(#[trigger] self.delta.state(kb) is Miss) implies self.bloom.may_contain(ahash_bytes(kb)) by {
                            if !(before.state(kb) is Miss) {
                                assert(bloom0.may_contain(ahash_bytes(kb)));
                            }
                        }
                        let nds = ds.push(self.delta);
                        assert(p0 + applied < ops.len());
                        let nops = ops.subrange(p0, p0 + applied + 1);
                        let pops = ops.subrange(p0, p0 + applied);
                        assert(nops.len() == applied + 1);
                        assert(forall|j: int| 0 <= j < applied ==> #[trigger] pops[j] == ops[p0 + j]);
                        assert(forall|j: int| 0 <= j <= applied ==> #[trigger] nops[j] == ops[p0 + j]);
                        assert forall|i: int| 0 <= i < nops.len() implies #[trigger] delta_step(nds[i], nops[i], nds[i + 1]) by {
                            if i < applied {
                                assert(nops[i] == pops[i]);
                                assert(delta_step(ds[i], pops[i], ds[i + 1]));
                            } else {
                                assert(i == applied);
                                assert(nops[i] == ops[p0 + i]);
                                assert(nds[i] == before);
                                assert(nds[i + 1] == self.delta);
                            }
                        }
                        ds = nds;
                    }
                    applied = applied + 1;
                },
            }
        }
        applied
    }
}

} // verus!
