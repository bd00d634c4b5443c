//! Immutable base index: one slot per key, placed where the indexer says.
use vstd::prelude::*;
use core::marker::PhantomData;
use crate::ids::IndexKey;
use crate::mph_delta_index::mph_indexer::MphIndexer;
use crate::mph_delta_index::util::{hash64, key_hash};

verus! {

/// Immutable index slot containing key and value.
pub struct Slot<K, V> {
    /// Fingerprint: middle 16 bits of key hash for quick rejection.
    pub tag16: u16,
    /// Fingerprint: full 64-bit key hash for validation.
    pub hash64: u64,
    /// The key stored in this slot.
    pub key: K,
    /// The value stored in this slot.
    pub value: V,
}

impl<K, V> Slot<K, V> {
    /// Create a new slot with key and value.
    pub fn new(tag16: u16, hash64: u64, key: K, value: V) -> (r: Self)
        ensures
            r.tag16 == tag16,
            r.hash64 == hash64,
            r.key == key,
            r.value == value,
    {
        Slot { tag16, hash64, key, value }
    }
}

/// Immutable index: array of slots with the indexer that places keys in them.
/// All mutations happen in the delta tier until publish time.
pub struct MPHIndex<K, V, I> {
    /// Contiguous slots; length equals the indexer's slot count.
    pub slots: Vec<Slot<K, V>>,
    /// Indexer evaluating key -> slot index.
    pub indexer: I,
    /// Marker for the key type.
    pub _pd: PhantomData<K>,
}

impl<K: IndexKey, V, I: MphIndexer<K>> MPHIndex<K, V, I> {
    /// The slot a key would occupy.
    pub open spec fn slot_index(&self, kb: Seq<u8>) -> int {
        self.indexer.eval_spec(kb)
    }

    /// What a lookup of key bytes `kb`, whose hash is `h`, finds: the value
    /// of the key's slot when the slot's stored hash matches.
    pub open spec fn lookup(&self, kb: Seq<u8>, h: u64) -> Option<V> {
        let i = self.slot_index(kb);
        if 0 <= i < self.slots@.len() && self.slots@[i].hash64 == h {
            Some(self.slots@[i].value)
        } else {
            None
        }
    }

    /// Create an empty index with the given indexer.
    pub fn empty(indexer: I) -> (r: Self)
        ensures
            r.slots@.len() == 0,
            r.indexer == indexer,
    {
        MPHIndex { slots: Vec::new(), indexer, _pd: PhantomData }
    }

    /// The slot position the indexer gives the key of `slots[i]`.
    pub open spec fn placed_at(indexer: I, slots: Seq<Slot<K, V>>, i: int) -> int {
        indexer.eval_spec(slots[i].key.key_bytes())
    }

    /// The indexer sends the keys of `slots` one to one onto the positions
    /// `0..slots.len()`.
    pub open spec fn places_keys(indexer: I, slots: Seq<Slot<K, V>>) -> bool {
        &&& forall|i: int| 0 <= i < slots.len() ==> 0 <= #[trigger] Self::placed_at(indexer, slots, i) < slots.len()
        &&& forall|i: int, j: int| 0 <= i < j < slots.len()
            ==> #[trigger] Self::placed_at(indexer, slots, i) != #[trigger] Self::placed_at(indexer, slots, j)
        &&& forall|p: int| 0 <= p < slots.len() ==> #[trigger] Self::position_taken(indexer, slots, p)
    }

    /// Some key of `slots` is placed at position `p`.
    pub open spec fn position_taken(indexer: I, slots: Seq<Slot<K, V>>, p: int) -> bool {
        exists|i: int| 0 <= i < slots.len() && #[trigger] Self::placed_at(indexer, slots, i) == p
    }

    /// Create an index from slots and indexer. When the indexer sends the
    /// slots' keys one to one onto the positions, each slot is stored at the
    /// position of its key, so that `get` finds it; otherwise the slots are
    /// kept as given.
    pub fn from_slots(slots: Vec<Slot<K, V>>, indexer: I) -> (r: Self)
        requires
            indexer.indexer_valid(),
        ensures
            r.indexer == indexer,
            r.slots@.len() == slots@.len(),
            Self::places_keys(indexer, slots@) ==> forall|i: int| 0 <= i < slots@.len()
                ==> r.slots@[#[trigger] Self::placed_at(indexer, slots@, i)] == slots@[i],
            !Self::places_keys(indexer, slots@) ==> r.slots@ == slots@,
    {
        let n = slots.len();
        let ghost s0 = slots@;
        let mut pos: Vec<usize> = Vec::new();
        let mut seen: Vec<bool> = Vec::new();
        let mut c: usize = 0;
        while c < n
            invariant
                0 <= c <= n,
                seen@.len() == c,
                forall|p: int| 0 <= p < c ==> !(#[trigger] seen@[p]),
            decreases n - c,
        {
            seen.push(false);
            c = c + 1;
        }
        let mut ok = true;
        let mut i: usize = 0;
        while i < n
            invariant
                0 <= i <= n,
                n == s0.len(),
                slots@ == s0,
                indexer.indexer_valid(),
                seen@.len() == n,
                pos@.len() == i,
                forall|a: int| 0 <= a < i ==> #[trigger] pos@[a] == Self::placed_at(indexer, s0, a),
                ok <==> (forall|a: int| 0 <= a < i ==> #[trigger] pos@[a] < n)
                    && (forall|a: int, b: int| 0 <= a < b < i ==> #[trigger] pos@[a] != #[trigger] pos@[b]),
                ok ==> forall|p: int| 0 <= p < n ==> (#[trigger] seen@[p] <==> exists|a: int| 0 <= a < i && pos@[a] == p),
            decreases n - i,
        {
            let j = indexer.eval(&slots[i].key);
            let ghost pos0 = pos@;
            pos.push(j);
            if ok {
                if j < n {
                    if seen[j] {
                        ok = false;
                        proof {
                            let a = choose|a: int| 0 <= a < i && pos0[a] == j;
                            assert(pos@[a] == pos@[i as int]);
                        }
                    } else {
                        let ghost seen0 = seen@;
                        seen.set(j, true);
                        proof {
                            assert forall|p: int| 0 <= p < n implies (#[trigger] seen@[p] <==> exists|a: int| 0 <= a < i + 1 && pos@[a] == p) by {
                                if p == j {
                                    assert(pos@[i as int] == p);
                                } else {
                                    assert(seen@[p] == seen0[p]);
                                    if exists|a: int| 0 <= a < i + 1 && pos@[a] == p {
                                        let a = choose|a: int| 0 <= a < i + 1 && pos@[a] == p;
                                        assert(pos0[a] == p);
                                    }
                                    if seen0[p] {
                                        let a = choose|a: int| 0 <= a < i && pos0[a] == p;
                                        assert(pos@[a] == p);
                                    }
                                }
                            }
                            assert forall|a: int, b: int| 0 <= a < b < i + 1 implies #[trigger] pos@[a] != #[trigger] pos@[b] by {
                                if b == i {
                                    if pos@[a] == pos@[b] {
                                        assert(pos0[a] == j);
                                    }
                                } else {
                                    assert(pos0[a] != pos0[b]);
                                }
                            }
                        }
                    }
                } else {
                    ok = false;
                    proof {
                        assert(!(pos@[i as int] < n));
                    }
                }
            } else {
                proof {
                    if (forall|a: int| 0 <= a < i + 1 ==> #[trigger] pos@[a] < n)
                        && (forall|a: int, b: int| 0 <= a < b < i + 1 ==> #[trigger] pos@[a] != #[trigger] pos@[b]) {
                        assert forall|a: int| 0 <= a < i implies #[trigger] pos0[a] < n by {
                            assert(pos@[a] == pos0[a]);
                        }
                        assert forall|a: int, b: int| 0 <= a < b < i implies #[trigger] pos0[a] != #[trigger] pos0[b] by {
                            assert(pos@[a] != pos@[b]);
                        }
                    }
                }
            }
            i = i + 1;
        }
        let mut p: usize = 0;
        while p < n
            invariant
                0 <= p <= n,
                n == s0.len(),
                seen@.len() == n,
                pos@.len() == n,
                forall|a: int| 0 <= a < n ==> #[trigger] pos@[a] == Self::placed_at(indexer, s0, a),
                ok ==> (forall|a: int| 0 <= a < n ==> #[trigger] pos@[a] < n)
                    && (forall|a: int, b: int| 0 <= a < b < n ==> #[trigger] pos@[a] != #[trigger] pos@[b])
                    && (forall|q: int| 0 <= q < p ==> #[trigger] Self::position_taken(indexer, s0, q)),
                !ok ==> !Self::places_keys(indexer, s0),
                (forall|q: int| 0 <= q < n ==> (#[trigger] seen@[q] <==> exists|a: int| 0 <= a < n && pos@[a] == q)) || !ok,
            decreases n - p,
        {
            if ok && !seen[p] {
                ok = false;
                proof {
                    assert(!exists|a: int| 0 <= a < n && pos@[a] == p);
                    if Self::places_keys(indexer, s0) {
                        assert(Self::position_taken(indexer, s0, p as int));
                        let a = choose|a: int| 0 <= a < s0.len() && #[trigger] Self::placed_at(indexer, s0, a) == p;
                        assert(pos@[a] == p);
                    }
                }
            }
            proof {
                if ok {
                    assert(seen@[p as int]);
                    let a = choose|a: int| 0 <= a < n && pos@[a] == p;
                    assert(Self::placed_at(indexer, s0, a) == p);
                    assert(Self::position_taken(indexer, s0, p as int));
                }
                if !ok && Self::places_keys(indexer, s0) {
                    assert forall|a: int| 0 <= a < n implies #[trigger] pos@[a] < n by {
                        assert(0 <= Self::placed_at(indexer, s0, a) < n);
                    }
                    assert forall|a: int, b: int| 0 <= a < b < n implies #[trigger] pos@[a] != #[trigger] pos@[b] by {
                        assert(Self::placed_at(indexer, s0, a) != Self::placed_at(indexer, s0, b));
                    }
                }
            }
            p = p + 1;
        }
        if !ok {
            return MPHIndex { slots, indexer, _pd: PhantomData };
        }
        proof {
            assert(Self::places_keys(indexer, s0)) by {
                assert forall|a: int| 0 <= a < s0.len() implies 0 <= #[trigger] Self::placed_at(indexer, s0, a) < s0.len() by {
                    assert(pos@[a] < n);
                }
                assert forall|a: int, b: int| 0 <= a < b < s0.len()
                    implies #[trigger] Self::placed_at(indexer, s0, a) != #[trigger] Self::placed_at(indexer, s0, b) by {
                    assert(pos@[a] != pos@[b]);
                }
                assert forall|q: int| 0 <= q < s0.len() implies #[trigger] Self::position_taken(indexer, s0, q) by {
                }
            }
        }
        let mut opt: Vec<Option<Slot<K, V>>> = Vec::new();
        let mut c2: usize = 0;
        while c2 < n
            invariant
                0 <= c2 <= n,
                opt@.len() == c2,
                forall|q: int| 0 <= q < c2 ==> (#[trigger] opt@[q]) is None,
            decreases n - c2,
        {
            opt.push(None);
            c2 = c2 + 1;
        }
        let mut pending = slots;
        while pending.len() > 0
            invariant
                n == s0.len(),
                pos@.len() == n,
                forall|a: int| 0 <= a < n ==> #[trigger] pos@[a] == Self::placed_at(indexer, s0, a),
                forall|a: int| 0 <= a < n ==> #[trigger] pos@[a] < n,
                forall|a: int, b: int| 0 <= a < b < n ==> #[trigger] pos@[a] != #[trigger] pos@[b],
                pending@.len() <= n,
                pending@ == s0.take(pending@.len() as int),
                opt@.len() == n,
                forall|a: int| pending@.len() <= a < n ==> opt@[#[trigger] pos@[a] as int] == Some(s0[a]),
                forall|q: int| 0 <= q < n && (#[trigger] opt@[q]) is Some ==> exists|a: int| pending@.len() <= a < n && pos@[a] == q,
            decreases pending@.len(),
        {
            let ghost len0 = pending@.len();
            let ghost opt0 = opt@;
            let slot = pending.pop().unwrap();
            let ghost a0 = (len0 - 1) as int;
            proof {
                assert(s0.take(len0 as int)[a0] == s0[a0]);
                assert(pending@ =~= s0.take(a0));
            }
            let j = pos[pending.len()];
            opt.set(j, Some(slot));
            proof {
                assert forall|a: int| a0 <= a < n implies opt@[#[trigger] pos@[a] as int] == Some(s0[a]) by {
                    if a != a0 {
                        assert(pos@[a] != pos@[a0]);
                        assert(opt@[pos@[a] as int] == opt0[pos@[a] as int]);
                    }
                }
                assert forall|q: int| 0 <= q < n && (#[trigger] opt@[q]) is Some implies exists|a: int| a0 <= a < n && pos@[a] == q by {
                    if q == j {
                        assert(pos@[a0] == q);
                    } else {
                        assert(opt@[q] == opt0[q]);
                        let a = choose|a: int| len0 <= a < n && pos@[a] == q;
                        assert(pos@[a] == q);
                    }
                }
            }
        }
        proof {
            assert forall|q: int| 0 <= q < n implies (#[trigger] opt@[q]) is Some by {
                assert(Self::places_keys(indexer, s0));
                assert(Self::position_taken(indexer, s0, q));
                let a = choose|a: int| 0 <= a < s0.len() && #[trigger] Self::placed_at(indexer, s0, a) == q;
                assert(pos@[a] == q);
                assert(opt@[pos@[a] as int] == Some(s0[a]));
            }
        }
        let ghost full = opt@;
        let mut out: Vec<Slot<K, V>> = Vec::new();
        let mut k: usize = 0;
        while k < n
            invariant
                0 <= k <= n,
                opt@.len() == n,
                full.len() == n,
                out@.len() == k,
                forall|q: int| k <= q < n ==> #[trigger] opt@[q] == full[q],
                forall|q: int| 0 <= q < n ==> (#[trigger] full[q]) is Some,
                forall|q: int| 0 <= q < k ==> #[trigger] out@[q] == full[q]->Some_0,
            decreases n - k,
        {
            let o = opt[k].take();
            match o {
                Some(slot) => {
                    out.push(slot);
                },
                None => {
                    proof {
                        assert(full[k as int] is Some);
                        assert(false);
                    }
                },
            }
            k = k + 1;
        }
        proof {
            assert forall|a: int| 0 <= a < s0.len() implies out@[#[trigger] Self::placed_at(indexer, s0, a)] == s0[a] by {
                assert(pos@[a] == Self::placed_at(indexer, s0, a));
                assert(full[pos@[a] as int] == Some(s0[a]));
            }
        }
        MPHIndex { slots: out, indexer, _pd: PhantomData }
    }

    /// Create an index from slots already stored at their keys' positions.
    pub(crate) fn from_placed_slots(slots: Vec<Slot<K, V>>, indexer: I) -> (r: Self)
        ensures
            r.slots == slots,
            r.indexer == indexer,
    {
        MPHIndex { slots, indexer, _pd: PhantomData }
    }

    /// Get value by key.
    pub fn get<'a>(&'a self, key: &K) -> (r: Option<&'a V>)
        requires
            self.indexer.indexer_valid(),
        ensures
            r is Some <==> self.lookup(key.key_bytes(), key_hash(*key)) is Some,
            r matches Some(v) ==> Some(*v) == self.lookup(key.key_bytes(), key_hash(*key)),
    {
        let h = hash64(key);
        self.get_with_hash(key, h)
    }

    /// Get value by key with pre-computed hash (avoids redundant hashing).
    /// A slot answers only when its stored 64-bit hash equals `hash`.
    pub fn get_with_hash<'a>(&'a self, key: &K, hash: u64) -> (r: Option<&'a V>)
        requires
            self.indexer.indexer_valid(),
        ensures
            r is Some <==> self.lookup(key.key_bytes(), hash) is Some,
            r matches Some(v) ==> Some(*v) == self.lookup(key.key_bytes(), hash),
    {
        let idx = self.indexer.eval(key);
        if idx >= self.slots.len() {
            return None;
        }
        let slot = &self.slots[idx];
        if slot.hash64 != hash {
            return None;
        }
        Some(&slot.value)
    }

    /// All values, in slot order.
    pub fn iter<'a>(&'a self) -> (r: Vec<&'a V>)
        ensures
            r@.len() == self.slots@.len(),
            forall|i: int| 0 <= i < r@.len() ==> *r@[i] == self.slots@[i].value,
    {
        let mut out: Vec<&'a V> = Vec::new();
        let mut i: usize = 0;
        while i < self.slots.len()
            invariant
                0 <= i <= self.slots@.len(),
                out@.len() == i,
                forall|j: int| 0 <= j < i ==> *out@[j] == self.slots@[j].value,
            decreases self.slots@.len() - i,
        {
            out.push(&self.slots[i].value);
            i = i + 1;
        }
        out
    }

    /// Number of slots in the index.
    pub fn len(&self) -> (r: usize)
        ensures
            r == self.slots@.len(),
    {
        self.slots.len()
    }

    /// Whether the index has no slots.
    pub fn is_empty(&self) -> (r: bool)
        ensures
            r == (self.slots@.len() == 0),
    {
        self.slots.len() == 0
    }

    /// The indexer.
    pub fn indexer(&self) -> (r: &I)
        ensures
            *r == self.indexer,
    {
        &self.indexer
    }

    /// The slots.
    pub fn slots(&self) -> (r: &[Slot<K, V>])
        ensures
            r@ == self.slots@,
    {
        self.slots.as_slice()
    }
}

} // verus!
