//! Bounded single-producer single-consumer ring.
//!
//! The ring keeps its items in a power-of-two number of slots. It can be used
//! directly (`push` / `pop`), or through a producer handle and a consumer
//! handle that publish their progress to the ring in batches of `B` items.
//! Items pushed through the producer become visible to the consumer only once
//! published; slots popped through the consumer are given back to the
//! producer only once published.
use vstd::prelude::*;
use vstd::arithmetic::div_mod::{
    lemma_add_mod_noop, lemma_mod_twice, lemma_small_mod, lemma_mod_equivalence,
};
use crate::pow2::{is_pow2, lemma_pow2_mask, next_power_of_two, lemma_two_is_pow2, lemma_pow2_half_word};

verus! {

/// `(a % m + b) % m == (a + b) % m`.
proof fn lemma_mod_shift(a: int, b: int, m: int)
    requires
        m > 0,
    ensures
        ((a % m) + b) % m == (a + b) % m,
{
    lemma_add_mod_noop(a, b, m);
    lemma_add_mod_noop(a % m, b, m);
    lemma_mod_twice(a, m);
}

/// Distinct offsets below `m` from one start land in distinct slots.
proof fn lemma_mod_distinct(s: int, i: int, j: int, m: int)
    requires
        0 <= i < j < m,
    ensures
        (s + i) % m != (s + j) % m,
{
    lemma_mod_equivalence(s + j, s + i, m);
    lemma_small_mod((j - i) as nat, m as nat);
    assert((s + j) - (s + i) == j - i);
}

/// Bounded single-producer single-consumer ring buffer.
pub struct SpscRing<T> {
    capacity: usize,
    mask: usize,
    buffer: Vec<Option<T>>,
    /// Slot of the oldest item not yet released by the consumer.
    tail: usize,
    /// Number of published items from `tail` on.
    len: usize,
    /// Items in the ring, oldest first: published and not yet taken, then
    /// written by the producer and not yet published.
    items: Ghost<Seq<T>>,
    /// Items taken by the consumer and not yet released to the producer.
    pending_reads: Ghost<nat>,
    /// Items written by the producer and not yet published.
    pending_writes: Ghost<nat>,
}

/// Producer handle: publishes its writes to the ring every `B` items.
pub struct SpscProducer<T, const B: usize> {
    local_head: usize,
    pending: usize,
    _items: core::marker::PhantomData<T>,
}

/// Consumer handle: releases its reads to the ring every `B` items.
pub struct SpscConsumer<T, const B: usize> {
    local_tail: usize,
    observed: usize,
    pending: usize,
    _items: core::marker::PhantomData<T>,
}

impl<T> View for SpscRing<T> {
    type V = Seq<T>;

    /// Items in the ring, oldest first (including writes not yet published).
    closed spec fn view(&self) -> Seq<T> {
        self.items@
    }
}

impl<T> SpscRing<T> {
    /// Number of slots.
    pub closed spec fn cap(&self) -> nat {
        self.capacity as nat
    }

    /// Published items not yet released by the consumer (the distance from
    /// the published tail to the published head).
    pub closed spec fn published_len(&self) -> nat {
        self.len as nat
    }

    /// Items taken by the consumer and not yet released.
    pub closed spec fn pending_reads(&self) -> nat {
        self.pending_reads@
    }

    /// Items written by the producer and not yet published.
    pub closed spec fn pending_writes(&self) -> nat {
        self.pending_writes@
    }

    /// Slot of the next write.
    pub closed spec fn write_slot(&self) -> int {
        (self.tail + self.len + self.pending_writes@) % (self.capacity as int)
    }

    /// Slot of the next read.
    pub closed spec fn read_slot(&self) -> int {
        (self.tail + self.pending_reads@) % (self.capacity as int)
    }

    /// No handle has unpublished work.
    pub open spec fn quiescent(&self) -> bool {
        self.pending_reads() == 0 && self.pending_writes() == 0
    }

    /// Slots taken from the producer's point of view.
    pub open spec fn occupied(&self) -> nat {
        self.published_len() + self.pending_writes()
    }

    /// Items the consumer may take.
    pub open spec fn visible_len(&self) -> int {
        self.published_len() - self.pending_reads()
    }

    /// Well formed: power-of-two slots, counters in range, and each item in
    /// the slot after the one before it.
    pub closed spec fn wf(&self) -> bool {
        &&& is_pow2(self.capacity)
        &&& self.capacity >= 2
        &&& 2 * self.capacity <= usize::MAX + 1
        &&& self.mask + 1 == self.capacity
        &&& forall|x: usize| #[trigger] (x & self.mask) == x % self.capacity
        &&& self.buffer@.len() == self.capacity
        &&& self.tail < self.capacity
        &&& self.len <= self.capacity
        &&& self.pending_reads@ <= self.len
        &&& self.len + self.pending_writes@ <= self.capacity
        &&& self.items@.len() == self.len - self.pending_reads@ + self.pending_writes@
        &&& forall|i: int| 0 <= i < self.items@.len() ==>
            #[trigger] self.buffer@[(self.tail + self.pending_reads@ + i) % (self.capacity as int)]
                == Some(self.items@[i])
    }

    /// Shape facts of a well-formed ring.
    pub proof fn lemma_wf(&self)
        requires
            self.wf(),
        ensures
            self.cap() >= 2,
            is_pow2(self.cap() as usize),
            self@.len() == self.visible_len() + self.pending_writes(),
            self.visible_len() >= 0,
            self.occupied() <= self.cap(),
            0 <= self.read_slot() < self.cap(),
            0 <= self.write_slot() < self.cap(),
    {
    }

    /// Create a ring with room for `capacity` items, rounded up to a power of
    /// two and to at least two.
    pub fn with_capacity_pow2(capacity: usize) -> (r: Self)
        requires
            capacity <= usize::MAX / 2 + 1,
        ensures
            r.wf(),
            r.quiescent(),
            r@ == Seq::<T>::empty(),
            r.published_len() == 0,
            is_pow2(r.cap() as usize),
            r.cap() >= 2,
            r.cap() >= capacity,
            r.cap() == 2 || r.cap() / 2 < capacity,
    {
        proof {
            crate::pow2::lemma_top_pow2();
        }
        let p = next_power_of_two(capacity);
        let cap: usize = if p < 2 { 2 } else { p };
        proof {
            if p < 2 {
                lemma_two_is_pow2();
            }
            lemma_pow2_mask(cap);
            lemma_pow2_half_word(cap);
        }
        let mut buffer: Vec<Option<T>> = Vec::new();
        let mut i: usize = 0;
        while i < cap
            invariant
                i <= cap,
                buffer@.len() == i,
            decreases cap - i,
        {
            buffer.push(None);
            i = i + 1;
        }
        SpscRing {
            capacity: cap,
            mask: cap - 1,
            buffer,
            tail: 0,
            len: 0,
            items: Ghost(Seq::empty()),
            pending_reads: Ghost(0),
            pending_writes: Ghost(0),
        }
    }

    /// Number of slots.
    pub fn capacity(&self) -> (r: usize)
        ensures
            r == self.cap(),
    {
        self.capacity
    }

    /// Try to push an item; hands it back when the ring is full.
    pub fn push(&mut self, item: T) -> (r: Result<(), T>)
        requires
            old(self).wf(),
            old(self).quiescent(),
        ensures
            final(self).wf(),
            final(self).quiescent(),
            final(self).cap() == old(self).cap(),
            r is Err <==> old(self)@.len() == old(self).cap(),
            r is Err ==> r == Err::<(), T>(item) && final(self)@ == old(self)@,
            r is Ok ==> final(self)@ == old(self)@.push(item),
            final(self).published_len() == final(self)@.len(),
    {
        if self.len == self.capacity {
            return Err(item);
        }
        let idx = (self.tail + self.len) & self.mask;
        let ghost old_items = self.items@;
        proof {
            assert forall|i: int| 0 <= i < old_items.len() implies
                (self.tail + i) % (self.capacity as int) != idx as int
                && self.buffer@[(self.tail + i) % (self.capacity as int)] == Some(#[trigger] old_items[i]) by {
                lemma_mod_distinct(self.tail as int, i, self.len as int, self.capacity as int);
                assert(self.tail + 0 + i == self.tail + i);
            }
        }
        self.buffer.set(idx, Some(item));
        self.len = self.len + 1;
        proof {
            self.items@ = old_items.push(item);
        }
        Ok(())
    }

    /// Try to pop the oldest item; `None` when the ring is empty.
    pub fn pop(&mut self) -> (r: Option<T>)
        requires
            old(self).wf(),
            old(self).quiescent(),
        ensures
            final(self).wf(),
            final(self).quiescent(),
            final(self).cap() == old(self).cap(),
            r is None <==> old(self)@.len() == 0,
            r is None ==> final(self)@ == old(self)@,
            r is Some ==> r == Some(old(self)@[0]) && final(self)@ == old(self)@.drop_first(),
            final(self).published_len() == final(self)@.len(),
    {
        if self.len == 0 {
            return None;
        }
        let idx = self.tail;
        let ghost old_items = self.items@;
        let ghost cap = self.capacity as int;
        proof {
            lemma_small_mod(self.tail as nat, cap as nat);
            assert(self.buffer@[(self.tail + 0) % cap] == Some(old_items[0]));
        }
        let v = self.buffer[idx].take();
        let next = (self.tail + 1) & self.mask;
        self.tail = next;
        self.len = self.len - 1;
        proof {
            self.items@ = old_items.drop_first();
            assert forall|i: int| 0 <= i < self.items@.len() implies
                #[trigger] self.buffer@[(self.tail + i) % cap] == Some(self.items@[i]) by {
                lemma_mod_shift(idx + 1, i, cap);
                assert(self.tail as int == (idx + 1) % cap);
                assert((self.tail + i) % cap == (idx + (i + 1)) % cap);
                lemma_mod_distinct(idx as int, 0, i + 1, cap);
                assert(old_items[i + 1] == self.items@[i]);
            }
        }
        v
    }

    /// Whether the published items fill every slot.
    pub fn is_full(&self) -> (r: bool)
        requires
            self.wf(),
        ensures
            r == (self.published_len() == self.cap()),
    {
        self.len == self.capacity
    }

    /// Whether no published item is left.
    pub fn is_empty(&self) -> (r: bool)
        requires
            self.wf(),
        ensures
            r == (self.published_len() == 0),
    {
        self.len == 0
    }

    /// Create a producer and a consumer handle on a ring with no unpublished
    /// work, each publishing every `B` items.
    pub fn split_batched_owned<const B: usize>(ring: &SpscRing<T>) -> (r: (SpscProducer<T, B>, SpscConsumer<T, B>))
        requires
            ring.wf(),
            ring.quiescent(),
        ensures
            r.0.linked(ring),
            r.1.linked(ring),
            r.0.pending_view() == 0,
            r.1.pending_view() == 0,
    {
        let head = (ring.tail + ring.len) & ring.mask;
        proof {
            lemma_small_mod(ring.tail as nat, ring.capacity as nat);
        }
        (
            SpscProducer { local_head: head, pending: 0, _items: core::marker::PhantomData },
            SpscConsumer { local_tail: ring.tail, observed: ring.len, pending: 0, _items: core::marker::PhantomData },
        )
    }
}

impl<T, const B: usize> SpscProducer<T, B> {
    /// Slot of the next write.
    pub closed spec fn head_slot(&self) -> int {
        self.local_head as int
    }

    /// Writes not yet published.
    pub closed spec fn pending_view(&self) -> nat {
        self.pending as nat
    }

    /// This handle is the ring's producer.
    pub open spec fn linked(&self, ring: &SpscRing<T>) -> bool {
        &&& ring.wf()
        &&& self.head_slot() == ring.write_slot()
        &&& self.pending_view() == ring.pending_writes()
    }

    /// Push an item; hands it back when every slot is taken (slots popped by
    /// the consumer count as taken until it publishes them). Publishes when
    /// `B` writes are pending.
    pub fn push(&mut self, ring: &mut SpscRing<T>, item: T) -> (r: Result<(), T>)
        requires
            old(self).linked(old(ring)),
        ensures
            final(self).linked(final(ring)),
            final(ring).cap() == old(ring).cap(),
            final(ring).read_slot() == old(ring).read_slot(),
            final(ring).pending_reads() == old(ring).pending_reads(),
            r is Err <==> old(ring).occupied() == old(ring).cap(),
            r is Err ==> r == Err::<(), T>(item) && final(ring)@ == old(ring)@
                && final(ring).published_len() == old(ring).published_len()
                && final(ring).pending_writes() == old(ring).pending_writes(),
            r is Ok ==> final(ring)@ == old(ring)@.push(item),
            r is Ok && old(self).pending_view() + 1 >= B ==> final(ring).published_len()
                == old(ring).published_len() + old(ring).pending_writes() + 1
                && final(ring).pending_writes() == 0,
            r is Ok && old(self).pending_view() + 1 < B ==> final(ring).published_len()
                == old(ring).published_len()
                && final(ring).pending_writes() == old(ring).pending_writes() + 1,
    {
        if ring.len + self.pending == ring.capacity {
            return Err(item);
        }
        let idx = self.local_head;
        let ghost old_items = ring.items@;
        let ghost cap = ring.capacity as int;
        let ghost start = ring.tail + ring.pending_reads@;
        proof {
            let n = old_items.len() as int;
            assert(ring.tail + ring.len + ring.pending_writes@ == start + n);
            assert forall|i: int| 0 <= i < n implies (start + i) % cap != idx as int
                && ring.buffer@[(start + i) % cap] == Some(#[trigger] old_items[i]) by {
                lemma_mod_distinct(start, i, n, cap);
            }
        }
        ring.buffer.set(idx, Some(item));
        proof {
            ring.items@ = old_items.push(item);
            ring.pending_writes@ = ring.pending_writes@ + 1;
            lemma_small_mod(idx as nat, cap as nat);
            lemma_mod_shift(start + old_items.len(), 1, cap);
        }
        self.local_head = (self.local_head + 1) & ring.mask;
        self.pending = self.pending + 1;
        if self.pending >= B {
            ring.len = ring.len + self.pending;
            self.pending = 0;
            proof {
                ring.pending_writes@ = 0;
            }
        }
        Ok(())
    }

    /// Publish the pending writes.
    pub fn flush(&mut self, ring: &mut SpscRing<T>)
        requires
            old(self).linked(old(ring)),
        ensures
            final(self).linked(final(ring)),
            final(ring)@ == old(ring)@,
            final(ring).cap() == old(ring).cap(),
            final(ring).read_slot() == old(ring).read_slot(),
            final(ring).pending_reads() == old(ring).pending_reads(),
            final(ring).published_len() == old(ring).published_len() + old(ring).pending_writes(),
            final(ring).pending_writes() == 0,
    {
        if self.pending > 0 {
            ring.len = ring.len + self.pending;
            self.pending = 0;
            proof {
                ring.pending_writes@ = 0;
            }
        }
    }
}

impl<T, const B: usize> SpscConsumer<T, B> {
    /// Slot of the next read.
    pub closed spec fn tail_slot(&self) -> int {
        self.local_tail as int
    }

    /// Reads not yet released.
    pub closed spec fn pending_view(&self) -> nat {
        self.pending as nat
    }

    /// Published items counted at the last look at the ring.
    pub closed spec fn observed_view(&self) -> nat {
        self.observed as nat
    }

    /// This handle is the ring's consumer.
    pub open spec fn linked(&self, ring: &SpscRing<T>) -> bool {
        &&& ring.wf()
        &&& self.tail_slot() == ring.read_slot()
        &&& self.pending_view() == ring.pending_reads()
        &&& self.pending_view() <= self.observed_view() <= ring.published_len()
    }

    /// Pop the oldest published item; `None` when none is left. Releases the
    /// slots when `B` reads are pending.
    pub fn pop(&mut self, ring: &mut SpscRing<T>) -> (r: Option<T>)
        requires
            old(self).linked(old(ring)),
        ensures
            final(self).linked(final(ring)),
            final(ring).cap() == old(ring).cap(),
            final(ring).write_slot() == old(ring).write_slot(),
            final(ring).pending_writes() == old(ring).pending_writes(),
            r is None <==> old(ring).visible_len() == 0,
            r is None ==> final(ring)@ == old(ring)@ && final(ring).occupied() == old(ring).occupied(),
            r is None ==> final(ring).pending_reads() == old(ring).pending_reads() && *final(ring) == *old(ring),
            r is Some ==> r == Some(old(ring)@[0]) && final(ring)@ == old(ring)@.drop_first(),
            r is Some && old(self).pending_view() + 1 >= B ==> final(ring).occupied()
                == old(ring).occupied() - old(ring).pending_reads() - 1
                && final(ring).pending_reads() == 0,
            r is Some && old(self).pending_view() + 1 < B ==> final(ring).occupied()
                == old(ring).occupied()
                && final(ring).pending_reads() == old(ring).pending_reads() + 1,
    {
        if self.pending == self.observed {
            self.observed = ring.len;
            if self.pending == self.observed {
                return None;
            }
        }
        let idx = self.local_tail;
        let ghost old_items = ring.items@;
        let ghost cap = ring.capacity as int;
        let ghost start = ring.tail + ring.pending_reads@;
        proof {
            lemma_small_mod(idx as nat, cap as nat);
            assert(ring.buffer@[(start + 0) % cap] == Some(old_items[0]));
        }
        let v = ring.buffer[idx].take();
        proof {
            ring.items@ = old_items.drop_first();
            ring.pending_reads@ = ring.pending_reads@ + 1;
            assert forall|i: int| 0 <= i < ring.items@.len() implies
                #[trigger] ring.buffer@[(ring.tail + ring.pending_reads@ + i) % cap] == Some(ring.items@[i]) by {
                assert(ring.tail + ring.pending_reads@ + i == start + (i + 1));
                lemma_mod_distinct(start, 0, i + 1, cap);
                assert(old_items[i + 1] == ring.items@[i]);
            }
            lemma_mod_shift(start, 1, cap);
        }
        self.local_tail = (self.local_tail + 1) & ring.mask;
        self.pending = self.pending + 1;
        if self.pending >= B {
            let ghost t0 = ring.tail as int;
            let ghost l0 = ring.len as int;
            ring.tail = (ring.tail + self.pending) & ring.mask;
            ring.len = ring.len - self.pending;
            self.observed = self.observed - self.pending;
            self.pending = 0;
            proof {
                ring.pending_reads@ = 0;
                assert(ring.tail as int == (start + 1) % cap);
                lemma_mod_shift(start + 1, ring.len + ring.pending_writes@, cap);
                lemma_mod_twice(start + 1, cap);
                assert forall|i: int| 0 <= i < ring.items@.len() implies
                    #[trigger] ring.buffer@[(ring.tail + ring.pending_reads@ + i) % cap] == Some(ring.items@[i]) by {
                    lemma_mod_shift(start + 1, i, cap);
                    assert(ring.buffer@[(start + 1 + i) % cap] == Some(ring.items@[i]));
                }
            }
        }
        v
    }

    /// Release the pending reads to the producer.
    pub fn flush(&mut self, ring: &mut SpscRing<T>)
        requires
            old(self).linked(old(ring)),
        ensures
            final(self).linked(final(ring)),
            final(ring)@ == old(ring)@,
            final(ring).cap() == old(ring).cap(),
            final(ring).write_slot() == old(ring).write_slot(),
            final(ring).pending_writes() == old(ring).pending_writes(),
            final(ring).occupied() == old(ring).occupied() - old(ring).pending_reads(),
            final(ring).pending_reads() == 0,
    {
        if self.pending > 0 {
            let ghost t0 = ring.tail as int;
            let ghost cap = ring.capacity as int;
            let ghost k = ring.pending_reads@ as int;
            ring.tail = (ring.tail + self.pending) & ring.mask;
            ring.len = ring.len - self.pending;
            self.observed = self.observed - self.pending;
            self.pending = 0;
            proof {
                ring.pending_reads@ = 0;
                assert(ring.tail as int == (t0 + k) % cap);
                assert forall|i: int| 0 <= i < ring.items@.len() implies
                    #[trigger] ring.buffer@[(ring.tail + ring.pending_reads@ + i) % cap] == Some(ring.items@[i]) by {
                    lemma_mod_shift(t0 + k, i, cap);
                    assert(ring.buffer@[(t0 + k + i) % cap] == Some(ring.items@[i]));
                }
                lemma_mod_shift(t0 + k, ring.len + ring.pending_writes@, cap);
                lemma_mod_twice(t0 + k, cap);
            }
        }
    }
}

} // verus!
