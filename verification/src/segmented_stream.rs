//! Append-only segmented stream of items stored in fixed-size pages.
//!
//! Pages are linked in the order they are created; an append goes to the
//! first page of the chain that still has room, pre-linking a fresh page
//! once the page it writes to is half full.
use vstd::prelude::*;
use crate::pow2::{is_pow2, lemma_pow2_mask};

verus! {

/// Default number of entries per page.
pub const DEFAULT_PAGE_SIZE: usize = 16 * 1024 * 1024;

/// One page of the stream.
pub struct Page<T> {
    /// Sequence number of this page.
    page_seq: u64,
    /// Number of slots claimed by appenders (at least `committed`).
    claimed: u32,
    /// Number of initialized entries visible to readers.
    committed: u32,
    /// Link to the next page of the chain.
    next: Option<usize>,
    /// Capacity of the page.
    size: usize,
    /// The committed entries.
    entries: Vec<T>,
}

impl<T> Page<T> {
    /// The page's committed entries.
    pub closed spec fn entries_view(&self) -> Seq<T> {
        self.entries@
    }

    /// The page's capacity.
    pub closed spec fn capacity(&self) -> nat {
        self.size as nat
    }

    /// The page's link.
    pub closed spec fn link(&self) -> Option<usize> {
        self.next
    }

    /// The page's sequence number.
    pub closed spec fn seq_no(&self) -> u64 {
        self.page_seq
    }

    /// Whether every slot of the page holds an entry.
    pub open spec fn is_full(&self) -> bool {
        self.entries_view().len() == self.capacity()
    }

    /// Bookkeeping consistency: committed entries fit, and slots are claimed
    /// past the committed ones only once the page is full.
    pub closed spec fn wf(&self) -> bool {
        &&& self.committed as nat == self.entries@.len()
        &&& self.entries@.len() <= self.size
        &&& self.claimed >= self.committed
        &&& self.claimed > self.committed ==> self.entries@.len() == self.size
    }

    /// Allocate a new empty page with the specified size and sequence number.
    pub fn new(page_size: usize, page_seq: u64) -> (r: Self)
        ensures
            r.wf(),
            r.entries_view().len() == 0,
            r.capacity() == page_size,
            r.link() is None,
            r.seq_no() == page_seq,
    {
        Page { page_seq, claimed: 0, committed: 0, next: None, size: page_size, entries: Vec::new() }
    }

    /// Reset bookkeeping fields for reuse.
    fn reset_for_reuse(&mut self, new_seq: u64)
        ensures
            final(self).wf(),
            final(self).entries_view().len() == 0,
            final(self).capacity() == old(self).capacity(),
            final(self).link() is None,
            final(self).seq_no() == new_seq,
    {
        self.page_seq = new_seq;
        self.claimed = 0;
        self.committed = 0;
        self.next = None;
        self.entries = Vec::new();
    }

    /// The page size (number of entries).
    pub fn size(&self) -> (r: usize)
        ensures
            r == self.capacity(),
    {
        self.size
    }

    /// Number of slots claimed by appenders.
    pub fn claimed(&self) -> (r: u32)
        requires
            self.wf(),
        ensures
            r >= self.entries_view().len(),
            r > self.entries_view().len() ==> self.is_full(),
    {
        self.claimed
    }

    /// Number of committed entries.
    pub fn committed(&self) -> (r: u32)
        requires
            self.wf(),
        ensures
            r == self.entries_view().len(),
    {
        self.committed
    }

    /// Position of the next page in the stream, if one is linked.
    pub fn next_page(&self) -> (r: Option<usize>)
        ensures
            r == self.link(),
    {
        self.next
    }

    /// Sequence number of this page.
    pub fn page_seq(&self) -> (r: u64)
        ensures
            r == self.seq_no(),
    {
        self.page_seq
    }
}

/// Index into the segmented stream identifying a specific entry: the page's
/// position in the stream and the slot within the page.
#[derive(Clone, Copy, Debug, PartialEq, Eq, Default)]
pub struct StreamIndex {
    /// Position of the page containing the entry.
    pub page: usize,
    /// Slot index within the page.
    pub idx: u32,
}

/// Errors returned by the stream API.
#[derive(Debug)]
pub enum StreamError {
    /// Unexpected allocation failure.
    AllocationFailed,
}

/// Bounded ring whose slots are taken in turn: a push claims the next tail
/// slot and fails if it is occupied; a pop claims the next head slot and
/// finds it empty or not.
pub struct Ring<T> {
    slots: Vec<Option<T>>,
    head: usize,
    tail: usize,
    mask: usize,
    cap: usize,
    count: usize,
}

/// Number of occupied slots.
pub open spec fn occupied<T>(slots: Seq<Option<T>>) -> nat
    decreases slots.len(),
{
    if slots.len() == 0 {
        0
    } else {
        occupied(slots.drop_last()) + if slots.last() is Some { 1nat } else { 0nat }
    }
}

proof fn lemma_occupied_update<T>(slots: Seq<Option<T>>, i: int, v: Option<T>)
    requires
        0 <= i < slots.len(),
    ensures
        occupied(slots.update(i, v)) + (if slots[i] is Some { 1int } else { 0int })
            == occupied(slots) + (if v is Some { 1int } else { 0int }),
    decreases slots.len(),
{
    if i < slots.len() - 1 {
        assert(slots.update(i, v).drop_last() =~= slots.drop_last().update(i, v));
        lemma_occupied_update(slots.drop_last(), i, v);
    } else {
        assert(slots.update(i, v).drop_last() =~= slots.drop_last());
    }
}

proof fn lemma_occupied_bound<T>(slots: Seq<Option<T>>)
    ensures
        occupied(slots) <= slots.len(),
    decreases slots.len(),
{
    if slots.len() > 0 {
        lemma_occupied_bound(slots.drop_last());
    }
}

/// Two positions `i`, `j` in `0..c` after the same start fall on the same
/// slot only when they are equal.
proof fn lemma_mod_inj(h: int, i: int, j: int, c: int)
    requires
        c > 0,
        0 <= h,
        0 <= i < c,
        0 <= j < c,
        (h + i) % c == (h + j) % c,
    ensures
        i == j,
{
    vstd::arithmetic::div_mod::lemma_fundamental_div_mod(h + i, c);
    vstd::arithmetic::div_mod::lemma_fundamental_div_mod(h + j, c);
    let qi = (h + i) / c;
    let qj = (h + j) / c;
    assert(c * (qi - qj) == i - j) by (nonlinear_arith)
        requires
            h + i == c * qi + (h + i) % c,
            h + j == c * qj + (h + j) % c,
            (h + i) % c == (h + j) % c;
    assert(qi == qj) by (nonlinear_arith)
        requires
            c * (qi - qj) == i - j,
            c > 0,
            -c < i - j < c;
}

/// One step further from a start reduced modulo `c`.
proof fn lemma_mod_step(h: int, k: int, c: int)
    requires
        c > 0,
        0 <= h < c,
        0 <= k,
    ensures
        ((h + 1) % c + k) % c == (h + 1 + k) % c,
        ((h + k) % c + 1) % c == (h + k + 1) % c,
{
    assert(((h + 1) % c + k) % c == (h + 1 + k) % c) by {
        vstd::arithmetic::div_mod::lemma_add_mod_noop(h + 1, k, c);
        vstd::arithmetic::div_mod::lemma_add_mod_noop((h + 1) % c, k, c);
        vstd::arithmetic::div_mod::lemma_mod_twice(h + 1, c);
    }
    assert(((h + k) % c + 1) % c == (h + k + 1) % c) by {
        vstd::arithmetic::div_mod::lemma_add_mod_noop(h + k, 1, c);
        vstd::arithmetic::div_mod::lemma_add_mod_noop((h + k) % c, 1, c);
        vstd::arithmetic::div_mod::lemma_mod_twice(h + k, c);
    }
}

impl<T> Ring<T> {
    /// The ring's slots.
    pub closed spec fn slots_view(&self) -> Seq<Option<T>> {
        self.slots@
    }

    /// Slot the next pop reads.
    pub closed spec fn head_pos(&self) -> int {
        self.head as int
    }

    /// Slot the next push writes.
    pub closed spec fn tail_pos(&self) -> int {
        self.tail as int
    }

    /// Capacity.
    pub closed spec fn cap_view(&self) -> nat {
        self.cap as nat
    }

    /// The slot `i` places after the head.
    pub open spec fn slot_after_head(&self, i: int) -> int {
        (self.head_pos() + i) % (self.cap_view() as int)
    }

    /// Number of occupied slots.
    pub open spec fn len_view(&self) -> nat {
        occupied(self.slots_view())
    }

    /// The queued items, oldest first: the occupied slots from the head on.
    pub open spec fn queue(&self) -> Seq<T> {
        Seq::new(self.len_view(), |i: int| self.slots_view()[self.slot_after_head(i)]->Some_0)
    }

    /// Shape facts of a well-formed ring: `cap` slots, of which exactly the
    /// `len` from the head on are occupied, the tail just after them.
    pub proof fn lemma_wf_slots(&self)
        requires
            self.wf(),
        ensures
            self.cap_view() > 0,
            self.slots_view().len() == self.cap_view(),
            self.len_view() <= self.cap_view(),
            0 <= self.head_pos() < self.cap_view(),
            0 <= self.tail_pos() < self.cap_view(),
            self.tail_pos() == self.slot_after_head(self.len_view() as int),
            forall|i: int| 0 <= i < self.cap_view() ==> 0 <= #[trigger] self.slot_after_head(i) < self.cap_view(),
            forall|i: int| 0 <= i < self.cap_view() ==> (self.slots_view()[#[trigger] self.slot_after_head(i)] is Some <==> i < self.len_view()),
    {
        lemma_occupied_bound(self.slots@);
        assert forall|i: int| 0 <= i < self.cap_view() implies 0 <= #[trigger] self.slot_after_head(i) < self.cap_view() by {
            vstd::arithmetic::div_mod::lemma_mod_bound(self.head as int + i, self.cap as int);
        }
    }

    /// Well formed: power-of-two capacity and mask; the occupied slots are
    /// exactly the `count` slots from the head on, and the tail follows them.
    pub closed spec fn wf(&self) -> bool {
        &&& self.cap > 0
        &&& self.slots@.len() == self.cap
        &&& self.mask + 1 == self.cap
        &&& forall|x: usize| #[trigger] (x & self.mask) == x % self.cap
        &&& self.count == occupied(self.slots@)
        &&& self.head < self.cap
        &&& self.tail < self.cap
        &&& self.tail as int == (self.head + self.count) % (self.cap as int)
        &&& forall|i: int| 0 <= i < self.cap ==> (#[trigger] self.slots@[(self.head + i) % (self.cap as int)] is Some <==> i < self.count)
    }

    /// Create a ring with `capacity` empty slots.
    pub fn new(capacity: usize) -> (r: Self)
        requires
            is_pow2(capacity),
        ensures
            r.wf(),
            r.cap_view() == capacity,
            r.slots_view().len() == capacity,
            r.head_pos() == 0,
            r.tail_pos() == 0,
            r.len_view() == 0,
            r.queue() == Seq::<T>::empty(),
            forall|i: int| 0 <= i < capacity ==> r.slots_view()[i] is None,
    {
        proof {
            lemma_pow2_mask(capacity);
        }
        let mut slots: Vec<Option<T>> = Vec::new();
        let mut i: usize = 0;
        while i < capacity
            invariant
                0 <= i <= capacity,
                slots@.len() == i,
                forall|j: int| 0 <= j < i ==> slots@[j] is None,
                occupied(slots@) == 0,
            decreases capacity - i,
        {
            proof {
                assert(slots@.push(None).drop_last() =~= slots@);
            }
            slots.push(None);
            i = i + 1;
        }
        let r = Ring { slots, head: 0, tail: 0, mask: capacity - 1, cap: capacity, count: 0 };
        proof {
            assert forall|i: int| 0 <= i < capacity implies (#[trigger] r.slots@[(0 + i) % (capacity as int)] is Some <==> i < 0) by {
                vstd::arithmetic::div_mod::lemma_small_mod(i as nat, capacity as nat);
            }
            assert(r.queue() =~= Seq::<T>::empty());
        }
        r
    }

    /// Push an item at the tail: `false` (dropping the item, changing
    /// nothing) when the ring is full.
    pub fn push(&mut self, item: T) -> (ok: bool)
        requires
            old(self).wf(),
        ensures
            final(self).wf(),
            final(self).cap_view() == old(self).cap_view(),
            ok == (old(self).len_view() < old(self).cap_view()),
            !ok ==> *final(self) == *old(self),
            ok ==> final(self).queue() == old(self).queue().push(item),
            ok ==> final(self).head_pos() == old(self).head_pos(),
            ok ==> final(self).slots_view() == old(self).slots_view().update(old(self).tail_pos(), Some(item)),
            ok ==> final(self).len_view() == old(self).len_view() + 1,
    {
        proof {
            self.lemma_wf_slots();
        }
        let tail = self.tail;
        let ghost c = self.cap as int;
        let ghost h = self.head as int;
        let ghost n = self.count as int;
        proof {
            if n < c {
                assert(!(self.slots@[(h + n) % c] is Some));
            } else {
                vstd::arithmetic::div_mod::lemma_small_mod(h as nat, c as nat);
                assert(self.slots@[(h + 0) % c] is Some);
            }
        }
        if self.slots[tail].is_none() {
            let ghost old_ring = *self;
            proof {
                lemma_occupied_update(self.slots@, tail as int, Some(item));
                lemma_occupied_bound(self.slots@.update(tail as int, Some(item)));
            }
            self.slots.set(tail, Some(item));
            self.tail = (tail + 1) & self.mask;
            self.count = self.count + 1;
            proof {
                lemma_mod_step(h, n, c);
                assert forall|i: int| 0 <= i < c implies (#[trigger] self.slots@[(h + i) % c] is Some <==> i < n + 1) by {
                    vstd::arithmetic::div_mod::lemma_mod_bound(h + i, c);
                    if (h + i) % c == tail as int {
                        lemma_mod_inj(h, i, n, c);
                    } else {
                        assert(self.slots@[(h + i) % c] == old_ring.slots@[(h + i) % c]);
                        if i == n {
                            assert(false);
                        }
                    }
                }
                assert forall|i: int| 0 <= i < n + 1 implies #[trigger] self.queue()[i] == old_ring.queue().push(item)[i] by {
                    vstd::arithmetic::div_mod::lemma_mod_bound(h + i, c);
                    if i < n {
                        if (h + i) % c == tail as int {
                            lemma_mod_inj(h, i, n, c);
                        }
                    }
                }
                assert(self.queue() =~= old_ring.queue().push(item));
            }
            true
        } else {
            false
        }
    }

    /// Pop the item at the head, if any; an empty ring is left unchanged.
    pub fn pop(&mut self) -> (r: Option<T>)
        requires
            old(self).wf(),
        ensures
            final(self).wf(),
            final(self).cap_view() == old(self).cap_view(),
            r == (if old(self).len_view() > 0 { Some(old(self).queue()[0]) } else { None::<T> }),
            r == old(self).slots_view()[old(self).head_pos()],
            r is None ==> *final(self) == *old(self),
            r is Some ==> final(self).queue() == old(self).queue().drop_first(),
            r is Some ==> final(self).tail_pos() == old(self).tail_pos(),
            r is Some ==> final(self).slots_view() == old(self).slots_view().update(old(self).head_pos(), None),
            r is Some ==> final(self).len_view() + 1 == old(self).len_view(),
    {
        proof {
            self.lemma_wf_slots();
        }
        let head = self.head;
        let ghost c = self.cap as int;
        let ghost h = self.head as int;
        let ghost n = self.count as int;
        proof {
            vstd::arithmetic::div_mod::lemma_small_mod(h as nat, c as nat);
            assert(self.slots@[(h + 0) % c] is Some <==> 0 < n);
        }
        if self.slots[head].is_some() {
            let ghost old_ring = *self;
            let cur = self.slots[head].take();
            proof {
                lemma_occupied_update(old_ring.slots@, head as int, None);
            }
            self.head = (head + 1) & self.mask;
            self.count = self.count - 1;
            proof {
                let h2 = self.head as int;
                assert(h2 == (h + 1) % c);
                lemma_mod_step(h, n - 1, c);
                assert forall|i: int| 0 <= i < c implies (#[trigger] self.slots@[(h2 + i) % c] is Some <==> i < n - 1) by {
                    lemma_mod_step(h, i, c);
                    vstd::arithmetic::div_mod::lemma_mod_bound(h + 1 + i, c);
                    if i == c - 1 {
                        vstd::arithmetic::div_mod::lemma_mod_self_0(c);
                        assert((h + 1 + i) % c == h) by {
                            vstd::arithmetic::div_mod::lemma_mod_multiples_vanish(1, h, c);
                            vstd::arithmetic::div_mod::lemma_small_mod(h as nat, c as nat);
                        }
                    } else {
                        if (h + 1 + i) % c == h {
                            vstd::arithmetic::div_mod::lemma_small_mod(h as nat, c as nat);
                            lemma_mod_inj(h, i + 1, 0, c);
                        }
                        assert(self.slots@[(h + 1 + i) % c] == old_ring.slots@[(h + (i + 1)) % c]);
                    }
                }
                assert forall|i: int| 0 <= i < n - 1 implies #[trigger] self.queue()[i] == old_ring.queue().drop_first()[i] by {
                    lemma_mod_step(h, i, c);
                    vstd::arithmetic::div_mod::lemma_mod_bound(h + 1 + i, c);
                    if (h + 1 + i) % c == h {
                        vstd::arithmetic::div_mod::lemma_small_mod(h as nat, c as nat);
                        lemma_mod_inj(h, i + 1, 0, c);
                    }
                    assert(self.slots@[(h + 1 + i) % c] == old_ring.slots@[(h + (i + 1)) % c]);
                }
                assert(self.queue() =~= old_ring.queue().drop_first());
            }
            cur
        } else {
            None
        }
    }

    /// Number of occupied slots.
    pub fn len(&self) -> (r: usize)
        requires
            self.wf(),
        ensures
            r == occupied(self.slots_view()),
    {
        self.count
    }

    /// Capacity.
    pub fn capacity(&self) -> (r: usize)
        ensures
            r == self.cap_view(),
    {
        self.cap
    }
}


/// The entries of a sequence of pages, page after page.
pub open spec fn flat<T>(pages: Seq<Page<T>>) -> Seq<T>
    decreases pages.len(),
{
    if pages.len() == 0 {
        Seq::empty()
    } else {
        flat(pages.drop_last()) + pages.last().entries_view()
    }
}

proof fn lemma_flat_append_at<T>(s: Seq<Page<T>>, p: int, pg: Page<T>, x: T)
    requires
        0 <= p < s.len(),
        pg.entries_view() == s[p].entries_view().push(x),
        forall|q: int| p < q < s.len() ==> (#[trigger] s[q]).entries_view().len() == 0,
    ensures
        flat(s.update(p, pg)) == flat(s).push(x),
    decreases s.len(),
{
    let t = s.update(p, pg);
    if p == s.len() - 1 {
        assert(t.drop_last() =~= s.drop_last());
    } else {
        assert(t.drop_last() =~= s.drop_last().update(p, pg));
        assert(s.last().entries_view().len() == 0);
        lemma_flat_append_at(s.drop_last(), p, pg, x);
        assert(flat(s) =~= flat(s.drop_last()));
        assert(flat(t) =~= flat(t.drop_last()));
    }
}

proof fn lemma_flat_same_entries<T>(s: Seq<Page<T>>, t: Seq<Page<T>>)
    requires
        s.len() == t.len(),
        forall|q: int| 0 <= q < s.len() ==> (#[trigger] s[q]).entries_view() == t[q].entries_view(),
    ensures
        flat(s) == flat(t),
    decreases s.len(),
{
    if s.len() > 0 {
        lemma_flat_same_entries(s.drop_last(), t.drop_last());
    }
}

proof fn lemma_flat_push_empty<T>(s: Seq<Page<T>>, pg: Page<T>)
    requires
        pg.entries_view().len() == 0,
    ensures
        flat(s.push(pg)) == flat(s),
{
    assert(s.push(pg).drop_last() =~= s);
    assert(flat(s.push(pg)) =~= flat(s));
}

proof fn lemma_flat_take_step<T>(s: Seq<Page<T>>, p: int)
    requires
        0 <= p < s.len(),
    ensures
        flat(s.take(p + 1)) == flat(s.take(p)) + s[p].entries_view(),
{
    assert(s.take(p + 1).drop_last() =~= s.take(p));
}

proof fn lemma_flat_prefix<T>(s: Seq<Page<T>>, q: int)
    requires
        0 <= q <= s.len(),
    ensures
        flat(s.take(q)).len() <= flat(s).len(),
        forall|i: int| 0 <= i < flat(s.take(q)).len() ==> #[trigger] flat(s.take(q))[i] == flat(s)[i],
    decreases s.len(),
{
    if q == s.len() {
        assert(s.take(q) =~= s);
    } else {
        assert(s.drop_last().take(q) =~= s.take(q));
        lemma_flat_prefix(s.drop_last(), q);
    }
}

proof fn lemma_flat_empty_tail<T>(s: Seq<Page<T>>, q: int)
    requires
        0 <= q <= s.len(),
        forall|r: int| q <= r < s.len() ==> (#[trigger] s[r]).entries_view().len() == 0,
    ensures
        flat(s) == flat(s.take(q)),
    decreases s.len(),
{
    if q == s.len() {
        assert(s.take(q) =~= s);
    } else {
        assert(s.drop_last().take(q) =~= s.take(q));
        lemma_flat_empty_tail(s.drop_last(), q);
        assert(flat(s) =~= flat(s.drop_last()));
    }
}

/// Position in the whole stream of slot `idx` of page `page`.
pub open spec fn position<T>(pages: Seq<Page<T>>, page: int, idx: int) -> int {
    flat(pages.take(page)).len() + idx
}

proof fn lemma_position_entry<T>(s: Seq<Page<T>>, p: int, i: int)
    requires
        0 <= p < s.len(),
        0 <= i < s[p].entries_view().len(),
    ensures
        0 <= position(s, p, i) < flat(s).len(),
        flat(s)[position(s, p, i)] == s[p].entries_view()[i],
{
    lemma_flat_take_step(s, p);
    lemma_flat_prefix(s, p + 1);
    assert(flat(s.take(p + 1))[position(s, p, i)] == s[p].entries_view()[i]);
}


proof fn lemma_flat_full_prefix<T>(s: Seq<Page<T>>, p: int, ps: nat)
    requires
        0 <= p <= s.len(),
        forall|q: int| 0 <= q < p ==> (#[trigger] s[q]).is_full() && s[q].capacity() == ps,
    ensures
        flat(s.take(p)).len() == p * ps,
    decreases p,
{
    if p > 0 {
        lemma_flat_full_prefix(s, p - 1, ps);
        lemma_flat_take_step(s, p - 1);
        assert(s[p - 1].is_full());
        assert((p - 1) * ps + ps == p * ps) by (nonlinear_arith);
    } else {
        assert(s.take(0) =~= Seq::<Page<T>>::empty());
    }
}

/// How many entries page `p` of a stream holds when every page has `ps`
/// slots and `len` entries have been appended: pages fill up in order.
pub open spec fn page_fill(len: nat, ps: nat, p: int) -> int {
    let lo = p * ps;
    if len <= lo {
        0
    } else if len - lo >= ps {
        ps as int
    } else {
        len - lo
    }
}

proof fn lemma_flat_prefix_len<T>(s: Seq<Page<T>>, p: int, ps: nat)
    requires
        0 <= p <= s.len(),
        ps > 0,
        forall|q: int| 0 <= q < s.len() ==> (#[trigger] s[q]).capacity() == ps && s[q].entries_view().len() <= ps,
        forall|a: int, b: int| 0 <= a < b < s.len() && !(#[trigger] s[a]).is_full()
            ==> (#[trigger] s[b]).entries_view().len() == 0,
    ensures
        flat(s.take(p)).len() == (if flat(s).len() <= p * ps { flat(s).len() as int } else { p * ps }),
    decreases p,
{
    if p == 0 {
        assert(s.take(0) =~= Seq::<Page<T>>::empty());
    } else {
        let q = p - 1;
        lemma_flat_prefix_len(s, q, ps);
        lemma_flat_take_step(s, q);
        lemma_flat_prefix(s, p);
        assert(q * ps + ps == p * ps) by (nonlinear_arith)
            requires
                q == p - 1,
        ;
        if s[q].is_full() {
            if flat(s).len() < q * ps {
                if forall|r: int| 0 <= r < q ==> (#[trigger] s[r]).is_full() {
                    lemma_flat_full_prefix(s, q, ps);
                }
                let r = choose|r: int| 0 <= r < q && !(#[trigger] s[r]).is_full();
                assert(s[q].entries_view().len() == 0);
            }
        } else {
            assert forall|b: int| p <= b < s.len() implies (#[trigger] s[b]).entries_view().len() == 0 by {
                assert(!s[q].is_full());
            }
            lemma_flat_empty_tail(s, p);
        }
    }
}

/// A page that can be linked into a stream: consistent bookkeeping and a
/// capacity that slot indices can address.
pub open spec fn spare_page<T>(pg: Page<T>) -> bool {
    &&& pg.wf()
    &&& 0 < pg.capacity() <= u32::MAX
}

/// A ring whose occupied slots all hold pages that can be linked into a stream.
pub open spec fn holds_spares<T>(r: Ring<Page<T>>) -> bool {
    &&& r.wf()
    &&& forall|i: int| 0 <= i < r.slots_view().len() ==> match #[trigger] r.slots_view()[i] {
        Some(pg) => spare_page(pg),
        None => true,
    }
}

/// Page size of the pages that a pool creates.
pub const POOL_PAGE_SIZE: usize = 64;

/// What one step of the recycler did.
#[derive(Clone, Copy, Debug, PartialEq, Eq)]
pub enum RecycleStep {
    /// Nothing was waiting: the caller may back off.
    Idle,
    /// A full page was reset and offered to the ready ring.
    Recycled,
    /// A page was not full yet and went back to the dirty ring.
    Requeued,
}

/// Fixed-size page pool with round-robin allocation, an optional ring of
/// ready pages that streams take their new pages from, and an optional ring
/// of dirty pages waiting to be recycled.
pub struct StreamPagePool<T> {
    pages: Vec<Page<T>>,
    next: usize,
    ready: Option<Ring<Page<T>>>,
    dirty: Option<Ring<Page<T>>>,
}

impl<T> StreamPagePool<T> {
    /// The pool's fixed pages.
    pub closed spec fn pages_view(&self) -> Seq<Page<T>> {
        self.pages@
    }

    /// Round-robin position of the next `get`.
    pub closed spec fn next_pos(&self) -> usize {
        self.next
    }

    /// The ready ring, if any.
    pub closed spec fn ready_ring(&self) -> Option<Ring<Page<T>>> {
        self.ready
    }

    /// The dirty ring, if any.
    pub closed spec fn dirty_ring(&self) -> Option<Ring<Page<T>>> {
        self.dirty
    }

    /// Both rings, where present, hold only linkable pages.
    pub open spec fn wf(&self) -> bool {
        &&& (self.ready_ring() matches Some(r) ==> holds_spares(r))
        &&& (self.dirty_ring() matches Some(r) ==> holds_spares(r))
    }

    /// Create a pool with `capacity` pre-initialized pages.
    pub fn with_capacity(capacity: usize) -> (r: Self)
        ensures
            r.wf(),
            r.pages_view().len() == capacity,
            forall|i: int| 0 <= i < capacity ==> (#[trigger] r.pages_view()[i]).capacity() == POOL_PAGE_SIZE
                && r.pages_view()[i].entries_view().len() == 0,
            r.next_pos() == 0,
            r.ready_ring() is None,
            r.dirty_ring() is None,
    {
        let mut pages: Vec<Page<T>> = Vec::new();
        let mut i: usize = 0;
        while i < capacity
            invariant
                0 <= i <= capacity,
                pages@.len() == i,
                forall|j: int| 0 <= j < i ==> (#[trigger] pages@[j]).capacity() == POOL_PAGE_SIZE
                    && pages@[j].entries_view().len() == 0,
            decreases capacity - i,
        {
            pages.push(Page::new(POOL_PAGE_SIZE, 0));
            i = i + 1;
        }
        StreamPagePool { pages, next: 0, ready: None, dirty: None }
    }

    /// A page in round-robin order; `None` only for a pool without pages.
    pub fn get(&mut self) -> (r: Option<&Page<T>>)
        ensures
            r is Some <==> old(self).pages_view().len() > 0,
            r matches Some(pg) ==> *pg == old(self).pages_view()[(old(self).next_pos() as nat % old(self).pages_view().len()) as int],
            r is Some ==> final(self).next_pos() == vstd::wrapping::usize_specs::wrapping_add(old(self).next_pos(), 1),
            final(self).pages_view() == old(self).pages_view(),
            final(self).ready_ring() == old(self).ready_ring(),
            final(self).dirty_ring() == old(self).dirty_ring(),
    {
        let cap = self.pages.len();
        if cap == 0 {
            return None;
        }
        let idx = self.next % cap;
        self.next = self.next.wrapping_add(1);
        Some(&self.pages[idx])
    }

    /// Install a ready ring of `ready_capacity` slots and a dirty ring of
    /// `dirty_capacity` slots; [`StreamPagePool::recycle_once`] then moves
    /// full dirty pages, reset, to the ready ring.
    pub fn with_recycler(self, ready_capacity: usize, dirty_capacity: usize) -> (r: Self)
        requires
            is_pow2(ready_capacity),
            is_pow2(dirty_capacity),
        ensures
            r.wf(),
            r.pages_view() == self.pages_view(),
            r.ready_ring() matches Some(q) && q.cap_view() == ready_capacity && q.len_view() == 0,
            r.dirty_ring() matches Some(q) && q.cap_view() == dirty_capacity && q.len_view() == 0,
    {
        let mut pool = self;
        pool.ready = Some(Ring::new(ready_capacity));
        pool.dirty = Some(Ring::new(dirty_capacity));
        pool
    }

    /// Install a ready ring of `min(ready_capacity, 100)` rounded up to a power
    /// of two slots; [`StreamPagePool::prefill_once`] keeps it topped up.
    pub fn with_prefiller(self, ready_capacity: usize) -> (r: Self)
        requires
            self.wf(),
        ensures
            r.wf(),
            r.pages_view() == self.pages_view(),
            r.dirty_ring() == self.dirty_ring(),
            r.ready_ring() matches Some(q) && q.len_view() == 0
                && crate::pow2::is_next_pow2(if ready_capacity < 100 { ready_capacity } else { 100 }, q.cap_view() as usize),
    {
        let capped: usize = if ready_capacity < 100 { ready_capacity } else { 100 };
        proof {
            vstd::arithmetic::power2::lemma2_to64();
            vstd::arithmetic::power2::lemma2_to64_rest();
            if usize::BITS == 32 {
                assert(vstd::arithmetic::power2::pow2(31) >= 100);
            } else {
                assert(vstd::arithmetic::power2::pow2(63) >= 100);
            }
        }
        let cap = crate::pow2::next_power_of_two(capped);
        let mut pool = self;
        pool.ready = Some(Ring::new(cap));
        pool
    }

    /// One round of the prefiller: push up to `min(free slots, 8)` new pages
    /// into the ready ring, stopping at the first push that finds its slot
    /// taken. Returns the number of pages added (0 without a ready ring).
    pub fn prefill_once(&mut self) -> (added: usize)
        requires
            old(self).wf(),
        ensures
            final(self).wf(),
            final(self).pages_view() == old(self).pages_view(),
            final(self).dirty_ring() == old(self).dirty_ring(),
            old(self).ready_ring() is None ==> added == 0 && final(self).ready_ring() is None,
            old(self).ready_ring() matches Some(q) ==> ({
                &&& added == (if q.cap_view() - q.len_view() < 8 { q.cap_view() - q.len_view() } else { 8 })
                &&& final(self).ready_ring() matches Some(q2)
                &&& q2.cap_view() == q.cap_view()
                &&& q2.queue().len() == q.queue().len() + added
                &&& q2.queue().subrange(0, q.queue().len() as int) == q.queue()
                &&& forall|i: int| q.queue().len() <= i < q2.queue().len() ==> {
                    &&& (#[trigger] q2.queue()[i]).entries_view().len() == 0
                    &&& q2.queue()[i].capacity() == POOL_PAGE_SIZE
                    &&& q2.queue()[i].link() is None
                }
            }),
    {
        let mut ring = match self.ready.take() {
            Some(r) => r,
            None => {
                return 0;
            },
        };
        proof {
            ring.lemma_wf_slots();
        }
        let available = ring.capacity().saturating_sub(ring.len());
        let batch: usize = if available < 8 { available } else { 8 };
        let mut added: usize = 0;
        let ghost q0 = old(self).ready_ring()->Some_0;
        while added < batch
            invariant
                holds_spares(ring),
                ring.cap_view() == q0.cap_view(),
                ring.len_view() == q0.len_view() + added,
                q0.len_view() <= q0.cap_view(),
                added <= batch,
                batch <= 8,
                batch <= available,
                available == ring.cap_view() - q0.len_view(),
                ring.queue().len() == q0.queue().len() + added,
                ring.queue().subrange(0, q0.queue().len() as int) == q0.queue(),
                forall|i: int| q0.queue().len() <= i < ring.queue().len() ==> {
                    &&& (#[trigger] ring.queue()[i]).entries_view().len() == 0
                    &&& ring.queue()[i].capacity() == POOL_PAGE_SIZE
                    &&& ring.queue()[i].link() is None
                },
            decreases batch - added,
        {
            let ghost before = ring;
            let pg = Page::new(POOL_PAGE_SIZE, 0);
            let ghost g = pg;
            let ok = ring.push(pg);
            proof {
                lemma_ring_push_spares(before, ring, g);
                assert(ok);
                assert(ring.queue() == before.queue().push(g));
                assert(ring.queue().subrange(0, q0.queue().len() as int) =~= before.queue().subrange(0, q0.queue().len() as int));
            }
            added = added + 1;
        }
        proof {
            assert(batch == available || batch == 8);
            if added < batch {
                assert(false);
            }
        }
        self.ready = Some(ring);
        added
    }

    /// One step of the recycler: take the next dirty page; a full one is reset
    /// and offered to the ready ring (dropped if that slot is taken), another
    /// goes back to the dirty ring.
    pub fn recycle_once(&mut self) -> (step: RecycleStep)
        requires
            old(self).wf(),
        ensures
            final(self).wf(),
            final(self).pages_view() == old(self).pages_view(),
            (old(self).ready_ring() is None || old(self).dirty_ring() is None) ==> step == RecycleStep::Idle
                && final(self).ready_ring() == old(self).ready_ring() && final(self).dirty_ring() == old(self).dirty_ring(),
            (old(self).ready_ring() is Some && old(self).dirty_ring() is Some) ==> ({
                let rq = old(self).ready_ring()->Some_0;
                let dq = old(self).dirty_ring()->Some_0;
                let head = dq.slots_view()[dq.head_pos()];
                &&& final(self).ready_ring() matches Some(rq2) && rq2.cap_view() == rq.cap_view()
                &&& final(self).dirty_ring() matches Some(dq2) && dq2.cap_view() == dq.cap_view()
                &&& (step == RecycleStep::Idle <==> head is None)
                &&& (step == RecycleStep::Recycled <==> (head is Some && head->Some_0.is_full()))
                &&& (step == RecycleStep::Requeued <==> (head is Some && !head->Some_0.is_full()))
                &&& (step != RecycleStep::Recycled ==> final(self).ready_ring() == old(self).ready_ring())
                &&& (step == RecycleStep::Idle ==> final(self).dirty_ring() == old(self).dirty_ring())
                &&& (step == RecycleStep::Recycled ==> final(self).dirty_ring()->Some_0.queue() == dq.queue().drop_first())
                &&& (step == RecycleStep::Recycled && rq.len_view() == rq.cap_view()
                    ==> final(self).ready_ring() == old(self).ready_ring())
                &&& (step == RecycleStep::Recycled && rq.len_view() < rq.cap_view() ==> exists|pg: Page<T>| {
                    &&& final(self).ready_ring()->Some_0.queue() == rq.queue().push(pg)
                    &&& pg.entries_view().len() == 0
                    &&& pg.capacity() == head->Some_0.capacity()
                    &&& pg.link() is None
                    &&& pg.seq_no() == 0
                })
                &&& (step == RecycleStep::Requeued
                    ==> final(self).dirty_ring()->Some_0.queue() == dq.queue().drop_first().push(head->Some_0))
            }),
    {
        if self.ready.is_none() || self.dirty.is_none() {
            return RecycleStep::Idle;
        }
        let mut dirty = self.dirty.take().unwrap();
        let popped = dirty.pop();
        proof {
            lemma_ring_pop_spares(old(self).dirty_ring()->Some_0, dirty, popped);
        }
        let step = match popped {
            None => RecycleStep::Idle,
            Some(mut page) => {
                if page.committed as usize == page.size {
                    page.reset_for_reuse(0);
                    let mut ready = self.ready.take().unwrap();
                    let ghost g = page;
                    let ok = ready.push(page);
                    proof {
                        lemma_ring_push_spares(old(self).ready_ring()->Some_0, ready, g);
                        if ok {
                            assert(ready.queue() == old(self).ready_ring()->Some_0.queue().push(g));
                        }
                    }
                    self.ready = Some(ready);
                    RecycleStep::Recycled
                } else {
                    let ghost before = dirty;
                    let ghost g = page;
                    let ok = dirty.push(page);
                    proof {
                        lemma_ring_push_spares(before, dirty, g);
                        old(self).dirty_ring()->Some_0.lemma_wf_slots();
                        assert(ok);
                    }
                    RecycleStep::Requeued
                }
            },
        };
        self.dirty = Some(dirty);
        step
    }

    /// Take the next page of the ready ring, if any.
    fn pop_ready(&mut self) -> (r: Option<Page<T>>)
        requires
            old(self).wf(),
        ensures
            final(self).wf(),
            final(self).pages_view() == old(self).pages_view(),
            final(self).next_pos() == old(self).next_pos(),
            final(self).dirty_ring() == old(self).dirty_ring(),
            r matches Some(pg) ==> spare_page(pg),
            old(self).ready_ring() is None ==> r is None && final(self).ready_ring() is None,
            old(self).ready_ring() matches Some(q) ==> ({
                &&& r == (if q.len_view() > 0 { Some(q.queue()[0]) } else { None::<Page<T>> })
                &&& final(self).ready_ring() matches Some(q2)
                &&& q2.cap_view() == q.cap_view()
                &&& q2.queue() == (if q.len_view() > 0 { q.queue().drop_first() } else { q.queue() })
            }),
    {
        match self.ready.take() {
            None => None,
            Some(mut ring) => {
                let r = ring.pop();
                proof {
                    lemma_ring_pop_spares(old(self).ready_ring()->Some_0, ring, r);
                }
                self.ready = Some(ring);
                r
            },
        }
    }

    /// Install a ready ring holding linkable pages.
    pub fn set_ready(&mut self, ring: Ring<Page<T>>)
        requires
            holds_spares(ring),
            old(self).wf(),
        ensures
            final(self).wf(),
            final(self).ready_ring() == Some(ring),
            final(self).dirty_ring() == old(self).dirty_ring(),
            final(self).pages_view() == old(self).pages_view(),
    {
        self.ready = Some(ring);
    }

    /// Number of pages waiting in the ready ring (0 without one).
    pub fn ready_len(&self) -> (r: usize)
        requires
            self.wf(),
        ensures
            self.ready_ring() matches Some(q) ==> r == q.len_view(),
            self.ready_ring() is None ==> r == 0,
    {
        match &self.ready {
            Some(ring) => ring.len(),
            None => 0,
        }
    }
}

proof fn lemma_ring_pop_spares<T>(before: Ring<Page<T>>, after: Ring<Page<T>>, r: Option<Page<T>>)
    requires
        holds_spares(before),
        after.wf(),
        r == before.slots_view()[before.head_pos()],
        after.slots_view() == before.slots_view().update(before.head_pos(), None)
            || after.slots_view() == before.slots_view(),
        after.cap_view() == before.cap_view(),
    ensures
        holds_spares(after),
        r matches Some(pg) ==> spare_page(pg),
{
    before.lemma_wf_slots();
    assert forall|i: int| 0 <= i < after.slots_view().len() implies match #[trigger] after.slots_view()[i] {
        Some(pg) => spare_page(pg),
        None => true,
    } by {
        if i != before.head_pos() {
            assert(after.slots_view()[i] == before.slots_view()[i]);
        }
    }
    let k = before.head_pos();
    assert(match before.slots_view()[k] { Some(pg) => spare_page(pg), None => true });
}

proof fn lemma_ring_push_spares<T>(before: Ring<Page<T>>, after: Ring<Page<T>>, pg: Page<T>)
    requires
        holds_spares(before),
        spare_page(pg),
        after.wf(),
        after.cap_view() == before.cap_view(),
        after.slots_view() == before.slots_view()
            || after.slots_view() == before.slots_view().update(before.tail_pos(), Some(pg)),
    ensures
        holds_spares(after),
{
    before.lemma_wf_slots();
    if after.slots_view() != before.slots_view() {
        assert forall|i: int| 0 <= i < after.slots_view().len() implies match #[trigger] after.slots_view()[i] {
            Some(q) => spare_page(q),
            None => true,
        } by {
            if i != before.tail_pos() {
                assert(after.slots_view()[i] == before.slots_view()[i]);
            }
        }
    }
}


/// Append-only stream of items stored in fixed-size pages.
///
/// The pages form a chain in the order they were created: page `p` links to
/// page `p + 1`. Appends fill the first page of the chain that has room; once
/// a page is half full the next page is linked ahead of time. Every entry
/// keeps its [`StreamIndex`] for the life of the stream.
pub struct SegmentedStream<T> {
    /// Directory of all pages, in chain order.
    pages: Vec<Page<T>>,
    /// Position of the page appends start from.
    active_page: usize,
    /// Optional page pool new pages are taken from.
    pool: Option<StreamPagePool<T>>,
    /// Number of entries per new page.
    page_size: usize,
    /// Slot index at which the next page is linked ahead (`page_size / 2`).
    link_ahead: u32,
    /// Sequence number of the next page to be created.
    next_page_seq: u64,
}

impl<T> View for SegmentedStream<T> {
    type V = Seq<T>;

    /// The stream's items in append order.
    closed spec fn view(&self) -> Seq<T> {
        flat(self.pages@)
    }
}

impl<T> SegmentedStream<T> {
    /// The stream's pages in chain order.
    pub closed spec fn pages_view(&self) -> Seq<Page<T>> {
        self.pages@
    }

    /// Number of entries per new page.
    pub closed spec fn page_size_view(&self) -> nat {
        self.page_size as nat
    }

    /// The page pool, if any.
    pub closed spec fn pool_view(&self) -> Option<StreamPagePool<T>> {
        self.pool
    }

    /// Position of the page appends start from.
    pub closed spec fn active_view(&self) -> int {
        self.active_page as int
    }

    /// The entry that a stream index designates, if it has been appended.
    pub open spec fn entry_at(&self, si: StreamIndex) -> Option<T> {
        let pages = self.pages_view();
        if si.page < pages.len() && si.idx < pages[si.page as int].entries_view().len() {
            Some(pages[si.page as int].entries_view()[si.idx as int])
        } else {
            None
        }
    }

    /// Chain and fill invariants: pages are linked in order, every page before
    /// the active one is full, and no page after a page with room holds entries.
    pub closed spec fn wf(&self) -> bool {
        let pages = self.pages@;
        &&& pages.len() >= 1
        &&& self.active_page < pages.len()
        &&& 0 < self.page_size <= u32::MAX
        &&& self.link_ahead == self.page_size / 2
        &&& forall|p: int| 0 <= p < pages.len() ==> spare_page(#[trigger] pages[p])
        &&& forall|p: int| 0 <= p < pages.len() - 1 ==> (#[trigger] pages[p]).link() is Some
            && pages[p].link()->Some_0 == p + 1
        &&& pages.last().link() is None
        &&& forall|p: int| 0 <= p < self.active_page ==> (#[trigger] pages[p]).is_full()
        &&& forall|p: int, q: int| 0 <= p < q < pages.len() && !(#[trigger] pages[p]).is_full()
            ==> (#[trigger] pages[q]).entries_view().len() == 0
        &&& (self.pool matches Some(pl) ==> pl.wf())
        &&& (self.pool is None ==> forall|p: int| 0 <= p < pages.len()
            ==> (#[trigger] pages[p]).capacity() == self.page_size)
    }

    /// This stream is `earlier` with entries appended: no page is dropped,
    /// and each page of `earlier` keeps its capacity and its entries, in
    /// front of any new ones.
    pub open spec fn extends(&self, earlier: &SegmentedStream<T>) -> bool {
        &&& self.pages_view().len() >= earlier.pages_view().len()
        &&& forall|q: int| 0 <= q < earlier.pages_view().len() ==> {
            &&& (#[trigger] self.pages_view()[q]).capacity() == earlier.pages_view()[q].capacity()
            &&& self.pages_view()[q].entries_view().len() >= earlier.pages_view()[q].entries_view().len()
            &&& forall|i: int| 0 <= i < earlier.pages_view()[q].entries_view().len()
                ==> #[trigger] self.pages_view()[q].entries_view()[i] == earlier.pages_view()[q].entries_view()[i]
        }
    }

    /// Where a stream index sits in the whole stream.
    pub open spec fn position_of(&self, si: StreamIndex) -> int {
        position(self.pages_view(), si.page as int, si.idx as int)
    }

    /// An appended entry sits at its position in the stream.
    pub proof fn lemma_entry_position(&self, si: StreamIndex)
        requires
            self.entry_at(si) is Some,
        ensures
            0 <= self.position_of(si) < self@.len(),
            self@[self.position_of(si)] == self.entry_at(si)->Some_0,
    {
        lemma_position_entry(self.pages@, si.page as int, si.idx as int);
    }

    /// In a stream without a pool every page has `page_size` slots, and the
    /// pages fill up in order: page `p` holds `page_fill(len, page_size, p)`
    /// entries.
    pub proof fn lemma_page_fill(&self, p: int)
        requires
            self.wf(),
            self.pool_view() is None,
            0 <= p < self.pages_view().len(),
        ensures
            self.pages_view()[p].capacity() == self.page_size_view(),
            self.pages_view()[p].entries_view().len() == page_fill(self@.len(), self.page_size_view(), p),
    {
        let s = self.pages@;
        let ps = self.page_size as nat;
        assert forall|q: int| 0 <= q < s.len() implies (#[trigger] s[q]).capacity() == ps && s[q].entries_view().len() <= ps by {
            assert(spare_page(s[q]));
        }
        lemma_flat_prefix_len(s, p, ps);
        lemma_flat_prefix_len(s, p + 1, ps);
        lemma_flat_take_step(s, p);
        assert(p * ps + ps == (p + 1) * ps) by (nonlinear_arith);
    }

    /// Create a new stream with a single initial page using the default page size.
    pub fn new() -> (r: Self)
        ensures
            r.wf(),
            r@ == Seq::<T>::empty(),
            r.page_size_view() == DEFAULT_PAGE_SIZE,
            r.pool_view() is None,
            r.pages_view().len() == 1,
    {
        Self::with_page_size(DEFAULT_PAGE_SIZE)
    }

    /// Create a new stream with a custom page size.
    pub fn with_page_size(page_size: usize) -> (r: Self)
        requires
            0 < page_size <= u32::MAX,
        ensures
            r.wf(),
            r@ == Seq::<T>::empty(),
            r.page_size_view() == page_size,
            r.pool_view() is None,
            r.pages_view().len() == 1,
            r.pages_view()[0].capacity() == page_size,
    {
        Self::build(None, page_size)
    }

    /// Create a new stream with a provided page pool using the default page size.
    pub fn with_pool(pool: StreamPagePool<T>) -> (r: Self)
        requires
            pool.wf(),
        ensures
            r.wf(),
            r@ == Seq::<T>::empty(),
            r.page_size_view() == DEFAULT_PAGE_SIZE,
            r.pool_view() == Some(pool),
            r.pages_view().len() == 1,
    {
        Self::with_pool_and_page_size(pool, DEFAULT_PAGE_SIZE)
    }

    /// Create a new stream with a provided page pool and custom page size.
    pub fn with_pool_and_page_size(pool: StreamPagePool<T>, page_size: usize) -> (r: Self)
        requires
            pool.wf(),
            0 < page_size <= u32::MAX,
        ensures
            r.wf(),
            r@ == Seq::<T>::empty(),
            r.page_size_view() == page_size,
            r.pool_view() == Some(pool),
            r.pages_view().len() == 1,
            r.pages_view()[0].capacity() == page_size,
    {
        Self::build(Some(pool), page_size)
    }

    fn build(pool: Option<StreamPagePool<T>>, page_size: usize) -> (r: Self)
        requires
            pool matches Some(pl) ==> pl.wf(),
            0 < page_size <= u32::MAX,
        ensures
            r.wf(),
            r@ == Seq::<T>::empty(),
            r.page_size_view() == page_size,
            r.pool_view() == pool,
            r.pages_view().len() == 1,
            r.pages_view()[0].capacity() == page_size,
    {
        let link_ahead = (page_size / 2) as u32;
        let mut pages: Vec<Page<T>> = Vec::new();
        pages.push(Page::new(page_size, 0));
        let r = SegmentedStream { pages, active_page: 0, pool, page_size, link_ahead, next_page_seq: 1 };
        proof {
            assert(r.pages@.drop_last() =~= Seq::<Page<T>>::empty());
            assert(flat(Seq::<Page<T>>::empty()) =~= Seq::<T>::empty());
            assert(flat(r.pages@) =~= Seq::<T>::empty());
        }
        r
    }

    /// Allocate a fresh page, or take one from the pool's ready ring and reset it.
    fn alloc_page(&mut self) -> (r: Page<T>)
        requires
            old(self).pool matches Some(pl) ==> pl.wf(),
            0 < old(self).page_size <= u32::MAX,
        ensures
            final(self).pool matches Some(pl) ==> pl.wf(),
            final(self).pages == old(self).pages,
            final(self).active_page == old(self).active_page,
            final(self).page_size == old(self).page_size,
            final(self).link_ahead == old(self).link_ahead,
            spare_page(r),
            r.entries_view().len() == 0,
            r.link() is None,
            r.seq_no() == old(self).next_page_seq,
            final(self).pool is None <==> old(self).pool is None,
            old(self).pool is None ==> r.capacity() == old(self).page_size,
    {
        let seq = self.next_page_seq;
        self.next_page_seq = self.next_page_seq.wrapping_add(1);
        match self.pool.take() {
            Some(mut pool) => {
                let popped = pool.pop_ready();
                self.pool = Some(pool);
                match popped {
                    Some(mut p) => {
                        p.reset_for_reuse(seq);
                        p
                    },
                    None => Page::new(self.page_size, seq),
                }
            },
            None => Page::new(self.page_size, seq),
        }
    }

    /// Append one item to the stream.
    pub fn append(&mut self, item: T) -> (r: Result<(), StreamError>)
        requires
            old(self).wf(),
        ensures
            final(self).wf(),
            r is Ok,
            final(self)@ == old(self)@.push(item),
            forall|si: StreamIndex| #[trigger] old(self).entry_at(si) is Some
                ==> final(self).entry_at(si) == old(self).entry_at(si),
            final(self).extends(old(self)),
    {
        match self.append_with_index(item) {
            Ok(_) => Ok(()),
            Err(e) => Err(e),
        }
    }

    /// Append one item and return its `StreamIndex` upon publish.
    #[verifier::rlimit(40)]
    pub fn append_with_index(&mut self, item: T) -> (r: Result<StreamIndex, StreamError>)
        requires
            old(self).wf(),
        ensures
            final(self).wf(),
            r is Ok,
            r matches Ok(si) ==> final(self).entry_at(si) == Some(item)
                && final(self).position_of(si) == old(self)@.len(),
            final(self)@ == old(self)@.push(item),
            forall|si: StreamIndex| #[trigger] old(self).entry_at(si) is Some
                ==> final(self).entry_at(si) == old(self).entry_at(si),
            final(self).extends(old(self)),
            old(self).pool_view() is None ==> (r matches Ok(si) ==> si.page == old(self)@.len() / old(self).page_size_view()
                && si.idx == old(self)@.len() % old(self).page_size_view()),
    {
        let mut p: usize = self.active_page;
        loop
            invariant
                self.wf(),
                p < self.pages@.len(),
                forall|q: int| 0 <= q < p ==> (#[trigger] self.pages@[q]).is_full(),
                self@ == old(self)@,
                self.page_size == old(self).page_size,
                self.pool is None <==> old(self).pool is None,
                self.pages@.len() >= old(self).pages@.len(),
                forall|q: int| 0 <= q < old(self).pages@.len() ==> (#[trigger] self.pages@[q]).entries_view() == old(self).pages@[q].entries_view()
                    && self.pages@[q].capacity() == old(self).pages@[q].capacity(),
                forall|q: int| old(self).pages@.len() <= q < self.pages@.len() ==> (#[trigger] self.pages@[q]).entries_view().len() == 0,
            decreases self.pages@.len() - p + (if self.pages@[p as int].is_full() { 1int } else { 0int }),
        {
            let ghost pages0 = self.pages@;
            let idx: u32 = self.pages[p].claimed;
            if self.pages[p].claimed < u32::MAX {
                self.pages[p].claimed = self.pages[p].claimed + 1;
            }
            proof {
                lemma_flat_same_entries(self.pages@, pages0);
            }
            // Link the next page ahead of time once this page is half full.
            if idx == self.link_ahead && self.pages[p].next.is_none() {
                let np = self.alloc_page();
                let pos = self.pages.len();
                self.pages[p].next = Some(pos);
                let ghost pages1 = self.pages@;
                self.pages.push(np);
                proof {
                    assert(p == pages0.len() - 1);
                    lemma_flat_same_entries(pages1, pages0);
                    lemma_flat_push_empty(pages1, np);
                    if old(self).pool is None {
                        assert(np.capacity() == self.page_size);
                        assert forall|q: int| 0 <= q < self.pages@.len() implies (#[trigger] self.pages@[q]).capacity() == self.page_size by {
                            if q < pages1.len() {
                                assert(self.pages@[q] == pages1[q]);
                                assert(pages1[q].capacity() == pages0[q].capacity());
                            }
                        }
                    }
                }
            }
            proof {
                if old(self).pool is None {
                    assert forall|q: int| 0 <= q < self.pages@.len() implies (#[trigger] self.pages@[q]).capacity() == self.page_size by {
                        if q < pages0.len() {
                            assert(self.pages@[q].capacity() == pages0[q].capacity());
                        }
                    }
                }
            }
            if (idx as usize) < self.pages[p].size {
                let ghost pages2 = self.pages@;
                self.pages[p].entries.push(item);
                self.pages[p].committed = self.pages[p].committed + 1;
                proof {
                    if old(self).pool is None {
                        assert forall|q: int| 0 <= q < self.pages@.len() implies (#[trigger] self.pages@[q]).capacity() == self.page_size by {
                            assert(self.pages@[q].capacity() == pages2[q].capacity());
                        }
                    }
                    lemma_flat_append_at(pages2, p as int, self.pages@[p as int], item);
                    assert(self.pages@ =~= pages2.update(p as int, self.pages@[p as int]));
                    lemma_flat_take_step(pages2, p as int);
                    lemma_flat_prefix(pages2, p as int);
                    lemma_flat_take_step(self.pages@, p as int);
                    assert(self.pages@.take(p as int) =~= pages2.take(p as int));
                    lemma_flat_empty_tail(pages2, p + 1);
                }
                proof {
                    if old(self).pool is None {
                        assert(forall|q: int| 0 <= q < self.pages@.len() ==> (#[trigger] self.pages@[q]).capacity() == self.page_size);
                        lemma_flat_full_prefix(self.pages@, p as int, self.page_size as nat);
                        assert(position(self.pages@, p as int, idx as int) == old(self)@.len());
                        vstd::arithmetic::div_mod::lemma_fundamental_div_mod_converse(
                            old(self)@.len() as int, self.page_size as int, p as int, idx as int);
                    }
                }
                return Ok(StreamIndex { page: p, idx });
            }
            // Page full: follow the link, or link a new page and make it active.
            proof {
                assert(self.pages@[p as int].is_full());
                assert(pages0[p as int].is_full());
            }
            match self.pages[p].next {
                Some(n) => {
                    proof {
                        lemma_link_is_next(self, p as int);
                        assert(spare_page(self.pages@[n as int]));
                        assert(self.pages@.len() == pages0.len() || (self.pages@.len() == pages0.len() + 1
                            && n == pages0.len() && self.pages@[n as int].entries_view().len() == 0));
                    }
                    p = n;
                },
                None => {
                    proof {
                        if p < self.pages@.len() - 1 {
                            assert(self.pages@[p as int].link() is Some);
                        }
                        assert(self.pages@.len() == pages0.len());
                    }
                    let np = self.alloc_page();
                    let pos = self.pages.len();
                    self.pages[p].next = Some(pos);
                    let ghost pages3 = self.pages@;
                    self.pages.push(np);
                    proof {
                        lemma_flat_same_entries(pages3, pages0);
                        lemma_flat_push_empty(pages3, np);
                        if old(self).pool is None {
                            assert(np.capacity() == self.page_size);
                            assert forall|q: int| 0 <= q < self.pages@.len() implies (#[trigger] self.pages@[q]).capacity() == self.page_size by {
                                if q < pages3.len() {
                                    assert(self.pages@[q] == pages3[q]);
                                    assert(pages3[q].capacity() == pages0[q].capacity());
                                }
                            }
                        }
                    }
                    self.active_page = pos;
                    p = pos;
                },
            }
        }
    }

    /// The entry a `StreamIndex` designates, if it has been appended.
    pub fn resolve_ref<'a>(&'a self, idx: &StreamIndex) -> (r: Option<&'a T>)
        requires
            self.wf(),
        ensures
            r is Some <==> self.entry_at(*idx) is Some,
            r matches Some(v) ==> Some(*v) == self.entry_at(*idx),
    {
        if idx.page >= self.pages.len() {
            return None;
        }
        let page = &self.pages[idx.page];
        if idx.idx < page.committed {
            Some(&page.entries[idx.idx as usize])
        } else {
            None
        }
    }

    /// The entry a `StreamIndex` designates, which the caller knows was appended.
    pub fn resolve_ref_unchecked<'a>(&'a self, idx: &StreamIndex) -> (r: &'a T)
        requires
            self.wf(),
            self.entry_at(*idx) is Some,
        ensures
            Some(*r) == self.entry_at(*idx),
    {
        &self.pages[idx.page].entries[idx.idx as usize]
    }

    /// The pages, in chain order.
    pub fn pages(&self) -> (r: &[Page<T>])
        ensures
            r@ == self.pages_view(),
    {
        self.pages.as_slice()
    }

    /// The page appends start from.
    pub fn active_page(&self) -> (r: &Page<T>)
        requires
            self.wf(),
        ensures
            *r == self.pages_view()[self.active_view()],
    {
        &self.pages[self.active_page]
    }

    /// The page pool, if any.
    pub fn pool(&self) -> (r: Option<&StreamPagePool<T>>)
        ensures
            r matches Some(pl) ==> self.pool_view() == Some(*pl),
            r is None <==> self.pool_view() is None,
    {
        match &self.pool {
            Some(pl) => Some(pl),
            None => None,
        }
    }
}

/// Forward reader over a stream: a page position and a slot within it.
#[derive(Clone, Copy, Debug, PartialEq, Eq)]
pub struct Cursor {
    page: usize,
    index: u32,
}

impl Cursor {
    /// The cursor points into the stream: an existing page, at most one past
    /// its last committed entry.
    pub open spec fn valid_for<T>(&self, stream: &SegmentedStream<T>) -> bool {
        &&& self.page_view() < stream.pages_view().len()
        &&& self.index_view() <= stream.pages_view()[self.page_view()].entries_view().len()
        &&& forall|q: int| 0 <= q < self.page_view() ==> (#[trigger] stream.pages_view()[q]).is_full()
    }

    /// A cursor valid for a stream stays valid, at the same position, once
    /// more entries have been appended to the stream.
    pub proof fn lemma_valid_after_append<T>(&self, earlier: &SegmentedStream<T>, later: &SegmentedStream<T>)
        requires
            earlier.wf(),
            later.wf(),
            self.valid_for(earlier),
            later.extends(earlier),
        ensures
            self.valid_for(later),
            self.pos(later) == self.pos(earlier),
    {
        let a = earlier.pages_view();
        let b = later.pages_view();
        let c = self.page as int;
        assert forall|q: int| 0 <= q < c implies (#[trigger] b[q]).is_full() && b[q].entries_view() == a[q].entries_view() by {
            assert(a[q].is_full());
            assert(spare_page(b[q]));
            assert(b[q].entries_view().len() <= b[q].capacity());
            assert(b[q].entries_view() =~= a[q].entries_view());
        }
        lemma_flat_same_entries(a.take(c), b.take(c));
    }

    /// A cursor valid for a stream stands at most at its end.
    pub proof fn lemma_pos_bound<T>(&self, stream: &SegmentedStream<T>)
        requires
            stream.wf(),
            self.valid_for(stream),
        ensures
            0 <= self.pos(stream) <= stream@.len(),
    {
        lemma_cursor_bound(stream, self.page as int, self.index as int);
    }

    /// The page the cursor reads from.
    pub closed spec fn page_view(&self) -> int {
        self.page as int
    }

    /// The slot the cursor reads next.
    pub closed spec fn index_view(&self) -> int {
        self.index as int
    }

    /// Position of the next item the cursor reads, in the whole stream.
    pub open spec fn pos<T>(&self, stream: &SegmentedStream<T>) -> int {
        position(stream.pages_view(), self.page_view(), self.index_view())
    }

    /// Create a new cursor positioned at the head of the stream.
    pub fn new_at_head<T>(stream: &SegmentedStream<T>) -> (r: Self)
        requires
            stream.wf(),
        ensures
            r.valid_for(stream),
            r.pos(stream) == 0,
    {
        let r = Cursor { page: 0, index: 0 };
        proof {
            assert(stream.pages_view().take(0) =~= Seq::<Page<T>>::empty());
        }
        r
    }

    /// Read the next item if available, hopping to the next page when the
    /// current one is full and read to its end.
    pub fn next<'a, T>(&mut self, stream: &'a SegmentedStream<T>) -> (r: Option<&'a T>)
        requires
            stream.wf(),
            old(self).valid_for(stream),
        ensures
            final(self).valid_for(stream),
            old(self).pos(stream) <= stream@.len(),
            old(self).pos(stream) < stream@.len() ==> (r matches Some(v) && *v == stream@[old(self).pos(stream)]
                && final(self).pos(stream) == old(self).pos(stream) + 1),
            old(self).pos(stream) == stream@.len() ==> r is None && final(self).pos(stream) == old(self).pos(stream),
    {
        let ghost s = stream.pages_view();
        proof {
            lemma_cursor_bound(stream, self.page as int, self.index as int);
        }
        loop
            invariant
                stream.wf(),
                s == stream.pages_view(),
                self.valid_for(stream),
                self.pos(stream) == old(self).pos(stream),
                self.pos(stream) <= stream@.len(),
            decreases s.len() - self.page,
        {
            let page = &stream.pages[self.page];
            proof {
                assert(spare_page(s[self.page as int]));
            }
            if self.index < page.committed {
                let i = self.index;
                self.index = i + 1;
                proof {
                    lemma_position_entry(s, self.page as int, i as int);
                }
                return Some(&page.entries[i as usize]);
            }
            if (page.committed as usize) < page.size {
                proof {
                    lemma_cursor_at_end(stream, self.page as int);
                }
                return None;
            }
            match page.next {
                None => {
                    proof {
                        lemma_cursor_at_end(stream, self.page as int);
                    }
                    return None;
                },
                Some(n) => {
                    let ghost p0 = self.page as int;
                    let ghost i0 = self.index as int;
                    proof {
                        lemma_flat_take_step(s, p0);
                        lemma_link_is_next(stream, p0);
                        assert(*page == s[p0]);
                        assert(i0 == s[p0].entries_view().len());
                        assert(n == p0 + 1);
                    }
                    self.page = n;
                    self.index = 0;
                    proof {
                        assert(self.page_view() == p0 + 1);
                        assert(self.index_view() == 0);
                        assert(self.pos(stream) == flat(s.take(p0 + 1)).len());
                        lemma_cursor_bound(stream, self.page as int, 0);
                    }
                },
            }
        }
    }

    /// The committed items of the current page from the cursor on, advancing
    /// past them. At the end of a full page with a successor, hops to the next
    /// page and returns an empty slice; the next call reads from there.
    pub fn next_batch<'a, T>(&mut self, stream: &'a SegmentedStream<T>) -> (r: &'a [T])
        requires
            stream.wf(),
            old(self).valid_for(stream),
        ensures
            final(self).valid_for(stream),
            final(self).pos(stream) == old(self).pos(stream) + r@.len(),
            r@ == stream@.subrange(old(self).pos(stream), final(self).pos(stream)),
            r@.len() == 0 && old(self).pos(stream) < stream@.len() ==> final(self).page_view() == old(self).page_view() + 1,
            old(self).index_view() < stream.pages_view()[old(self).page_view()].entries_view().len() ==> r@.len() > 0,
            r@.len() > 0 ==> final(self).page_view() == old(self).page_view()
                && final(self).index_view() == stream.pages_view()[old(self).page_view()].entries_view().len(),
    {
        let ghost s = stream.pages_view();
        let page = &stream.pages[self.page];
        let idx = self.index;
        let cap = page.committed;
        proof {
            assert(spare_page(s[self.page as int]));
            lemma_cursor_bound(stream, self.page as int, self.index as int);
        }
        if idx < cap {
            self.index = cap;
            let r = vstd::slice::slice_subrange(page.entries.as_slice(), idx as usize, cap as usize);
            proof {
                lemma_cursor_bound(stream, self.page as int, cap as int);
                assert forall|k: int| 0 <= k < r@.len() implies r@[k] == stream@.subrange(old(self).pos(stream), self.pos(stream))[k] by {
                    lemma_position_entry(s, self.page as int, idx + k);
                }
                assert(r@ =~= stream@.subrange(old(self).pos(stream), self.pos(stream)));
            }
            return r;
        }
        let empty = vstd::slice::slice_subrange(page.entries.as_slice(), cap as usize, cap as usize);
        if cap as usize == page.size {
            match page.next {
                Some(n) => {
                    let ghost p0 = self.page as int;
                    let ghost i0 = self.index as int;
                    proof {
                        lemma_flat_take_step(s, p0);
                        lemma_link_is_next(stream, p0);
                        assert(*page == s[p0]);
                        assert(i0 == s[p0].entries_view().len());
                        assert(n == p0 + 1);
                    }
                    self.page = n;
                    self.index = 0;
                    proof {
                        assert(self.page_view() == p0 + 1);
                        assert(self.index_view() == 0);
                        assert(self.pos(stream) == flat(s.take(p0 + 1)).len());
                        lemma_cursor_bound(stream, self.page as int, 0);
                    }
                },
                None => {
                    proof {
                        lemma_cursor_at_end(stream, self.page as int);
                    }
                },
            }
        } else {
            proof {
                lemma_cursor_at_end(stream, self.page as int);
            }
        }
        proof {
            assert(empty@ =~= stream@.subrange(old(self).pos(stream), self.pos(stream)));
        }
        empty
    }
}

proof fn lemma_link_is_next<T>(stream: &SegmentedStream<T>, p: int)
    requires
        stream.wf(),
        0 <= p < stream.pages_view().len(),
        stream.pages_view()[p].link() is Some,
    ensures
        p < stream.pages_view().len() - 1,
        stream.pages_view()[p].link()->Some_0 == p + 1,
{
    let s = stream.pages_view();
    if p == s.len() - 1 {
        assert(s.last() == s[p]);
    }
}

proof fn lemma_cursor_bound<T>(stream: &SegmentedStream<T>, p: int, i: int)
    requires
        stream.wf(),
        0 <= p < stream.pages_view().len(),
        0 <= i <= stream.pages_view()[p].entries_view().len(),
    ensures
        position(stream.pages_view(), p, i) <= stream@.len(),
{
    let s = stream.pages_view();
    lemma_flat_take_step(s, p);
    lemma_flat_prefix(s, p + 1);
}

proof fn lemma_cursor_at_end<T>(stream: &SegmentedStream<T>, p: int)
    requires
        stream.wf(),
        0 <= p < stream.pages_view().len(),
        !stream.pages_view()[p].is_full() || p == stream.pages_view().len() - 1,
    ensures
        position(stream.pages_view(), p, stream.pages_view()[p].entries_view().len() as int) == stream@.len(),
{
    let s = stream.pages_view();
    lemma_flat_take_step(s, p);
    if p < s.len() - 1 {
        assert forall|r: int| p + 1 <= r < s.len() implies (#[trigger] s[r]).entries_view().len() == 0 by {
            assert(!s[p].is_full());
        }
    }
    lemma_flat_empty_tail(s, p + 1);
}

} // verus!
