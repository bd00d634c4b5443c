//! Read-only snapshot of a bucket: the live records' buffer slots, ordered by
//! an 8-bit tag for lookups and by slot for iteration.
use vstd::prelude::*;
use crate::mph_delta_index::arena::align_up;

verus! {

/// A record of a bucket as offered to a snapshot: its tag, its full hash, its
/// buffer slot and its kind (0 for an upsert, anything else for a tombstone).
pub type TinyMapItem = (u8, u64, usize, u8);

/// Number of upsert items.
pub open spec fn num_upserts(items: Seq<TinyMapItem>) -> nat
    decreases items.len(),
{
    if items.len() == 0 {
        0
    } else {
        num_upserts(items.drop_last()) + if items.last().3 == 0 { 1nat } else { 0nat }
    }
}

/// Immutable read-only snapshot for lookups and iteration.
pub struct ReadTinyMap {
    /// Number of entries.
    len: usize,
    /// Tags, in nondecreasing order.
    tags: Vec<u8>,
    /// Buffer slots, in the order of `tags`.
    slots: Vec<u16>,
    /// The same buffer slots, in nondecreasing order.
    active_slots: Vec<u16>,
}

/// Some upsert item pairs tag `t` with slot `s`.
pub open spec fn from_upsert_item(items: Seq<TinyMapItem>, t: u8, s: u16) -> bool {
    exists|i: int| 0 <= i < items.len() && items[i].3 == 0 && items[i].0 == t && items[i].2 == s
}

/// The slots of the entries from `from` on whose tag is `t`, in entry order.
pub open spec fn tag_matches(tags: Seq<u8>, slots: Seq<u16>, t: u8, from: int) -> Seq<u16>
    decreases tags.len() - from,
{
    if from < 0 || from >= tags.len() {
        Seq::empty()
    } else if tags[from] == t {
        seq![slots[from]] + tag_matches(tags, slots, t, from + 1)
    } else {
        tag_matches(tags, slots, t, from + 1)
    }
}

/// When exactly the entries in `start..end` carry tag `t`, the matches from
/// `from` on are the slots of that run from `from` on.
proof fn lemma_tag_run(tags: Seq<u8>, slots: Seq<u16>, t: u8, from: int, start: int, end: int)
    requires
        0 <= from,
        0 <= start <= end <= tags.len(),
        tags.len() == slots.len(),
        forall|j: int| 0 <= j < tags.len() ==> (tags[j] == t <==> start <= j < end),
    ensures
        tag_matches(tags, slots, t, from) == (if from >= end { Seq::<u16>::empty() } else {
            slots.subrange(if from > start { from } else { start }, end)
        }),
    decreases tags.len() - from,
{
    if from >= tags.len() {
    } else {
        lemma_tag_run(tags, slots, t, from + 1, start, end);
        if tags[from] == t {
            assert(seq![slots[from]] + slots.subrange(from + 1, end) =~= slots.subrange(from, end)) by {
                if from + 1 >= end {
                    assert(from + 1 == end);
                }
            }
            if from + 1 >= end {
                assert(slots.subrange(from + 1, end) =~= Seq::<u16>::empty());
            }
        }
    }
}

/// Entry `j` of a snapshot stands for upsert item `src[j]`, with the item's
/// tag and slot, and every upsert item has exactly one entry.
pub open spec fn entries_from_items(tags: Seq<u8>, slots: Seq<u16>, items: Seq<TinyMapItem>, src: Seq<int>) -> bool {
    &&& src.len() == slots.len()
    &&& forall|j: int| 0 <= j < slots.len() ==> {
        let k = #[trigger] src[j];
        &&& 0 <= k < items.len()
        &&& items[k].3 == 0
        &&& items[k].0 == tags[j]
        &&& items[k].2 == slots[j]
    }
    &&& forall|a: int, b: int| 0 <= a < b < src.len() ==> #[trigger] src[a] != #[trigger] src[b]
    &&& forall|k: int| 0 <= k < items.len() && (#[trigger] items[k]).3 == 0 ==> exists|j: int| 0 <= j < src.len() && src[j] == k
}

/// `v` is in nondecreasing order.
pub open spec fn nondecreasing(v: Seq<u16>) -> bool {
    forall|i: int, j: int| 0 <= i <= j < v.len() ==> v[i] <= v[j]
}

impl ReadTinyMap {
    /// The tags, in entry order.
    pub closed spec fn tags_view(&self) -> Seq<u8> {
        self.tags@
    }

    /// The buffer slots, in entry order.
    pub closed spec fn slots_view(&self) -> Seq<u16> {
        self.slots@
    }

    /// The buffer slots, in slot order.
    pub closed spec fn active_view(&self) -> Seq<u16> {
        self.active_slots@
    }

    /// Entry `j` pairs tag `t` with slot `s`.
    pub open spec fn has_entry(&self, t: u8, s: u16) -> bool {
        exists|j: int| 0 <= j < self.slots_view().len() && self.tags_view()[j] == t && self.slots_view()[j] == s
    }

    /// Shape: the arrays agree in length, tags are sorted and the slot-ordered
    /// array holds the same slots.
    pub closed spec fn wf(&self) -> bool {
        &&& self.tags@.len() == self.len
        &&& self.slots@.len() == self.len
        &&& self.active_slots@.len() == self.len
        &&& forall|i: int, j: int| 0 <= i <= j < self.len ==> self.tags@[i] <= self.tags@[j]
        &&& nondecreasing(self.active_slots@)
        &&& self.active_slots@.to_multiset() == self.slots@.to_multiset()
    }

    /// The arrays of a well-formed snapshot agree in length.
    pub proof fn lemma_wf_lens(&self)
        requires
            self.wf(),
        ensures
            self.tags_view().len() == self.slots_view().len(),
            self.active_view().len() == self.slots_view().len(),
    {
    }

    /// Every slot of the slot-ordered array is the slot of some entry.
    pub proof fn lemma_active_in_slots(&self, p: int)
        requires
            self.wf(),
            0 <= p < self.active_view().len(),
        ensures
            exists|j: int| 0 <= j < self.slots_view().len() && self.slots_view()[j] == self.active_view()[p],
    {
        let x = self.active_slots@[p];
        vstd::seq_lib::to_multiset_contains(self.active_slots@, x);
        vstd::seq_lib::to_multiset_contains(self.slots@, x);
        assert(self.active_slots@.contains(x));
        assert(self.active_slots@.to_multiset().count(x) > 0);
        assert(self.slots@.to_multiset().count(x) > 0);
        assert(self.slots@.contains(x));
        let j = choose|j: int| 0 <= j < self.slots@.len() && self.slots@[j] == x;
        assert(self.slots_view()[j] == self.active_view()[p]);
    }

    /// Every entry's slot is in the slot-ordered array.
    pub proof fn lemma_slot_in_active(&self, j: int)
        requires
            self.wf(),
            0 <= j < self.slots_view().len(),
        ensures
            exists|p: int| 0 <= p < self.active_view().len() && self.active_view()[p] == self.slots_view()[j],
    {
        let x = self.slots@[j];
        vstd::seq_lib::to_multiset_contains(self.active_slots@, x);
        vstd::seq_lib::to_multiset_contains(self.slots@, x);
        assert(self.slots@.contains(x));
        assert(self.slots@.to_multiset().count(x) > 0);
        assert(self.active_slots@.to_multiset().count(x) > 0);
        assert(self.active_slots@.contains(x));
        let p = choose|p: int| 0 <= p < self.active_slots@.len() && self.active_slots@[p] == x;
        assert(self.active_view()[p] == self.slots_view()[j]);
    }

    /// The empty snapshot.
    pub fn empty() -> (r: Self)
        ensures
            r.wf(),
            r.slots_view().len() == 0,
    {
        let r = ReadTinyMap { len: 0, tags: Vec::new(), slots: Vec::new(), active_slots: Vec::new() };
        proof {
            assert(r.active_slots@ =~= r.slots@);
        }
        r
    }

    /// Get the number of entries in the map.
    pub fn len(&self) -> (r: usize)
        requires
            self.wf(),
        ensures
            r == self.slots_view().len(),
    {
        self.len
    }

    /// Build a snapshot holding one entry per upsert item: its tag and its
    /// slot. Tombstone items are left out.
    pub fn new(items: Vec<TinyMapItem>) -> (r: Self)
        requires
            forall|i: int| 0 <= i < items@.len() ==> (#[trigger] items@[i]).2 <= u16::MAX,
        ensures
            r.wf(),
            r.slots_view().len() == num_upserts(items@),
            forall|j: int| 0 <= j < r.slots_view().len() ==> from_upsert_item(items@, r.tags_view()[j], #[trigger] r.slots_view()[j]),
            forall|i: int| 0 <= i < items@.len() && (#[trigger] items@[i]).3 == 0
                ==> r.has_entry(items@[i].0, items@[i].2 as u16),
            exists|src: Seq<int>| entries_from_items(r.tags_view(), r.slots_view(), items@, src),
    {
        // Entries sorted by tag: each upsert item is inserted after every
        // entry whose tag is not greater than its own. `src` names the item
        // of each entry, `at` the entry of each upsert item.
        let mut tags: Vec<u8> = Vec::new();
        let mut slots: Vec<u16> = Vec::new();
        let mut i: usize = 0;
        let ghost mut src: Seq<int> = Seq::empty();
        let ghost mut at: Seq<int> = Seq::empty();
        proof {
            assert(items@.take(0) =~= Seq::<TinyMapItem>::empty());
        }
        while i < items.len()
            invariant
                0 <= i <= items@.len(),
                forall|k: int| 0 <= k < items@.len() ==> (#[trigger] items@[k]).2 <= u16::MAX,
                tags@.len() == slots@.len(),
                src.len() == slots@.len(),
                at.len() == i,
                tags@.len() == num_upserts(items@.take(i as int)),
                forall|a: int, b: int| 0 <= a <= b < tags@.len() ==> tags@[a] <= tags@[b],
                forall|j: int| 0 <= j < slots@.len() ==> {
                    let k = #[trigger] src[j];
                    &&& 0 <= k < i
                    &&& items@[k].3 == 0
                    &&& items@[k].0 == tags@[j]
                    &&& items@[k].2 == slots@[j]
                },
                forall|k: int| 0 <= k < i && items@[k].3 == 0 ==> {
                    let j = #[trigger] at[k];
                    &&& 0 <= j < slots@.len()
                    &&& tags@[j] == items@[k].0
                    &&& slots@[j] == items@[k].2 as u16
                    &&& src[j] == k
                },
                forall|j: int| 0 <= j < slots@.len() ==> at[#[trigger] src[j]] == j,
            decreases items@.len() - i,
        {
            proof {
                assert(items@.take(i + 1).drop_last() =~= items@.take(i as int));
            }
            let item = items[i];
            if item.3 == 0 {
                let mut pos: usize = 0;
                while pos < tags.len() && tags[pos] <= item.0
                    invariant
                        0 <= pos <= tags@.len(),
                        forall|a: int| 0 <= a < pos ==> tags@[a] <= item.0,
                    decreases tags@.len() - pos,
                {
                    pos = pos + 1;
                }
                let ghost t0 = tags@;
                let ghost s0 = slots@;
                let ghost src0 = src;
                let ghost at0 = at;
                tags.insert(pos, item.0);
                slots.insert(pos, item.2 as u16);
                proof {
                    src = src0.insert(pos as int, i as int);
                    at = Seq::new((i + 1) as nat, |k: int| if k == i { pos as int } else if at0[k] >= pos { at0[k] + 1 } else { at0[k] });
                    assert forall|j: int| 0 <= j < slots@.len() implies {
                        let k = #[trigger] src[j];
                        &&& 0 <= k < i + 1
                        &&& items@[k].3 == 0
                        &&& items@[k].0 == tags@[j]
                        &&& items@[k].2 == slots@[j]
                    } by {
                        if j < pos {
                            assert(src[j] == src0[j] && tags@[j] == t0[j] && slots@[j] == s0[j]);
                        } else if j > pos {
                            assert(src[j] == src0[j - 1] && tags@[j] == t0[j - 1] && slots@[j] == s0[j - 1]);
                        }
                    }
                    assert forall|k: int| 0 <= k < i + 1 && items@[k].3 == 0 implies {
                        let j = #[trigger] at[k];
                        &&& 0 <= j < slots@.len()
                        &&& tags@[j] == items@[k].0
                        &&& slots@[j] == items@[k].2 as u16
                        &&& src[j] == k
                    } by {
                        if k < i {
                            let j0 = at0[k];
                            if j0 >= pos {
                                assert(tags@[j0 + 1] == t0[j0] && slots@[j0 + 1] == s0[j0]);
                                assert(src[j0 + 1] == src0[j0]);
                            } else {
                                assert(tags@[j0] == t0[j0] && slots@[j0] == s0[j0]);
                                assert(src[j0] == src0[j0]);
                            }
                        }
                    }
                    assert forall|j: int| 0 <= j < slots@.len() implies at[#[trigger] src[j]] == j by {
                        if j < pos {
                            assert(src[j] == src0[j]);
                            assert(at0[src0[j]] == j);
                        } else if j > pos {
                            assert(src[j] == src0[j - 1]);
                            assert(at0[src0[j - 1]] == j - 1);
                        }
                    }
                    assert forall|a: int, b: int| 0 <= a <= b < tags@.len() implies tags@[a] <= tags@[b] by {
                        if a < pos && b > pos {
                            assert(tags@[a] == t0[a] && tags@[b] == t0[b - 1]);
                        } else if a == pos && b > pos {
                            assert(tags@[b] == t0[b - 1]);
                        } else if a > pos {
                            assert(tags@[a] == t0[a - 1] && tags@[b] == t0[b - 1]);
                        } else if b < pos {
                            assert(tags@[a] == t0[a] && tags@[b] == t0[b]);
                        }
                    }
                }
            } else {
                proof {
                    at = at.push(0);
                }
            }
            i = i + 1;
        }
        proof {
            assert(items@.take(items@.len() as int) =~= items@);
        }
        let active = sorted_copy(&slots);
        let len = tags.len();
        let r = ReadTinyMap { len, tags, slots, active_slots: active };
        proof {
            assert forall|j: int| 0 <= j < r.slots_view().len() implies from_upsert_item(items@, r.tags_view()[j], #[trigger] r.slots_view()[j]) by {
                let k = src[j];
                assert(items@[k].2 == r.slots_view()[j]);
            }
            assert forall|k: int| 0 <= k < items@.len() && (#[trigger] items@[k]).3 == 0
                implies r.has_entry(items@[k].0, items@[k].2 as u16) by {
                let j = at[k];
                assert(r.tags_view()[j] == items@[k].0 && r.slots_view()[j] == items@[k].2 as u16);
            }
            assert forall|a: int, b: int| 0 <= a < b < src.len() implies #[trigger] src[a] != #[trigger] src[b] by {
                assert(at[src[a]] == a);
                assert(at[src[b]] == b);
            }
            assert forall|k: int| 0 <= k < items@.len() && (#[trigger] items@[k]).3 == 0 implies exists|j: int| 0 <= j < src.len() && src[j] == k by {
                assert(src[at[k]] == k);
            }
            assert(entries_from_items(r.tags_view(), r.slots_view(), items@, src));
        }
        r
    }

    /// Calculate the total size needed for a TinyMap with `len` entries: the
    /// tag bytes, then the two slot arrays, each 2-byte aligned.
    pub fn calculate_size(len: usize) -> (r: usize)
        requires
            len <= usize::MAX / 8,
        ensures
            r == spec_tinymap_size(len as nat),
            len == 0 ==> r == 0,
            len > 0 ==> r == len + len % 2 + 2 * len + 2 * len,
    {
        if len == 0 {
            return 0;
        }
        proof {
            crate::pow2::lemma_two_is_pow2();
        }
        let tags_size = len;
        let slots_offset = align_up(tags_size, 2);
        assert(slots_offset == len + len % 2);
        let active_offset = slots_offset + (len * 2);
        assert(active_offset % 2 == 0);
        let active_offset_aligned = align_up(active_offset, 2);
        assert(active_offset_aligned == active_offset);
        active_offset_aligned + (len * 2)
    }

    /// Get count of entries.
    pub fn count(&self) -> (r: usize)
        requires
            self.wf(),
        ensures
            r == self.slots_view().len(),
    {
        self.len
    }

    /// Active slots sorted by slot index for sequential iteration.
    pub fn slots(&self) -> (r: &[u16])
        ensures
            r@ == self.active_view(),
    {
        self.active_slots.as_slice()
    }

    /// All buffer slot indices, in slot order.
    pub fn iter(&self) -> (r: Vec<u16>)
        ensures
            r@ == self.active_view(),
    {
        let mut out: Vec<u16> = Vec::new();
        let mut i: usize = 0;
        while i < self.active_slots.len()
            invariant
                0 <= i <= self.active_slots@.len(),
                out@ == self.active_slots@.take(i as int),
            decreases self.active_slots@.len() - i,
        {
            proof {
                assert(self.active_slots@.take(i + 1) =~= self.active_slots@.take(i as int).push(self.active_slots@[i as int]));
            }
            out.push(self.active_slots[i]);
            i = i + 1;
        }
        proof {
            assert(self.active_slots@.take(self.active_slots@.len() as int) =~= self.active_slots@);
        }
        out
    }

    /// Buffer slot indices whose tag is `tag8`, found by binary search on
    /// the sorted tags; they form one run of the entries.
    pub fn iter_tags(&self, tag8: u8) -> (r: Vec<u16>)
        requires
            self.wf(),
        ensures
            exists|start: int, end: int| #![trigger self.slots_view().subrange(start, end)] 0 <= start <= end <= self.slots_view().len()
                && r@ == self.slots_view().subrange(start, end)
                && forall|j: int| 0 <= j < self.slots_view().len() ==> (self.tags_view()[j] == tag8 <==> start <= j < end),
            r@ == tag_matches(self.tags_view(), self.slots_view(), tag8, 0),
    {
        let n = self.tags.len();
        // First entry whose tag is not below `tag8`.
        let mut lo: usize = 0;
        let mut hi: usize = n;
        while lo < hi
            invariant
                self.wf(),
                n == self.tags@.len(),
                0 <= lo <= hi <= n,
                forall|j: int| 0 <= j < lo ==> self.tags@[j] < tag8,
                forall|j: int| hi <= j < n ==> self.tags@[j] >= tag8,
            decreases hi - lo,
        {
            let mid = lo + (hi - lo) / 2;
            if self.tags[mid] < tag8 {
                lo = mid + 1;
            } else {
                hi = mid;
            }
        }
        let start = lo;
        if start >= n || self.tags[start] != tag8 {
            let r: Vec<u16> = Vec::new();
            proof {
                assert(r@ =~= self.slots_view().subrange(0, 0));
                assert forall|j: int| 0 <= j < n implies !(self.tags@[j] == tag8) by {
                    if j >= start {
                        assert(self.tags@[start as int] <= self.tags@[j]);
                    }
                }
                lemma_tag_run(self.tags@, self.slots@, tag8, 0, 0, 0);
            }
            return r;
        }
        // End of the run of entries tagged `tag8`.
        let mut end: usize = start;
        let mut out: Vec<u16> = Vec::new();
        while end < n && self.tags[end] == tag8
            invariant
                self.wf(),
                n == self.tags@.len(),
                start <= end <= n,
                forall|j: int| start <= j < end ==> self.tags@[j] == tag8,
                out@ == self.slots@.subrange(start as int, end as int),
            decreases n - end,
        {
            out.push(self.slots[end]);
            end = end + 1;
            proof {
                assert(out@ =~= self.slots@.subrange(start as int, end as int));
            }
        }
        proof {
            assert forall|j: int| 0 <= j < n implies (self.tags@[j] == tag8 <==> start <= j < end) by {
                if j >= end && end < n {
                    assert(self.tags@[end as int] <= self.tags@[j]);
                    assert(self.tags@[end as int] >= tag8);
                }
            }
            assert(out@ == self.slots_view().subrange(start as int, end as int));
            lemma_tag_run(self.tags@, self.slots@, tag8, 0, start as int, end as int);
        }
        out
    }

    /// Iterator over buffer slot indices whose tag is `tag8`, by linear scan.
    pub fn iter_tags_linear(&self, tag8: u8) -> (r: TagMatchIter<'_>)
        ensures
            r.tags@ == self.tags_view(),
            r.slots@ == self.slots_view(),
            r.target_tag == tag8,
            r.pos == 0,
    {
        TagMatchIter { tags: self.tags.as_slice(), slots: self.slots.as_slice(), target_tag: tag8, pos: 0 }
    }
}

/// Size in bytes of a snapshot with `len` entries.
pub open spec fn spec_tinymap_size(len: nat) -> nat {
    if len == 0 {
        0
    } else {
        let slots_offset = len + len % 2;
        slots_offset + 4 * len
    }
}

/// Copy of `v` in nondecreasing order, by insertion.
fn sorted_copy(v: &Vec<u16>) -> (r: Vec<u16>)
    ensures
        nondecreasing(r@),
        r@.to_multiset() == v@.to_multiset(),
        r@.len() == v@.len(),
{
    broadcast use vstd::seq_lib::group_to_multiset_ensures;
    let mut out: Vec<u16> = Vec::new();
    let mut i: usize = 0;
    while i < v.len()
        invariant
            0 <= i <= v@.len(),
            nondecreasing(out@),
            out@.to_multiset() == v@.take(i as int).to_multiset(),
            out@.len() == i,
        decreases v@.len() - i,
    {
        let x = v[i];
        let mut pos: usize = 0;
        while pos < out.len() && out[pos] <= x
            invariant
                0 <= pos <= out@.len(),
                forall|a: int| 0 <= a < pos ==> out@[a] <= x,
            decreases out@.len() - pos,
        {
            pos = pos + 1;
        }
        let ghost o0 = out@;
        out.insert(pos, x);
        proof {
            vstd::seq_lib::to_multiset_insert(o0, pos as int, x);
            assert(v@.take(i + 1) =~= v@.take(i as int).push(x));
            vstd::seq_lib::to_multiset_build(v@.take(i as int), x);
            assert forall|a: int, b: int| 0 <= a <= b < out@.len() implies out@[a] <= out@[b] by {
                if a < pos && b > pos {
                    assert(out@[a] == o0[a] && out@[b] == o0[b - 1]);
                } else if a == pos && b > pos {
                    assert(out@[b] == o0[b - 1]);
                    if pos < o0.len() {
                        assert(o0[pos as int] > x);
                    }
                }
            }
        }
        i = i + 1;
    }
    proof {
        assert(v@.take(v@.len() as int) =~= v@);
    }
    out
}

/// Iterator over the buffer slots of the entries whose tag matches, in entry
/// order, by linear scan.
pub struct TagMatchIter<'a> {
    /// The snapshot's tags.
    pub tags: &'a [u8],
    /// The snapshot's slots.
    pub slots: &'a [u16],
    /// The tag looked for.
    pub target_tag: u8,
    /// Next entry to examine.
    pub pos: usize,
}

impl<'a> TagMatchIter<'a> {
    /// The slot of the next entry, from `pos` on, whose tag matches.
    pub fn next(&mut self) -> (r: Option<u16>)
        requires
            old(self).tags@.len() == old(self).slots@.len(),
        ensures
            final(self).tags == old(self).tags,
            final(self).slots == old(self).slots,
            final(self).target_tag == old(self).target_tag,
            old(self).pos <= final(self).pos <= final(self).tags@.len() || final(self).pos == old(self).pos,
            forall|j: int| old(self).pos <= j < final(self).pos - (if r is Some { 1int } else { 0int })
                ==> old(self).tags@[j] != old(self).target_tag,
            r is Some ==> old(self).pos < final(self).pos <= final(self).tags@.len(),
            r matches Some(s) ==> final(self).pos >= 1 && old(self).tags@[final(self).pos - 1] == old(self).target_tag
                && s == old(self).slots@[final(self).pos - 1],
            r is None ==> final(self).pos >= final(self).tags@.len(),
            tag_matches(old(self).tags@, old(self).slots@, old(self).target_tag, old(self).pos as int) == (match r {
                Some(s) => seq![s] + tag_matches(old(self).tags@, old(self).slots@, old(self).target_tag, final(self).pos as int),
                None => Seq::<u16>::empty(),
            }),
    {
        while self.pos < self.tags.len()
            invariant
                self.tags == old(self).tags,
                self.slots == old(self).slots,
                self.target_tag == old(self).target_tag,
                self.tags@.len() == self.slots@.len(),
                old(self).pos <= self.pos <= self.tags@.len() || self.pos == old(self).pos,
                forall|j: int| old(self).pos <= j < self.pos ==> old(self).tags@[j] != old(self).target_tag,
                tag_matches(self.tags@, self.slots@, self.target_tag, old(self).pos as int)
                    == tag_matches(self.tags@, self.slots@, self.target_tag, self.pos as int),
            decreases self.tags@.len() - self.pos,
        {
            let i = self.pos;
            self.pos = self.pos + 1;
            if self.tags[i] == self.target_tag {
                return Some(self.slots[i]);
            }
        }
        None
    }
}

} // verus!
