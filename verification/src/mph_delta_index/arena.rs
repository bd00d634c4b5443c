//! Bump allocator over fixed-size regions, with allocation statistics.
use vstd::prelude::*;
use crate::pow2::{is_pow2, lemma_pow2_mask};

verus! {

/// Statistics for arena allocations.
#[derive(Debug, Clone, Copy, PartialEq, Eq)]
pub struct ArenaStats {
    /// Total bytes allocated from regions
    pub bytes_allocated: usize,
    /// Total bytes allocated directly (oversized)
    pub bytes_large: usize,
    /// Number of region allocations
    pub num_regions: usize,
    /// Number of large (direct) allocations
    pub num_large: usize,
    /// Number of retired allocations
    pub num_retired: usize,
    /// Total bytes retired
    pub bytes_retired: usize,
}

impl ArenaStats {
    /// Create empty stats.
    pub fn empty() -> (r: Self)
        ensures
            r.bytes_allocated == 0,
            r.bytes_large == 0,
            r.num_regions == 0,
            r.num_large == 0,
            r.num_retired == 0,
            r.bytes_retired == 0,
    {
        ArenaStats { bytes_allocated: 0, bytes_large: 0, num_regions: 0, num_large: 0, num_retired: 0, bytes_retired: 0 }
    }

    /// Total bytes (regions + large allocations).
    pub fn total_bytes(&self) -> (r: usize)
        requires
            self.bytes_allocated + self.bytes_large <= usize::MAX,
        ensures
            r == self.bytes_allocated + self.bytes_large,
    {
        self.bytes_allocated + self.bytes_large
    }
}

/// The smallest multiple of `align` that is at least `size`.
pub open spec fn spec_align_up(size: nat, align: nat) -> nat {
    if size % align == 0 {
        size
    } else {
        (size - size % align + align) as nat
    }
}

/// Align a size up to the specified power-of-two alignment.
pub fn align_up(size: usize, align: usize) -> (r: usize)
    requires
        is_pow2(align),
        size + align - 1 <= usize::MAX,
    ensures
        r == spec_align_up(size as nat, align as nat),
        r % align == 0,
        size <= r < size + align,
{
    proof {
        lemma_pow2_mask(align);
    }
    let y: usize = size + (align - 1);
    let m: usize = align - 1;
    let r = y & !m;
    proof {
        assert(y & !m == y - (y & m)) by (bit_vector);
        assert((y & m) == y % align);
        assert((y - y % align) % (align as int) == 0) by {
            vstd::arithmetic::div_mod::lemma_fundamental_div_mod(y as int, align as int);
            vstd::arithmetic::div_mod::lemma_mod_multiples_basic(y as int / align as int, align as int);
        }
        if size % align == 0 {
            vstd::arithmetic::div_mod::lemma_mod_add_multiples_vanish((align - 1) as int, align as int);
            assert(((size as int) + (align - 1)) % (align as int) == (align - 1) as int) by {
                vstd::arithmetic::div_mod::lemma_fundamental_div_mod(size as int, align as int);
                vstd::arithmetic::div_mod::lemma_mod_multiples_vanish(size as int / align as int, (align - 1) as int, align as int);
                vstd::arithmetic::div_mod::lemma_small_mod((align - 1) as nat, align as nat);
            }
        } else {
            assert(((size as int) + (align - 1)) % (align as int) == (size % align) - 1) by {
                vstd::arithmetic::div_mod::lemma_fundamental_div_mod(size as int, align as int);
                vstd::arithmetic::div_mod::lemma_mod_multiples_vanish(size as int / align as int, (size % align + align - 1) as int, align as int);
                vstd::arithmetic::div_mod::lemma_mod_add_multiples_vanish((size % align - 1) as int, align as int);
                vstd::arithmetic::div_mod::lemma_small_mod((size % align - 1) as nat, align as nat);
            }
        }
    }
    r
}

/// A request of `size` bytes aligned to `align` fits in the current region
/// after its bump offset.
pub open spec fn fits_current(current: Option<usize>, size: usize, align: usize, region_size: usize) -> bool {
    &&& current is Some
    &&& current->Some_0 + align - 1 <= usize::MAX
    &&& spec_align_up(current->Some_0 as nat, align as nat) + size <= region_size
}

/// Requests above this size are refused as pathological.
pub const MAX_REASONABLE_SIZE: usize = 52428800;

/// Where an allocation landed: in a region at an offset, or on its own.
#[derive(Debug, Clone, Copy, PartialEq, Eq)]
pub struct ArenaBlock {
    /// Whether the request was larger than a region and allocated on its own.
    pub large: bool,
    /// Number of the region (counting from 0), for a region allocation.
    pub region: usize,
    /// Offset within the region, for a region allocation.
    pub offset: usize,
    /// Size of the allocation.
    pub size: usize,
}

/// Simple bump allocator: requests are carved from the current region, a new
/// region is started when one does not fit, and requests larger than a region
/// are allocated on their own.
pub struct Arena {
    /// Bump offset in the current region; `None` before the first region.
    current: Option<usize>,
    /// Size of each region (bytes).
    region_size: usize,
    bytes_allocated: usize,
    bytes_large: usize,
    num_regions: usize,
    num_large: usize,
    num_retired: usize,
    bytes_retired: usize,
}

impl Arena {
    /// The counters, as [`Arena::stats`] reports them.
    pub closed spec fn stats_view(&self) -> ArenaStats {
        ArenaStats {
            bytes_allocated: self.bytes_allocated,
            bytes_large: self.bytes_large,
            num_regions: self.num_regions,
            num_large: self.num_large,
            num_retired: self.num_retired,
            bytes_retired: self.bytes_retired,
        }
    }

    /// Bump offset in the current region, if a region was started.
    pub closed spec fn current_view(&self) -> Option<usize> {
        self.current
    }

    /// Size of each region.
    pub closed spec fn region_size_view(&self) -> usize {
        self.region_size
    }

    /// The bump offset stays within the current region.
    pub closed spec fn wf(&self) -> bool {
        self.current matches Some(off) ==> off <= self.region_size
    }

    /// Create a new arena with the specified region size.
    pub fn new(region_size: usize) -> (r: Self)
        ensures
            r.wf(),
            r.region_size_view() == region_size,
            r.current_view() is None,
            r.stats_view() == (ArenaStats { bytes_allocated: 0, bytes_large: 0, num_regions: 0, num_large: 0, num_retired: 0, bytes_retired: 0 }),
    {
        Arena {
            current: None,
            region_size,
            bytes_allocated: 0,
            bytes_large: 0,
            num_regions: 0,
            num_large: 0,
            num_retired: 0,
            bytes_retired: 0,
        }
    }

    /// Current statistics snapshot.
    pub fn stats(&self) -> (r: ArenaStats)
        ensures
            r == self.stats_view(),
    {
        ArenaStats {
            bytes_allocated: self.bytes_allocated,
            bytes_large: self.bytes_large,
            num_regions: self.num_regions,
            num_large: self.num_large,
            num_retired: self.num_retired,
            bytes_retired: self.bytes_retired,
        }
    }

    /// Allocate `size` bytes aligned to `align`. A request larger than a
    /// region is allocated on its own; otherwise it is placed at the first
    /// aligned offset of the current region, or at the start of a new region
    /// when it does not fit there.
    pub fn alloc_bytes(&mut self, size: usize, align: usize) -> (r: ArenaBlock)
        requires
            old(self).wf(),
            size <= MAX_REASONABLE_SIZE,
            is_pow2(align),
        ensures
            final(self).wf(),
            final(self).region_size_view() == old(self).region_size_view(),
            r.size == size,
            r.large == (size > old(self).region_size_view()),
            r.large ==> {
                &&& final(self).stats_view() == (ArenaStats {
                    bytes_large: vstd::wrapping::usize_specs::wrapping_add(old(self).stats_view().bytes_large, size),
                    num_large: vstd::wrapping::usize_specs::wrapping_add(old(self).stats_view().num_large, 1),
                    ..old(self).stats_view()
                })
                &&& final(self).current_view() == old(self).current_view()
            },
            !r.large ==> {
                &&& r.offset % align == 0
                &&& r.offset + size <= old(self).region_size_view()
                &&& final(self).current_view() == Some((r.offset + size) as usize)
                &&& final(self).stats_view().bytes_allocated == vstd::wrapping::usize_specs::wrapping_add(old(self).stats_view().bytes_allocated, size)
                &&& final(self).stats_view().bytes_large == old(self).stats_view().bytes_large
                &&& final(self).stats_view().num_large == old(self).stats_view().num_large
                &&& final(self).stats_view().num_retired == old(self).stats_view().num_retired
                &&& final(self).stats_view().bytes_retired == old(self).stats_view().bytes_retired
                &&& r.region == vstd::wrapping::usize_specs::wrapping_sub(final(self).stats_view().num_regions, 1)
                &&& (fits_current(old(self).current_view(), size, align, old(self).region_size_view())
                    ==> r.offset == spec_align_up(old(self).current_view()->Some_0 as nat, align as nat)
                        && final(self).stats_view().num_regions == old(self).stats_view().num_regions)
                &&& (!fits_current(old(self).current_view(), size, align, old(self).region_size_view())
                    ==> r.offset == 0
                        && final(self).stats_view().num_regions == vstd::wrapping::usize_specs::wrapping_add(old(self).stats_view().num_regions, 1))
            },
    {
        proof {
            lemma_pow2_mask(align);
        }
        if size > self.region_size {
            self.bytes_large = self.bytes_large.wrapping_add(size);
            self.num_large = self.num_large.wrapping_add(1);
            return ArenaBlock { large: true, region: 0, offset: 0, size };
        }
        if let Some(off) = self.current {
            if off <= usize::MAX - (align - 1) {
                let aligned = align_up(off, align);
                if aligned <= self.region_size - size {
                    self.current = Some(aligned + size);
                    self.bytes_allocated = self.bytes_allocated.wrapping_add(size);
                    return ArenaBlock { large: false, region: self.num_regions.wrapping_sub(1), offset: aligned, size };
                }
            }
        }
        // Start a new region and place the request at its start.
        self.num_regions = self.num_regions.wrapping_add(1);
        self.current = Some(size);
        self.bytes_allocated = self.bytes_allocated.wrapping_add(size);
        proof {
            lemma_pow2_mask(align);
        }
        ArenaBlock { large: false, region: self.num_regions.wrapping_sub(1), offset: 0, size }
    }

    /// Account for an allocation of `size` bytes that was retired.
    pub fn retire_ptr(&mut self, size: usize)
        ensures
            final(self).stats_view() == (ArenaStats {
                num_retired: vstd::wrapping::usize_specs::wrapping_add(old(self).stats_view().num_retired, 1),
                bytes_retired: vstd::wrapping::usize_specs::wrapping_add(old(self).stats_view().bytes_retired, size),
                ..old(self).stats_view()
            }),
            final(self).current_view() == old(self).current_view(),
            final(self).region_size_view() == old(self).region_size_view(),
    {
        self.num_retired = self.num_retired.wrapping_add(1);
        self.bytes_retired = self.bytes_retired.wrapping_add(size);
    }
}

} // verus!
