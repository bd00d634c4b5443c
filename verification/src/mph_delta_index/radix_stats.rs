//! Counting statistics of the radix delta index.
use vstd::prelude::*;
use crate::mph_delta_index::arena::ArenaStats;

verus! {

/// Per-bucket statistics.
#[derive(Debug, Clone, Copy, PartialEq, Eq)]
pub struct BucketStats {
    /// Bucket index
    pub bucket_idx: usize,
    /// Number of unique keys whose latest record is an upsert (tombstoned keys excluded)
    pub key_count: usize,
    /// Total number of records in the buffer (upserts and tombstones)
    pub total_records: usize,
    /// Current buffer capacity (slots allocated)
    pub buffer_capacity: usize,
    /// Number of entries in the snapshot
    pub tinymap_size: usize,
    /// Number of times the buffer was grown
    pub growth_count: usize,
    /// Number of tag values carried by more than one upsert record
    pub tag8_collisions: usize,
    /// Number of distinct tag values among the upsert records
    pub unique_tags: usize,
}

/// Radix index statistics: configuration, usage counts and per-bucket detail.
#[derive(Debug, Clone)]
pub struct RadixIndexStats {
    /// Total number of buckets (configured)
    pub total_buckets: usize,
    /// Number of bits used for bucket indexing
    pub bucket_bits: u32,
    /// Number of buckets holding at least one live key
    pub active_buckets: usize,
    /// Live keys (latest record an upsert) across all buckets
    pub total_keys: usize,
    /// Largest number of live keys in a bucket
    pub max_bucket_depth: usize,
    /// Smallest nonzero number of live keys in a bucket
    pub min_bucket_depth: usize,
    /// Allocation stats for the buffers and snapshots
    pub hotpath_arena: ArenaStats,
    /// Kept beside `hotpath_arena` for compatibility
    pub buffer_arena: ArenaStats,
    /// Kept beside `hotpath_arena` for compatibility
    pub record_arena: ArenaStats,
    /// Detailed stats for each active bucket
    pub bucket_details: Vec<BucketStats>,
}

/// Sum of the key counts, saturating at `usize::MAX`.
pub open spec fn depth_sum(d: Seq<BucketStats>) -> nat
    decreases d.len(),
{
    if d.len() == 0 {
        0
    } else {
        depth_sum(d.drop_last()) + d.last().key_count as nat
    }
}

/// Number of buckets with a nonzero key count.
pub open spec fn nonzero_count(d: Seq<BucketStats>) -> nat
    decreases d.len(),
{
    if d.len() == 0 {
        0
    } else {
        nonzero_count(d.drop_last()) + if d.last().key_count > 0 { 1nat } else { 0nat }
    }
}

/// `m` is the largest key count.
pub open spec fn is_max_depth(d: Seq<BucketStats>, m: usize) -> bool {
    &&& forall|i: int| 0 <= i < d.len() ==> (#[trigger] d[i]).key_count <= m
    &&& exists|i: int| 0 <= i < d.len() && (#[trigger] d[i]).key_count == m
}

/// `m` is the smallest nonzero key count.
pub open spec fn is_min_nonzero_depth(d: Seq<BucketStats>, m: usize) -> bool {
    &&& forall|i: int| 0 <= i < d.len() && (#[trigger] d[i]).key_count > 0 ==> m <= d[i].key_count
    &&& exists|i: int| 0 <= i < d.len() && (#[trigger] d[i]).key_count == m && m > 0
}

impl RadixIndexStats {
    /// Derive the totals from the bucket details: total keys (saturating),
    /// buckets in use, and the largest and smallest nonzero bucket depths.
    /// Leaves everything unchanged when there are no details.
    pub fn calculate_derived_stats(&mut self)
        ensures
            final(self).total_buckets == old(self).total_buckets,
            final(self).bucket_bits == old(self).bucket_bits,
            final(self).hotpath_arena == old(self).hotpath_arena,
            final(self).buffer_arena == old(self).buffer_arena,
            final(self).record_arena == old(self).record_arena,
            final(self).bucket_details@ == old(self).bucket_details@,
            old(self).bucket_details@.len() == 0 ==> final(self).total_keys == old(self).total_keys
                && final(self).active_buckets == old(self).active_buckets
                && final(self).max_bucket_depth == old(self).max_bucket_depth
                && final(self).min_bucket_depth == old(self).min_bucket_depth,
            old(self).bucket_details@.len() > 0 ==> {
                let d = old(self).bucket_details@;
                &&& final(self).total_keys == (if depth_sum(d) > usize::MAX { usize::MAX as nat } else { depth_sum(d) })
                &&& final(self).active_buckets == nonzero_count(d)
                &&& (nonzero_count(d) > 0 ==> is_max_depth(d, final(self).max_bucket_depth)
                    && is_min_nonzero_depth(d, final(self).min_bucket_depth))
                &&& (nonzero_count(d) == 0 ==> final(self).max_bucket_depth == old(self).max_bucket_depth
                    && final(self).min_bucket_depth == old(self).min_bucket_depth)
            },
    {
        let n = self.bucket_details.len();
        if n == 0 {
            return;
        }
        let mut total: usize = 0;
        let mut active: usize = 0;
        let mut maxd: usize = 0;
        let mut mind: usize = 0;
        let mut i: usize = 0;
        while i < n
            invariant
                n == self.bucket_details@.len(),
                0 <= i <= n,
                total == (if depth_sum(self.bucket_details@.take(i as int)) > usize::MAX { usize::MAX as nat } else { depth_sum(self.bucket_details@.take(i as int)) }),
                active == nonzero_count(self.bucket_details@.take(i as int)),
                active <= i,
                active == 0 ==> forall|j: int| 0 <= j < i ==> (#[trigger] self.bucket_details@[j]).key_count == 0,
                forall|j: int| 0 <= j < i ==> (#[trigger] self.bucket_details@[j]).key_count <= maxd,
                i > 0 ==> exists|j: int| 0 <= j < i && (#[trigger] self.bucket_details@[j]).key_count == maxd,
                forall|j: int| 0 <= j < i && (#[trigger] self.bucket_details@[j]).key_count > 0 ==> mind <= self.bucket_details@[j].key_count,
                active > 0 ==> exists|j: int| 0 <= j < i && (#[trigger] self.bucket_details@[j]).key_count == mind && mind > 0,
            decreases n - i,
        {
            let d = self.bucket_details[i].key_count;
            proof {
                assert(self.bucket_details@.take(i + 1).drop_last() =~= self.bucket_details@.take(i as int));
            }
            total = total.saturating_add(d);
            if d > 0 {
                if active == 0 || d < mind {
                    mind = d;
                }
                active = active + 1;
            }
            if i == 0 || d > maxd {
                maxd = d;
            }
            i = i + 1;
        }
        proof {
            assert(self.bucket_details@.take(n as int) =~= self.bucket_details@);
        }
        self.total_keys = total;
        self.active_buckets = active;
        if active > 0 {
            self.max_bucket_depth = maxd;
            self.min_bucket_depth = mind;
        }
    }
}

} // verus!
