//! Open-addressing radix delta directory with tombstones, and the two-tier
//! index that overlays it on a published snapshot.
pub mod radix_delta;
pub mod snapshot_index;
