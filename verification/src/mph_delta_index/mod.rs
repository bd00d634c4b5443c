//! Minimal-perfect-hash base index with a radix delta overlay.
pub mod util;
pub mod epoch_tracker;
pub mod debug_config;
pub mod mph_indexer;
pub mod mph_index;
pub mod arena;
pub mod tiny_map;
pub mod radix_stats;
pub mod radix_index;
pub mod radix_index_v2;
pub mod bloom;
pub mod optimised_index;

pub use optimised_index::{OptimisedIndex, OptimisedIndexGen, OptimisedIndexStats};
