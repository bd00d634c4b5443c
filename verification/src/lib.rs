//! Core data structures of the Massive Graph database: a minimal-perfect-hash
//! index with radix delta overlays, an append-only segmented stream, a
//! bounded single-producer single-consumer ring, and the storage settings
//! and counters around them.
pub mod ids;
pub mod pow2;
pub mod mph_delta_index;
pub mod optimised_index;
pub mod segmented_stream;
pub mod spsc;
pub mod config;
pub mod delta;
pub mod storage;
pub mod connection_manager;
pub mod user_space;
