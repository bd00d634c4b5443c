# massive_graph_core

Core in-memory data structures of the Massive Graph storage engine, written in
Verus with their contracts proved.

- `src/mph_delta_index/`: a minimal-perfect-hash (BBHash-style) base index with
  a small mutable delta in front of it, the radix delta maps that hold recent
  writes, the bookkeeping of a bump arena (offsets and counters; it hands
  out no memory), tiny sorted tag maps, a Bloom filter, epoch statistics
  and debug-filter configuration.
- `src/optimised_index/`: the open-addressing radix delta directory, and the
  two-tier index that overlays it on a published snapshot and applies a
  stream of delta operations to it.
- `src/segmented_stream.rs`: an append-only stream of fixed-size pages with a
  page pool and cursors.
- `src/spsc.rs`: a single-producer single-consumer ring buffer with batched
  producer and consumer handles.
- `src/pow2.rs`, `src/ids.rs`, `src/config.rs`: power-of-two arithmetic, key
  encodings and storage configuration.
- `src/storage.rs`, `src/delta.rs`: the document storage trait with the
  zero-copy backend, and delta application.
- `src/connection_manager.rs`: a node's peer connections and their
  lifecycle status, held in a `dashmap::DashMap`.
- `src/user_space.rs`: a user's space: the document index (the two-tier
  index over an empty snapshot), subscriptions, connections, queues and
  counters.
- `app/`: what is not verified: configuration files (serde/toml), environment
  lookups, logging, background pool threads, floating-point reports and the
  bincode wire format of the control channel.
- `tests/`: executable tests of the library.

Hashing goes through `ahash` behind two trusted wrappers in
`src/mph_delta_index/util.rs`, and the connection table through `dashmap`
behind the trusted wrappers of `src/connection_manager.rs`; everything else in
`src/` is verified.
