//! The smaller pieces: hash-derived tags, the bloom filter, the bump arena,
//! the tag-sorted snapshot, radix statistics, epoch counters, the debug
//! configuration, powers of two and identifiers.
use massive_graph_core::ids::{bytes_equal, copy_bytes, IndexKey, ID16, ID32, ID8};
use massive_graph_core::mph_delta_index::arena::{align_up, Arena, ArenaBlock, ArenaStats};
use massive_graph_core::mph_delta_index::bloom::DeltaBloom;
use massive_graph_core::mph_delta_index::debug_config::{contains, is_debug_enabled, DebugConfig};
use massive_graph_core::mph_delta_index::epoch_tracker::{track_defer, EpochStats};
use massive_graph_core::mph_delta_index::mph_index::{MPHIndex, Slot};
use massive_graph_core::mph_delta_index::mph_indexer::{BBHashIndexer, MphIndexer};
use massive_graph_core::mph_delta_index::radix_stats::{BucketStats, RadixIndexStats};
use massive_graph_core::mph_delta_index::tiny_map::ReadTinyMap;
use massive_graph_core::mph_delta_index::util::{
    fp8_from_hash, fpn_from_hash, hash64, mix, preferred_slot_from_hash, tag16_from_hash,
    tag16_from_hash_disjoint, tag8_from_hash_disjoint,
};
use massive_graph_core::mph_delta_index::OptimisedIndex;
use massive_graph_core::pow2::next_power_of_two;
use massive_graph_core::segmented_stream::StreamIndex;

fn key(i: u8) -> ID16 {
    let mut b = [0u8; 16];
    b[0] = i;
    b[15] = 0xA5;
    ID16::from_bytes(b)
}

#[test]
fn hash_tags_take_their_bits() {
    let h: u64 = 0x1122_3344_5566_7788;
    assert_eq!(fp8_from_hash(h), 0x88);
    assert_eq!(tag16_from_hash(h), 0x6677);
    assert_eq!(fpn_from_hash(h, 4), 0x8);
    assert_eq!(fpn_from_hash(h, 12), 0x788);
    assert_eq!(tag16_from_hash_disjoint(h, 8), 0x6677);
    assert_eq!(tag16_from_hash_disjoint(h, 16), 0x5566);
    assert_eq!(tag8_from_hash_disjoint(h, 4), 0x78);
    assert_eq!(preferred_slot_from_hash(h, 0, 8), 0x77);
    assert_eq!(preferred_slot_from_hash(h, 8, 4), 0x6);
}

#[test]
fn mix_is_splitmix64_finalizer() {
    assert_eq!(mix(0), 0xE220A8397B1DCDAF);
    assert_ne!(mix(1), mix(2));
}

#[test]
fn hash64_depends_on_key_bytes() {
    let a = key(1);
    let b = key(2);
    assert_eq!(hash64(&a), hash64(&key(1)));
    assert_ne!(hash64(&a), hash64(&b));
    // The hash is not the identity on the key's bytes.
    assert_ne!(hash64(&5u64), 5);
}

#[test]
fn basic_bloom() {
    let mut b = DeltaBloom::with_capacity(1024);
    let seed123 = hash64(&123u64);
    b.insert_prehashed(seed123);
    assert!(b.might_contain_prehashed(seed123));
    assert!(!b.might_contain_prehashed(hash64(&999u64)));
}

#[test]
fn bloom_has_no_false_negatives_and_clears() {
    let mut b = DeltaBloom::with_params(256, 3);
    let seeds: Vec<u64> = (0..40u64).map(|i| hash64(&i)).collect();
    for &s in &seeds {
        assert!(!b.might_contain_prehashed(s) || seeds.iter().any(|&t| t != s && b.might_contain_prehashed(t)));
        b.insert_prehashed(s);
    }
    for &s in &seeds {
        assert!(b.might_contain_prehashed(s));
    }
    b.clear();
    for &s in &seeds {
        assert!(!b.might_contain_prehashed(s));
    }
    let none = DeltaBloom::with_params(64, 0);
    assert!(none.might_contain_prehashed(7));
}

#[test]
fn align_up_rounds_to_the_alignment() {
    assert_eq!(align_up(0, 8), 0);
    assert_eq!(align_up(1, 8), 8);
    assert_eq!(align_up(8, 8), 8);
    assert_eq!(align_up(9, 8), 16);
    assert_eq!(align_up(13, 1), 13);
    assert_eq!(align_up(17, 16), 32);
}

#[test]
fn arena_bumps_within_regions() {
    let mut a = Arena::new(64);
    assert_eq!(a.stats(), ArenaStats::empty());
    let b1 = a.alloc_bytes(10, 8);
    assert_eq!(b1, ArenaBlock { large: false, region: 0, offset: 0, size: 10 });
    let b2 = a.alloc_bytes(4, 8);
    assert_eq!(b2, ArenaBlock { large: false, region: 0, offset: 16, size: 4 });
    let b3 = a.alloc_bytes(60, 4);
    assert_eq!(b3, ArenaBlock { large: false, region: 1, offset: 0, size: 60 });
    let b4 = a.alloc_bytes(100, 8);
    assert!(b4.large);
    a.retire_ptr(10);
    let s = a.stats();
    assert_eq!(s.bytes_allocated, 74);
    assert_eq!(s.bytes_large, 100);
    assert_eq!(s.num_regions, 2);
    assert_eq!(s.num_large, 1);
    assert_eq!(s.num_retired, 1);
    assert_eq!(s.bytes_retired, 10);
    assert_eq!(s.total_bytes(), 174);
}

#[test]
fn tinymap_size_counts_tags_then_two_aligned_arrays() {
    assert_eq!(ReadTinyMap::calculate_size(0), 0);
    assert_eq!(ReadTinyMap::calculate_size(1), 6);
    assert_eq!(ReadTinyMap::calculate_size(2), 10);
    assert_eq!(ReadTinyMap::calculate_size(3), 16);
}

#[test]
fn tinymap_orders_by_tag_and_by_slot() {
    // (tag, hash, slot, kind): kind 0 is an upsert, anything else a tombstone.
    let items = vec![(9u8, 0u64, 4usize, 0u8), (3, 0, 7, 0), (9, 0, 1, 0), (5, 0, 2, 1), (3, 0, 0, 0)];
    let m = ReadTinyMap::new(items);
    assert_eq!(m.len(), 4);
    assert_eq!(m.count(), 4);
    assert_eq!(m.iter(), vec![0, 1, 4, 7]);
    assert_eq!(m.slots(), &[0, 1, 4, 7]);
    let mut threes = m.iter_tags(3);
    threes.sort_unstable();
    assert_eq!(threes, vec![0, 7]);
    let mut nines = m.iter_tags(9);
    nines.sort_unstable();
    assert_eq!(nines, vec![1, 4]);
    assert!(m.iter_tags(5).is_empty());
    let mut it = m.iter_tags_linear(9);
    let mut linear = Vec::new();
    while let Some(s) = it.next() {
        linear.push(s);
    }
    linear.sort_unstable();
    assert_eq!(linear, vec![1, 4]);
    assert_eq!(ReadTinyMap::empty().len(), 0);
}

fn bucket(idx: usize, keys: usize) -> BucketStats {
    BucketStats {
        bucket_idx: idx,
        key_count: keys,
        total_records: keys,
        buffer_capacity: 8,
        tinymap_size: keys,
        growth_count: 0,
        tag8_collisions: 0,
        unique_tags: keys,
    }
}

#[test]
fn radix_stats_derive_totals_from_buckets() {
    let mut s = RadixIndexStats {
        total_buckets: 8,
        bucket_bits: 3,
        active_buckets: 0,
        total_keys: 0,
        max_bucket_depth: 0,
        min_bucket_depth: 0,
        hotpath_arena: ArenaStats::empty(),
        buffer_arena: ArenaStats::empty(),
        record_arena: ArenaStats::empty(),
        bucket_details: vec![bucket(0, 3), bucket(1, 0), bucket(2, 7), bucket(5, 1)],
    };
    s.calculate_derived_stats();
    assert_eq!(s.total_keys, 11);
    assert_eq!(s.active_buckets, 3);
    assert_eq!(s.max_bucket_depth, 7);
    assert_eq!(s.min_bucket_depth, 1);
    assert_eq!(s.total_buckets, 8);
}

#[test]
fn epoch_counters_count_and_reset() {
    let mut e = EpochStats::new();
    e.register_defer();
    e.register_defer();
    track_defer(&mut e);
    e.register_pin();
    e.register_flush();
    e.register_radix_create();
    e.register_radix_create();
    e.register_radix_drop();
    let s = e.snapshot();
    assert_eq!(s.defers_registered, 3);
    assert_eq!(s.guards_pinned, 1);
    assert_eq!(s.flushes_called, 1);
    assert_eq!(s.radix_created, 2);
    assert_eq!(s.radix_dropped, 1);
    assert_eq!(s.active_radix(), 1);
    assert_eq!(s.estimate_pending(), 0);
    e.reset();
    let z = e.snapshot();
    assert_eq!(z.defers_registered, 0);
    assert_eq!(z.radix_created, 0);
}

#[test]
fn epoch_estimates_saturate() {
    let mut e = EpochStats::new();
    for _ in 0..250 {
        e.register_defer();
    }
    e.register_flush();
    let s = e.snapshot();
    assert_eq!(s.estimate_pending(), 150);
    e.register_flush();
    e.register_flush();
    assert_eq!(e.snapshot().estimate_pending(), 0);
    e.register_radix_drop();
    assert_eq!(e.snapshot().active_radix(), 0);
}

#[test]
fn debug_config_from_environment_values() {
    let off = DebugConfig::from_env_values(None, None);
    assert!(!off.is_enabled("massive_graph_core::mph_delta_index"));
    for all in ["1", "all", "true", "TRUE", "True"] {
        let c = DebugConfig::from_env_values(Some(all), None);
        assert!(c.is_enabled("anything"), "{}", all);
    }
    let pattern = DebugConfig::from_env_values(Some("radix"), None);
    assert!(pattern.is_enabled("core::mph_delta_index::radix_index"));
    assert!(!pattern.is_enabled("core::segmented_stream"));
    assert!(is_debug_enabled(&pattern, "radix"));
    let index = DebugConfig::from_env_values(None, Some("1"));
    assert!(index.is_enabled("x"));
    let index_false = DebugConfig::from_env_values(None, Some("0"));
    assert!(!index_false.is_enabled("mph_delta_index"));
    let both = DebugConfig::from_env_values(Some("stream"), Some("yes"));
    assert!(both.is_enabled("segmented_stream"));
    assert!(!both.is_enabled("optimised_index"));
}

#[test]
fn byte_containment() {
    assert!(contains(b"mph_delta_index::upsert", b"delta"));
    assert!(contains(b"abc", b""));
    assert!(contains(b"abc", b"abc"));
    assert!(!contains(b"abc", b"abcd"));
    assert!(!contains(b"abcabd", b"abe"));
    assert!(contains(b"abcabd", b"abd"));
}

#[test]
fn next_power_of_two_values() {
    assert_eq!(next_power_of_two(0), 1);
    assert_eq!(next_power_of_two(1), 1);
    assert_eq!(next_power_of_two(3), 4);
    assert_eq!(next_power_of_two(64), 64);
    assert_eq!(next_power_of_two(65), 128);
}

#[test]
fn identifiers_encode_their_bytes() {
    let a = ID8::new([1, 2, 3, 4, 5, 6, 7, 8]);
    assert_eq!(a.to_key_bytes(), vec![1, 2, 3, 4, 5, 6, 7, 8]);
    assert_eq!(a.as_bytes(), &[1, 2, 3, 4, 5, 6, 7, 8]);
    let b = ID32::new([9u8; 32]);
    assert_eq!(b.to_key_bytes().len(), 32);
    assert!(key(3).same_key(&key(3)));
    assert!(!key(3).same_key(&key(4)));
    assert_eq!(key(3).clone_key(), key(3));
    assert_eq!(7u64.to_key_bytes(), 7u64.to_le_bytes().to_vec());
    assert_eq!(copy_bytes(&[4, 5]), vec![4, 5]);
    assert!(bytes_equal(&[1, 2], &[1, 2]));
    assert!(!bytes_equal(&[1, 2], &[1, 3]));
    assert!(!bytes_equal(&[1], &[1, 2]));
}

#[test]
fn test_mph_index_basic_lookup() {
    let keys: Vec<ID16> = vec![key(11), key(22), key(33), key(44)];
    let vals: Vec<u32> = vec![100, 200, 300, 400];
    let mut idx = OptimisedIndex::new_with_capacity(16, 64);
    for (k, v) in keys.iter().zip(vals.iter()) {
        idx.upsert(*k, *v);
    }
    assert!(idx.publish());
    for (k, expected_val) in keys.iter().zip(vals.iter()) {
        match idx.get(k) {
            Some(actual_val) => assert_eq!(actual_val, expected_val, "Value mismatch for key {:?}", k),
            None => panic!("Key {:?} not found in index after publish!", k),
        }
    }
}

#[test]
fn test_mph_index_slot_placement() {
    let keys: Vec<ID16> = (0..10).map(|i| key(i as u8 * 7 + 1)).collect();
    let indexer = BBHashIndexer::build(&keys, Default::default());
    let mut slots = Vec::new();
    for (i, k) in keys.iter().enumerate() {
        let h = hash64(k);
        let tag16 = tag16_from_hash(h);
        let sidx = StreamIndex { page: 0, idx: i as u32 };
        slots.push(Slot::new(tag16, h, k.clone(), sidx));
    }
    let mph = MPHIndex::from_slots(slots, indexer.clone());
    for (i, k) in keys.iter().enumerate() {
        match mph.get(k) {
            Some(sidx) => assert_eq!(sidx.idx as usize, i, "StreamIndex mismatch for key {:?}", k),
            None => panic!("Key {:?} not found in MPH index!", k),
        }
    }
}

#[test]
fn mph_index_keeps_slots_the_indexer_does_not_place() {
    let keys: Vec<ID16> = (0..3).map(|i| key(i as u8 + 40)).collect();
    let indexer = BBHashIndexer::build(&keys[..2], Default::default());
    let mut slots = Vec::new();
    for (i, k) in keys.iter().enumerate() {
        let h = hash64(k);
        slots.push(Slot::new(tag16_from_hash(h), h, k.clone(), StreamIndex { page: 0, idx: i as u32 }));
    }
    let mph = MPHIndex::from_slots(slots, indexer);
    assert_eq!(mph.len(), 3);
    assert!(!mph.is_empty());
    for (i, s) in mph.slots().iter().enumerate() {
        assert_eq!(s.value.idx as usize, i);
    }
}

#[test]
fn test_bbhash_determinism_across_builds() {
    let n = 100;
    let keys: Vec<ID16> = (0..n).map(|i| key(i as u8)).collect();
    let mph1 = BBHashIndexer::build(&keys, Default::default());
    let mph2 = BBHashIndexer::build(&keys, Default::default());
    let mph3 = BBHashIndexer::build(&keys, Default::default());
    for k in &keys {
        assert_eq!(mph1.eval(k), mph2.eval(k));
        assert_eq!(mph1.eval(k), mph3.eval(k));
    }
}

#[test]
fn test_construction_vs_get_mismatch() {
    let n = 100;
    let keys: Vec<ID16> = (0..n).map(|i| key(i as u8)).collect();
    let vals: Vec<u64> = (0..n).map(|i| i as u64).collect();
    let mph = BBHashIndexer::build(&keys, Default::default());
    let mut oi = OptimisedIndex::new_with_indexer_and_capacity(mph, n, n * 2);
    for i in 0..n {
        oi.upsert(keys[i], vals[i]);
    }
    assert!(oi.publish());
    for i in 0..n {
        assert_eq!(oi.get(&keys[i]).copied(), Some(i as u64));
    }
}

#[test]
fn tinymap_keeps_one_entry_per_upsert_item() {
    let items = vec![(4u8, 0u64, 3usize, 0u8), (4, 0, 3, 0), (4, 0, 5, 0), (4, 0, 6, 1)];
    let m = ReadTinyMap::new(items);
    assert_eq!(m.len(), 3);
    let mut fours = m.iter_tags(4);
    fours.sort_unstable();
    assert_eq!(fours, vec![3, 3, 5]);
    let mut it = m.iter_tags_linear(4);
    let mut linear = Vec::new();
    while let Some(s) = it.next() {
        linear.push(s);
    }
    assert_eq!(linear, m.iter_tags(4));
}

#[test]
fn mix_separates_neighbouring_inputs() {
    let outs: Vec<u64> = (0..1000u64).map(mix).collect();
    let mut sorted = outs.clone();
    sorted.sort_unstable();
    sorted.dedup();
    assert_eq!(sorted.len(), 1000);
}
