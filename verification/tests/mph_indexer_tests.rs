//! BBHash indexer: determinism, injectivity, stability and edge cases over
//! several key types and sizes.
use massive_graph_core::ids::{ID16, ID32, ID8};
use massive_graph_core::mph_delta_index::mph_indexer::{BBHashIndexer, BbhConfig, MphIndexer};
use std::collections::HashSet;

fn make_sequential_keys(n: usize) -> Vec<usize> {
    (0..n).collect()
}

fn mix_index(i: u64) -> u64 {
    let mut x = i;
    x = x.wrapping_mul(0x9E3779B97F4A7C15u64);
    x ^= x >> 30;
    x = x.wrapping_mul(0xBF58476D1CE4E5B9u64);
    x ^= x >> 27;
    x
}

fn make_id8_keys(n: usize) -> Vec<ID8> {
    (0..n)
        .map(|i| {
            let mut bytes = [0u8; 8];
            let x = mix_index(i as u64);
            bytes.copy_from_slice(&x.to_le_bytes());
            ID8::new(bytes)
        })
        .collect()
}

fn make_id16_keys(n: usize) -> Vec<ID16> {
    (0..n)
        .map(|i| {
            let mut bytes = [0u8; 16];
            let x = mix_index(i as u64);
            bytes[0..8].copy_from_slice(&x.to_le_bytes());
            let mut y = x.wrapping_add(0xDEADBEEFCAFEBABEu64);
            y = y.wrapping_mul(0x9E3779B97F4A7C15u64);
            y ^= y >> 30;
            bytes[8..16].copy_from_slice(&y.to_le_bytes());
            ID16::from_bytes(bytes)
        })
        .collect()
}

fn make_id32_keys(n: usize) -> Vec<ID32> {
    (0..n)
        .map(|i| {
            let mut bytes = [0u8; 32];
            for chunk in 0..4 {
                let x = mix_index((i as u64).wrapping_add((chunk as u64) * 0x123456789ABCDEFu64));
                bytes[chunk * 8..(chunk + 1) * 8].copy_from_slice(&x.to_le_bytes());
            }
            ID32::new(bytes)
        })
        .collect()
}

fn assert_bijective<K, I: MphIndexer<K>>(mph: &I, keys: &[K], n: usize)
where
    K: massive_graph_core::ids::IndexKey,
{
    let mut seen_slots = HashSet::new();
    for (i, key) in keys.iter().enumerate() {
        let slot = mph.eval(key);
        assert!(slot < n, "Out of bounds: key[{}] maps to slot {} (n={})", i, slot, n);
        assert!(seen_slots.insert(slot), "Collision: key[{}] maps to slot {} which was already assigned", i, slot);
    }
    assert_eq!(seen_slots.len(), n);
}

#[test]
fn test_determinism_sequential() {
    for &n in &[10, 100, 1_000] {
        let keys = make_sequential_keys(n);
        let mph1 = BBHashIndexer::build(&keys, Default::default());
        let mph2 = BBHashIndexer::build(&keys, Default::default());
        for (i, key) in keys.iter().enumerate() {
            let slot1 = mph1.eval(key);
            let slot2 = mph2.eval(key);
            assert_eq!(slot1, slot2, "Non-deterministic: key[{}]={} maps to slot {} in mph1 but {} in mph2", i, key, slot1, slot2);
        }
    }
}

#[test]
fn test_determinism_id16() {
    for &n in &[10, 100, 1_000] {
        let keys = make_id16_keys(n);
        let mph1 = BBHashIndexer::build(&keys, Default::default());
        let mph2 = BBHashIndexer::build(&keys, Default::default());
        for (i, key) in keys.iter().enumerate() {
            let slot1 = mph1.eval(key);
            let slot2 = mph2.eval(key);
            assert_eq!(slot1, slot2, "Non-deterministic: ID16 key[{}] maps to slot {} in mph1 but {} in mph2", i, slot1, slot2);
        }
    }
}

#[test]
fn test_injectivity_sequential() {
    for &n in &[10, 100, 1_000, 10_000] {
        let keys = make_sequential_keys(n);
        let mph = BBHashIndexer::build(&keys, Default::default());
        assert_bijective(&mph, &keys, n);
    }
}

#[test]
fn test_injectivity_id8() {
    for &n in &[10, 100, 1_000, 10_000] {
        let keys = make_id8_keys(n);
        let mph = BBHashIndexer::build(&keys, Default::default());
        assert_bijective(&mph, &keys, n);
    }
}

#[test]
fn test_injectivity_id16() {
    for &n in &[10, 100, 1_000, 10_000] {
        let keys = make_id16_keys(n);
        let mph = BBHashIndexer::build(&keys, Default::default());
        assert_bijective(&mph, &keys, n);
    }
}

#[test]
fn test_injectivity_id32() {
    for &n in &[10, 100, 1_000, 10_000] {
        let keys = make_id32_keys(n);
        let mph = BBHashIndexer::build(&keys, Default::default());
        assert_bijective(&mph, &keys, n);
    }
}

#[test]
fn test_stability_sequential() {
    for &n in &[10, 100, 1_000] {
        let keys = make_sequential_keys(n);
        let mph = BBHashIndexer::build(&keys, Default::default());
        for (i, key) in keys.iter().enumerate() {
            let slot1 = mph.eval(key);
            let slot2 = mph.eval(key);
            let slot3 = mph.eval(key);
            assert_eq!(slot1, slot2, "Unstable: key[{}]={} returned slot {} then {}", i, key, slot1, slot2);
            assert_eq!(slot2, slot3, "Unstable: key[{}]={} returned slot {} then {}", i, key, slot2, slot3);
        }
    }
}

#[test]
fn test_stability_id16() {
    for &n in &[10, 100, 1_000] {
        let keys = make_id16_keys(n);
        let mph = BBHashIndexer::build(&keys, Default::default());
        for (i, key) in keys.iter().enumerate() {
            let slot1 = mph.eval(key);
            let slot2 = mph.eval(key);
            let slot3 = mph.eval(key);
            assert_eq!(slot1, slot2, "Unstable: ID16 key[{}] returned slot {} then {}", i, slot1, slot2);
            assert_eq!(slot2, slot3, "Unstable: ID16 key[{}] returned slot {} then {}", i, slot2, slot3);
        }
    }
}

#[test]
fn test_non_member_determinism() {
    let build_keys = make_sequential_keys(100);
    let mph = BBHashIndexer::build(&build_keys, Default::default());
    let non_member_keys: Vec<usize> = (1000..1100).collect();
    for key in &non_member_keys {
        let slot1 = mph.eval(key);
        let slot2 = mph.eval(key);
        assert_eq!(slot1, slot2, "Non-member key {} maps to different slots: {} vs {}", key, slot1, slot2);
        assert!(slot1 < 100, "Non-member key {} maps to out-of-bounds slot {}", key, slot1);
    }
}

#[test]
fn test_config_variations() {
    let keys = make_sequential_keys(1000);
    // Oversizing factors 1.1, 1.3, 1.5 and 2.0.
    for (num, den) in [(11usize, 10usize), (13, 10), (15, 10), (20, 10)] {
        let cfg = BbhConfig { gamma_num: num, gamma_den: den, max_levels: 32 };
        let mph = BBHashIndexer::build(&keys, cfg);
        let mut seen_slots = HashSet::new();
        for (i, key) in keys.iter().enumerate() {
            let slot = mph.eval(key);
            assert!(slot < 1000, "Out of bounds with gamma={}/{}: slot {}", num, den, slot);
            assert!(seen_slots.insert(slot), "Collision with gamma={}/{}: key[{}] maps to slot {}", num, den, i, slot);
        }
    }
}

#[test]
fn test_single_key() {
    let keys = vec![42usize];
    let mph = BBHashIndexer::build(&keys, Default::default());
    assert_eq!(mph.eval(&42), 0, "Single key should map to slot 0");
    let non_member_slot = mph.eval(&999);
    assert_eq!(non_member_slot, 0, "Non-member with n=1 should map to slot 0");
}

#[test]
fn test_two_keys() {
    let keys = vec![10usize, 20usize];
    let mph = BBHashIndexer::build(&keys, Default::default());
    let slot_10 = mph.eval(&10);
    let slot_20 = mph.eval(&20);
    assert!(slot_10 < 2, "Key 10 out of bounds");
    assert!(slot_20 < 2, "Key 20 out of bounds");
    assert_ne!(slot_10, slot_20, "Keys 10 and 20 collide");
}

#[test]
fn test_repeated_eval_consistency() {
    let keys = make_id16_keys(100);
    let mph = BBHashIndexer::build(&keys, Default::default());
    for (i, key) in keys.iter().enumerate() {
        let first_slot = mph.eval(key);
        for _ in 0..100 {
            let slot = mph.eval(key);
            assert_eq!(slot, first_slot, "Inconsistent eval for key[{}]: expected {}, got {}", i, first_slot, slot);
        }
    }
}

#[test]
fn test_eval_order_independence() {
    let keys = make_sequential_keys(100);
    let mph = BBHashIndexer::build(&keys, Default::default());
    let forward_slots: Vec<usize> = keys.iter().map(|k| mph.eval(k)).collect();
    let reverse_slots: Vec<usize> = keys.iter().rev().map(|k| mph.eval(k)).collect();
    for (i, (&fwd, &rev)) in forward_slots.iter().zip(reverse_slots.iter().rev()).enumerate() {
        assert_eq!(fwd, rev, "Order-dependent: key[{}] maps to {} in forward, {} in reverse", i, fwd, rev);
    }
}

#[test]
fn test_perfect_hash_bijection() {
    for &n in &[10, 100, 1_000] {
        let keys = make_id16_keys(n);
        let mph = BBHashIndexer::build(&keys, Default::default());
        let mut key_to_slot: Vec<usize> = Vec::with_capacity(n);
        for key in &keys {
            key_to_slot.push(mph.eval(key));
        }
        let mut slot_counts = vec![0usize; n];
        for &slot in &key_to_slot {
            assert!(slot < n, "Slot {} out of bounds (n={})", slot, n);
            slot_counts[slot] += 1;
        }
        for (slot, &count) in slot_counts.iter().enumerate() {
            assert_eq!(count, 1, "Slot {} used {} times (expected 1) at n={}", slot, count, n);
        }
    }
}

#[test]
fn try_build_refuses_empty_and_invalid_configs() {
    let empty: Vec<usize> = Vec::new();
    assert!(BBHashIndexer::try_build(&empty, Default::default()).is_none());
    let keys = make_sequential_keys(10);
    let shrinking = BbhConfig { gamma_num: 9, gamma_den: 10, max_levels: 32 };
    assert!(BBHashIndexer::try_build(&keys, shrinking).is_none());
    let undefined = BbhConfig { gamma_num: 1, gamma_den: 0, max_levels: 32 };
    assert!(BBHashIndexer::try_build(&keys, undefined).is_none());
    let built = BBHashIndexer::try_build(&keys, Default::default()).expect("ten keys build");
    assert_eq!(built.len(), 10);
    assert_bijective(&built, &keys, 10);
}

#[test]
fn default_config_is_gamma_1_3_with_32_levels() {
    let cfg: BbhConfig = Default::default();
    assert_eq!(cfg.gamma_num, 13);
    assert_eq!(cfg.gamma_den, 10);
    assert_eq!(cfg.max_levels, 32);
}

#[test]
fn determinism_across_builds_covers_non_members() {
    let keys = make_sequential_keys(200);
    let mph1 = BBHashIndexer::build(&keys, Default::default());
    let mph2 = BBHashIndexer::build(&keys, Default::default());
    assert_eq!(mph1.len(), mph2.len());
    for key in 5_000usize..5_200 {
        assert_eq!(mph1.eval(&key), mph2.eval(&key));
    }
}
