//! The optimised index: base tier built by publish, delta tier of upserts
//! and removals, and what reads see before and after a publish.
use massive_graph_core::ids::ID16;
use massive_graph_core::mph_delta_index::mph_indexer::{BBHashIndexer, MphIndexer};
use massive_graph_core::mph_delta_index::OptimisedIndex;
use massive_graph_core::segmented_stream::SegmentedStream;

fn make_id16(i: usize) -> ID16 {
    let mut b = [b'0'; 16];
    let mut x = i;
    let mut pos = 15;
    if x == 0 {
        b[pos] = b'0';
    } else {
        while x > 0 && pos < 16 {
            b[pos] = b'0' + (x % 10) as u8;
            x /= 10;
            if pos == 0 {
                break;
            }
            pos -= 1;
        }
    }
    ID16::from_bytes(b)
}

fn build_index_from_values<V: Clone>(vals: &[V]) -> (OptimisedIndex<ID16, V>, Vec<ID16>) {
    let base_keys: Vec<ID16> = (0..vals.len()).map(make_id16).collect();
    let mph = BBHashIndexer::build(&base_keys, Default::default());
    let mut idx = OptimisedIndex::new_with_indexer_and_capacity(mph, vals.len(), vals.len() * 2);
    for (i, v) in vals.iter().enumerate() {
        idx.upsert(base_keys[i], v.clone());
    }
    assert!(idx.publish());
    (idx, base_keys)
}

#[test]
fn by_index_basic() {
    let (idx, keys): (OptimisedIndex<ID16, &'static str>, _) = build_index_from_values(&["x", "y", "z"]);
    assert_eq!(idx.get_owned(&keys[1]), Some("y"));
}

#[test]
fn get_returns_base_without_delta() {
    let (idx, keys) = build_index_from_values(&[42u64, 100u64]);
    assert_eq!(idx.get_owned(&keys[1]), Some(100));
}

#[test]
fn publish_folds_overrides_and_skips_tombstones() {
    let (mut idx, keys) = build_index_from_values(&[10u64, 20u64, 30u64]);
    idx.upsert(keys[1], 200);
    idx.remove(&keys[2]);
    assert_eq!(idx.get(&keys[0]).copied(), Some(10));
    assert_eq!(idx.get(&keys[1]).copied(), Some(200));
    assert_eq!(idx.get(&keys[2]), None);
    idx.publish();
    assert_eq!(idx.get(&keys[0]).copied(), Some(10));
    assert_eq!(idx.get(&keys[1]).copied(), Some(200));
    assert_eq!(idx.get(&keys[2]), None);
}

#[test]
fn upsert_existing_then_publish_then_get() {
    let (mut idx, keys) = build_index_from_values(&[10u64, 20u64, 30u64]);
    idx.upsert(keys[1], 200);
    assert_eq!(idx.get(&keys[1]).copied(), Some(200));
    idx.publish();
    assert_eq!(idx.get(&keys[1]).copied(), Some(200));
}

#[test]
fn remove_existing_then_publish_then_get() {
    let (mut idx, keys) = build_index_from_values(&[10u64, 20u64, 30u64]);
    idx.remove(&keys[2]);
    assert_eq!(idx.get(&keys[2]), None);
    idx.publish();
    assert_eq!(idx.get(&keys[2]), None);
}

#[test]
fn upsert_then_get_returns_value() {
    let base: Vec<u64> = (0u64..10).collect();
    let (mut idx, keys) = build_index_from_values::<u64>(&base);
    idx.upsert(keys[7], 123);
    assert_eq!(idx.get_owned(&keys[7]), Some(123));
}

#[test]
fn upsert_sets_contains_key_true() {
    let base: Vec<u64> = (0u64..3).collect();
    let (mut idx, keys) = build_index_from_values::<u64>(&base);
    idx.upsert(keys[1], 1);
    assert!(idx.contains_key(&keys[1]));
}

#[test]
fn delta_overrides_base_get() {
    let base_vals: Vec<u64> = (0u64..5).map(|i| i * 11).collect::<Vec<_>>();
    let (mut idx, keys) = build_index_from_values(&base_vals);
    idx.upsert(keys[3], 88);
    assert_eq!(idx.get_owned(&keys[3]), Some(88));
}

#[test]
fn iterators_and_overrides_behaviour() {
    let (mut idx, keys) = build_index_from_values(&[10u64, 20u64, 30u64]);
    idx.upsert(keys[1], 200);
    idx.remove(&keys[2]);
    // The base still holds the published values.
    let mut base_vals: Vec<u64> = idx.iter_mph().into_iter().copied().collect();
    let mut expected = vec![10, 20, 30];
    base_vals.sort_unstable();
    expected.sort_unstable();
    assert_eq!(base_vals, expected);
    // Reads see the overrides and not the removed key.
    assert_eq!(idx.get(&keys[0]).copied(), Some(10));
    assert_eq!(idx.get(&keys[1]).copied(), Some(200));
    assert_eq!(idx.get(&keys[2]), None);
}

#[test]
fn remove_existing_then_get() {
    let (mut idx, keys) = build_index_from_values(&[10u64, 20u64, 30u64]);
    idx.remove(&keys[2]);
    assert_eq!(idx.get(&keys[2]), None);
}

#[test]
fn mph_fingerprint_mismatch_routes_to_new_keys() {
    let (mut idx, _keys) = build_index_from_values(&[1u64]);
    let unknown = make_id16(999);
    idx.upsert(unknown, 77);
    assert_eq!(idx.get(&unknown).copied(), Some(77));
}

#[test]
fn delete_fingerprint_mismatch_goes_to_new_keys() {
    let (mut idx, _keys) = build_index_from_values(&[1u64]);
    let unknown = make_id16(888);
    idx.upsert(unknown, 5);
    idx.remove(&unknown);
    assert_eq!(idx.get(&unknown), None);
}

#[test]
fn iter_mph_returns_all_base_values_in_slot_order() {
    let (idx, _keys) = build_index_from_values(&[1u64, 2u64, 3u64, 4u64]);
    let mut got: Vec<u64> = idx.iter_mph().into_iter().copied().collect();
    let mut exp = vec![1, 2, 3, 4];
    got.sort_unstable();
    exp.sort_unstable();
    assert_eq!(got, exp);
}

#[test]
fn contains_key_out_of_range_checks_new_keys() {
    let (mut idx, _keys) = build_index_from_values(&[1u64]);
    let unknown = make_id16(12345);
    idx.upsert(unknown, 9);
    assert!(idx.contains_key(&unknown));
}

#[test]
fn publish_idempotent_when_no_changes() {
    let (mut idx, keys) = build_index_from_values(&[5u64, 6u64]);
    assert_eq!(idx.get(&keys[0]).copied(), Some(5));
    assert_eq!(idx.get(&keys[1]).copied(), Some(6));
    idx.publish();
    assert_eq!(idx.get(&keys[0]).copied(), Some(5));
    assert_eq!(idx.get(&keys[1]).copied(), Some(6));
}

#[test]
fn multiple_upserts_latest_visible_before_and_after_publish() {
    let (mut idx, keys) = build_index_from_values(&[0u64, 0u64, 0u64]);
    idx.upsert(keys[1], 10);
    idx.upsert(keys[1], 20);
    idx.upsert(keys[1], 30);
    assert_eq!(idx.get(&keys[1]).copied(), Some(30));
    idx.publish();
    assert_eq!(idx.get(&keys[1]).copied(), Some(30));
}

#[test]
fn delete_then_upsert_same_key_reflected_in_publish() {
    let (mut idx, keys) = build_index_from_values(&[100u64, 200u64]);
    idx.remove(&keys[1]);
    assert_eq!(idx.get(&keys[1]), None);
    idx.upsert(keys[1], 250);
    assert_eq!(idx.get(&keys[1]).copied(), Some(250));
    idx.publish();
    assert_eq!(idx.get(&keys[1]).copied(), Some(250));
}

#[test]
fn radix_empty_after_publish() {
    let (mut idx, _keys) = build_index_from_values(&[0u64, 0u64]);
    let unknown = make_id16(7777);
    idx.upsert(unknown, 55);
    assert_eq!(idx.get(&unknown).copied(), Some(55));
    idx.publish();
    assert_eq!(idx.get(&unknown).copied(), Some(55));
    assert!(idx.iter_radix().is_empty());
    idx.publish();
    assert_eq!(idx.get(&unknown).copied(), Some(55));
}

#[test]
fn publish_flows_new_key_then_publish_then_get() {
    let (mut idx, _keys) = build_index_from_values(&[0u64]);
    let k = make_id16(5000);
    idx.upsert(k, 11);
    assert_eq!(idx.get(&k).copied(), Some(11));
    idx.publish();
    assert_eq!(idx.get(&k).copied(), Some(11));
}

#[test]
fn publish_flows_new_key_publish_delete_get_none() {
    let (mut idx, _keys) = build_index_from_values(&[0u64]);
    let k = make_id16(6000);
    idx.upsert(k, 21);
    idx.publish();
    idx.remove(&k);
    assert_eq!(idx.get(&k), None);
}

#[test]
fn publish_flows_new_key_publish_update_get_new() {
    let (mut idx, _keys) = build_index_from_values(&[0u64]);
    let k = make_id16(7000);
    idx.upsert(k, 31);
    idx.publish();
    idx.upsert(k, 41);
    assert_eq!(idx.get(&k).copied(), Some(41));
}

#[test]
fn publish_flows_new_key_delete_publish_get_none() {
    let (mut idx, _keys) = build_index_from_values(&[0u64]);
    let k = make_id16(8000);
    idx.upsert(k, 51);
    idx.remove(&k);
    idx.publish();
    assert_eq!(idx.get(&k), None);
}

#[test]
fn publish_flows_new_key_update_publish_get_new() {
    let (mut idx, _keys) = build_index_from_values(&[0u64]);
    let k = make_id16(9000);
    idx.upsert(k, 61);
    idx.upsert(k, 71);
    idx.publish();
    assert_eq!(idx.get(&k).copied(), Some(71));
}

#[test]
fn mph_1m_test() {
    let n = 100_000;
    let (idx, keys) = build_index_from_values(&(0..n).map(|i| i as u64).collect::<Vec<_>>());
    for i in 0..10 {
        assert_eq!(idx.get(&keys[i]).copied(), Some(i as u64));
    }
    for i in (n - 10)..n {
        assert_eq!(idx.get(&keys[i]).copied(), Some(i as u64));
    }
}

#[test]
fn test_key_cloning_equality() {
    let n = 34;
    let keys_vec: Vec<ID16> = (0..n).map(make_id16).collect();
    let base_keys: Vec<ID16> = keys_vec.clone();
    for i in 0..n {
        assert_eq!(keys_vec[i].as_bytes(), base_keys[i].as_bytes(), "Key mismatch at index {}", i);
    }
    let mph = BBHashIndexer::build(&base_keys, Default::default());
    for i in 0..n {
        let slot_vec = mph.eval(&keys_vec[i]);
        let slot_arc = mph.eval(&base_keys[i]);
        assert_eq!(slot_vec, slot_arc, "Eval mismatch at index {}: {} vs {}", i, slot_vec, slot_arc);
    }
}

#[test]
fn test_benchmark_flow_mimics_actual_benchmark() {
    let n = 34;
    let vals: Vec<u64> = (0..n).map(|i| i as u64).collect();
    let mut stream: SegmentedStream<u64> = SegmentedStream::new();
    let mut indices = Vec::with_capacity(vals.len());
    for v in vals.iter().cloned() {
        indices.push(stream.append_with_index(v).expect("append"));
    }
    let keys_vec: Vec<ID16> = (0..indices.len()).map(make_id16).collect();
    let base_keys: Vec<ID16> = keys_vec.clone();
    let mph = BBHashIndexer::build(&base_keys, Default::default());
    let mut oi = OptimisedIndex::new_with_indexer_and_capacity(mph, n, n * 2);
    for i in 0..n {
        oi.upsert(keys_vec[i], vals[i]);
    }
    oi.publish();
    for i in 0..10 {
        assert_eq!(oi.get(&keys_vec[i]).copied(), Some(i as u64), "Failed at index {}", i);
    }
}

#[test]
fn test_stream_insert_and_resolve() {
    let mut stream: SegmentedStream<u64> = SegmentedStream::new();
    let mut indices = Vec::new();
    for i in 0..10u64 {
        indices.push(stream.append_with_index(i).expect("append"));
    }
    for (i, sidx) in indices.iter().enumerate() {
        let resolved = stream.resolve_ref_unchecked(sidx);
        assert_eq!(*resolved, i as u64, "StreamIndex at position {} resolved to {}", i, resolved);
    }
}

#[test]
fn verify_indexer_built_with_correct_keys() {
    let n = 34;
    let keys_vec: Vec<ID16> = (0..n).map(make_id16).collect();
    let base_keys: Vec<ID16> = keys_vec.clone();
    let mph = BBHashIndexer::build(&base_keys, Default::default());
    let mut slot_to_key = vec![None; n];
    for i in 0..n {
        let slot = mph.eval(&base_keys[i]);
        if let Some(prev_i) = slot_to_key[slot] {
            panic!("COLLISION: key[{}] and key[{}] both map to slot {}", prev_i, i, slot);
        }
        slot_to_key[slot] = Some(i);
    }
    for i in 0..5 {
        assert_eq!(mph.eval(&base_keys[i]), mph.eval(&keys_vec[i]));
    }
}

#[test]
fn check_full_key_bytes() {
    for i in 0..10 {
        let key = make_id16(i);
        println!("key[{}] = {:?}", i, key.as_bytes());
    }
}

#[test]
fn test_stream_index_through_slot_assignment() {
    let mut stream: SegmentedStream<u64> = SegmentedStream::new();
    let mut indices = Vec::new();
    for i in 0..10u64 {
        indices.push(stream.append_with_index(i).expect("append"));
    }
    let mut slots = vec![indices[9]; 10];
    let mapping = [(0, 5), (1, 0), (2, 7)];
    for (key_idx, slot_idx) in mapping {
        slots[slot_idx] = indices[key_idx];
    }
    for (key_idx, slot_idx) in mapping {
        let resolved = stream.resolve_ref_unchecked(&slots[slot_idx]);
        assert_eq!(*resolved, key_idx as u64);
    }
}

#[test]
fn test_minimal_mph_bug_reproduction() {
    let n = 34;
    let keys: Vec<ID16> = (0..n).map(make_id16).collect();
    let vals: Vec<u64> = (0..n).map(|i| i as u64).collect();
    let mph = BBHashIndexer::build(&keys, Default::default());
    let mut oi = OptimisedIndex::new_with_indexer_and_capacity(mph, n, n * 2);
    for i in 0..n {
        oi.upsert(keys[i], vals[i]);
    }
    oi.publish();
    for i in 0..n {
        assert_eq!(oi.get(&keys[i]).copied(), Some(i as u64), "key[{}]", i);
    }
}

#[test]
fn republish_keeps_base_len_and_empty_delta() {
    let (mut idx, _keys) = build_index_from_values(&[0u64, 0u64, 0u64]);
    idx.upsert(make_id16(9001), 1);
    idx.upsert(make_id16(9002), 2);
    assert!(idx.publish());
    let s1 = idx.stats();
    assert_eq!(s1.len_delta, 0);
    assert!(idx.publish());
    let s2 = idx.stats();
    assert_eq!(s2.len_base, s1.len_base);
    assert_eq!(s2.len_delta, 0);
    assert_eq!(idx.get(&make_id16(9001)).copied(), Some(1));
    assert_eq!(idx.get(&make_id16(9002)).copied(), Some(2));
}
