//! The two-tier index: snapshot reads, the delta overlay written directly or
//! through the delta stream, and reserved slots.
use massive_graph_core::mph_delta_index::mph_indexer::{BBHashIndexer, MphIndexer};
use massive_graph_core::optimised_index::snapshot_index::{DeltaOp, OptimisedIndexGen, SnapshotGen};
use massive_graph_core::segmented_stream::SegmentedStream;

type Idx = OptimisedIndexGen<u64, u64, BBHashIndexer<u64>>;

/// A snapshot whose base holds `vals[k]` for key `k`, placed by the indexer.
fn snap(version: u64, reserved_keys: Vec<u64>, reserved_vals: Vec<u64>, vals: &[u64]) -> SnapshotGen<u64, u64, BBHashIndexer<u64>> {
    let keys: Vec<u64> = if vals.is_empty() { vec![0] } else { (0..vals.len() as u64).collect() };
    let ix = BBHashIndexer::build(&keys, Default::default());
    let mut mph_vals = vec![0u64; vals.len()];
    for (k, v) in vals.iter().enumerate() {
        mph_vals[ix.eval(&(k as u64))] = *v;
    }
    SnapshotGen { version, reserved_keys, reserved_vals, mph_vals, mph_indexer: ix }
}

fn index(s: SnapshotGen<u64, u64, BBHashIndexer<u64>>) -> Idx {
    OptimisedIndexGen::new(s, SegmentedStream::<DeltaOp<u64, u64>>::new())
}

#[test]
fn reserved_and_by_index_basic() {
    let s = snap(1, vec![0, 1], vec![10, 11], &[20, 21, 22]);
    let y_slot = s.mph_indexer.eval(&1);
    let idx = index(s);
    assert_eq!(idx.get_by_index(y_slot), Some(&21));
    assert_eq!(idx.get_reserved_slot(0), Some(&10));
}

#[test]
fn reserved_overlay_upsert_visible() {
    let idx = index(snap(1, vec![10], vec![1], &[]));
    assert_eq!(idx.get_reserved_slot(0), Some(&1));
}

#[test]
fn get_by_index_out_of_range_none() {
    let idx = index(snap(1, vec![], vec![], &[7]));
    assert!(idx.get_by_index(99).is_none());
}

#[test]
fn tests_get_returns_base_without_delta() {
    let idx = index(snap(1, vec![], vec![], &[42, 100]));
    assert_eq!(idx.get(&1), Some(&100));
}

#[test]
fn snapshot_publish_visibility() {
    let mut idx = index(snap(1, vec![], vec![], &[1]));
    assert_eq!(idx.get_by_index(0), Some(&1));
    idx.publish_snapshot(snap(2, vec![], vec![], &[2]));
    assert_eq!(idx.get_by_index(0), Some(&2));
    assert_eq!(idx.stats().base_version, 2);
}

#[test]
fn tests_upsert_then_get_returns_value() {
    let mut idx = index(snap(1, vec![], vec![], &[]));
    idx.upsert(7, 123);
    assert_eq!(idx.get(&7), Some(&123));
}

#[test]
fn tests_upsert_sets_contains_key_true() {
    let mut idx = index(snap(1, vec![], vec![], &[]));
    idx.upsert(1, 1);
    assert!(idx.contains_key(&1));
}

#[test]
fn remove_clears_key() {
    let mut idx = index(snap(1, vec![], vec![], &[]));
    idx.upsert(2, 10);
    idx.remove(&2);
    assert!(idx.get(&2).is_none());
    assert!(!idx.contains_key(&2));
}

#[test]
fn reserved_overlay_upsert_wins_over_base_reserved_val() {
    let mut idx = index(snap(1, vec![100], vec![5], &[]));
    idx.upsert(100, 9);
    assert_eq!(idx.get_reserved_slot_with_overlay(0), Some(&9));
}

#[test]
fn tests_delta_overrides_base_get() {
    let base: Vec<u64> = (0..5u64).map(|i| i * 11).collect();
    let mut idx = index(snap(1, vec![], vec![], &base));
    idx.upsert(3, 88);
    assert_eq!(idx.get(&3), Some(&88));
}

#[test]
fn stream_applier_upsert_then_get() {
    let mut idx = index(snap(1, vec![], vec![], &[]));
    let mut cur = idx.create_delta_cursor();
    idx.append_delta_upsert(11, 777);
    let applied = idx.apply_delta_once(&mut cur, 8);
    assert!(applied >= 1);
    assert_eq!(idx.get(&11), Some(&777));
}

#[test]
fn stream_applier_delete_tombstone() {
    let base: Vec<u64> = (0..10u64).collect();
    let mut idx = index(snap(1, vec![], vec![], &base));
    let mut cur = idx.create_delta_cursor();
    assert_eq!(idx.get(&5), Some(&5));
    idx.append_delta_delete(5);
    let _ = idx.apply_delta_once(&mut cur, 8);
    assert!(idx.get(&5).is_none());
}

#[test]
fn stream_applier_multiple_upserts_latest_wins() {
    let mut idx = index(snap(1, vec![], vec![], &[]));
    let mut cur = idx.create_delta_cursor();
    idx.append_delta_upsert(42, 1);
    idx.append_delta_upsert(42, 2);
    idx.append_delta_upsert(42, 3);
    let n = idx.apply_delta_once(&mut cur, 16);
    assert_eq!(n, 3);
    assert_eq!(idx.get(&42), Some(&3));
}

#[test]
fn apply_delta_once_stops_at_max_ops() {
    let mut idx = index(snap(1, vec![], vec![], &[]));
    let mut cur = idx.create_delta_cursor();
    for k in 0..5u64 {
        idx.append_delta_upsert(k, k + 100);
    }
    assert_eq!(idx.apply_delta_once(&mut cur, 2), 2);
    assert_eq!(idx.get(&1), Some(&101));
    assert!(idx.get(&2).is_none());
    assert_eq!(idx.apply_delta_once(&mut cur, 10), 3);
    assert_eq!(idx.get(&4), Some(&104));
    assert_eq!(idx.apply_delta_once(&mut cur, 10), 0);
}
