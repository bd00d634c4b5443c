//! The fixed-capacity radix index: mask-driven visibility, updates that
//! move a key to a new slot, deletes, full buckets and statistics.
use massive_graph_core::ids::ID16;
use massive_graph_core::mph_delta_index::radix_index_v2::RadixIndexV2;
use massive_graph_core::mph_delta_index::util::hash64;
use massive_graph_core::segmented_stream::{SegmentedStream, StreamIndex};

fn make_id16(i: usize) -> ID16 {
    let mut b = [b'0'; 16];
    let s = i.to_string();
    let bytes = s.as_bytes();
    b[16 - bytes.len()..].copy_from_slice(bytes);
    ID16::from_bytes(b)
}

#[test]
fn v2_upsert_get_update_delete() {
    let mut idx: RadixIndexV2<u64, u64> = RadixIndexV2::with_capacity(64, 256);
    for k in 0..50u64 {
        idx.upsert(&k, &(k * 10));
    }
    for k in 0..50u64 {
        assert_eq!(idx.get(&k), Some(&(k * 10)));
    }
    assert_eq!(idx.get(&77), None);
    idx.upsert(&7, &700);
    assert_eq!(idx.get(&7), Some(&700));
    assert_eq!(idx.get_copy(&7), Some(700));
    idx.delete(&7);
    assert_eq!(idx.get(&7), None);
    idx.delete(&7);
    assert_eq!(idx.get(&8), Some(&80));
    assert_eq!(idx.get_with_hash(&8, hash64(&8u64)), Some(&80));
    let mut vals: Vec<u64> = idx.iter().into_iter().copied().collect();
    vals.sort_unstable();
    assert_eq!(vals.len(), 49);
    assert!(!vals.contains(&70));
    assert!(!vals.contains(&700));
    let mut keys: Vec<u64> = idx.iter_with_keys().into_iter().map(|(k, _)| *k).collect();
    keys.sort_unstable();
    keys.dedup();
    assert_eq!(keys.len(), 49);
    idx.clear_all();
    assert_eq!(idx.get(&8), None);
    assert!(idx.iter().is_empty());
}

#[test]
fn v2_full_buckets_refuse_new_keys() {
    // Two buckets of 64 slots each.
    let mut idx: RadixIndexV2<u64, u64> = RadixIndexV2::with_capacity(0, 0);
    let mut accepted = 0;
    for k in 0..400u64 {
        if idx.try_upsert(&k, &k) {
            accepted += 1;
        }
    }
    assert_eq!(accepted, 128);
    assert_eq!(idx.iter().len(), 128);
    let stats = idx.collect_stats();
    assert_eq!(stats.total_buckets, 2);
    assert_eq!(stats.total_keys, 128);
    assert_eq!(stats.active_buckets, 2);
    assert_eq!(stats.max_bucket_depth, 64);
    assert_eq!(stats.min_bucket_depth, 64);
    assert!(stats.bucket_details.iter().all(|b| b.buffer_capacity == 64 && b.total_records == 64));
    // An update of a present key in a full bucket is refused too.
    let present = idx.iter_with_keys()[0].0.clone();
    assert!(!idx.try_upsert(&present, &1));
    assert_eq!(idx.get(&present), Some(&present));
    // After a delete there is room again.
    idx.delete(&present);
    assert!(idx.try_upsert(&present, &5));
    assert_eq!(idx.get(&present), Some(&5));
}

#[test]
fn v2_values_point_into_stream() {
    let mut stream: SegmentedStream<u64> = SegmentedStream::with_page_size(64);
    let mut idx: RadixIndexV2<ID16, StreamIndex> = RadixIndexV2::with_capacity(200, 800);
    for i in 0..150 {
        let si = stream.append_with_index(i as u64).unwrap();
        idx.upsert(&make_id16(i), &si);
    }
    for i in (0..150).step_by(7) {
        let si = stream.append_with_index((i + 1000) as u64).unwrap();
        idx.upsert(&make_id16(i), &si);
    }
    for i in 0..150 {
        let si = idx.get(&make_id16(i)).expect("present");
        let expected = if i % 7 == 0 { i + 1000 } else { i };
        assert_eq!(*stream.resolve_ref_unchecked(si), expected as u64);
    }
    let stats = idx.collect_stats();
    assert_eq!(stats.total_keys, 150);
    assert_eq!(stats.bucket_details.len(), stats.total_buckets);
}

#[test]
fn v2_reupsert_keeps_one_live_slot() {
    let mut r: RadixIndexV2<u64, u64> = RadixIndexV2::with_capacity(16, 64);
    r.upsert(&1, &10);
    r.upsert(&1, &20);
    assert_eq!(r.get(&1), Some(&20));
    assert_eq!(r.iter().len(), 1);
    assert_eq!(r.collect_stats().total_keys, 1);
}

#[test]
fn v2_stats_report_the_record_arena() {
    let r: RadixIndexV2<u64, u64> = RadixIndexV2::with_capacity(16, 64);
    let s = r.collect_stats();
    assert!(s.hotpath_arena.num_regions >= 1);
    assert!(s.hotpath_arena.bytes_allocated > 0);
    assert_eq!(s.buffer_arena.bytes_allocated, 0);
}
