//! The radix delta index keyed by identifiers, pointing into a segmented
//! stream whose values span several pages.
use massive_graph_core::ids::ID16;
use massive_graph_core::mph_delta_index::radix_index::{DeltaState, RadixIndex};
use massive_graph_core::segmented_stream::{SegmentedStream, StreamIndex};

fn make_id16(i: usize) -> ID16 {
    let mut b = [b'0'; 16];
    let mut x = i;
    let mut pos = 15;
    if x == 0 {
        b[pos] = b'0';
    } else {
        while x > 0 && pos < 16 {
            b[pos] = b'0' + (x % 10) as u8;
            x /= 10;
            if pos == 0 {
                break;
            }
            pos -= 1;
        }
    }
    ID16::from_bytes(b)
}

fn fill(stream: &mut SegmentedStream<u64>, idx: &mut RadixIndex<ID16, StreamIndex>, range: std::ops::Range<usize>) {
    for i in range {
        let key = make_id16(i);
        let sidx = stream.append_with_index(i as u64).expect("append");
        idx.upsert(&key, &sidx);
    }
}

fn resolve(stream: &SegmentedStream<u64>, idx: &RadixIndex<ID16, StreamIndex>, i: usize) -> u64 {
    let sidx = idx.get(&make_id16(i)).expect("key should exist");
    *stream.resolve_ref_unchecked(sidx)
}

#[test]
fn radix_single_page_all_resolve() {
    let mut stream: SegmentedStream<u64> = SegmentedStream::with_page_size(64);
    let mut idx: RadixIndex<ID16, StreamIndex> = RadixIndex::with_capacity(100, 400);
    fill(&mut stream, &mut idx, 0..20);
    for i in 0..20 {
        assert_eq!(resolve(&stream, &idx, i), i as u64, "Key {} should resolve to {}", i, i);
    }
}

#[test]
fn radix_across_stream_link_ahead_boundary() {
    let mut stream: SegmentedStream<u64> = SegmentedStream::with_page_size(64);
    let mut idx: RadixIndex<ID16, StreamIndex> = RadixIndex::with_capacity(100, 400);
    fill(&mut stream, &mut idx, 0..40);
    for i in 0..40 {
        assert_eq!(resolve(&stream, &idx, i), i as u64);
    }
}

#[test]
fn radix_across_stream_page_boundary() {
    let mut stream: SegmentedStream<u64> = SegmentedStream::with_page_size(64);
    let mut idx: RadixIndex<ID16, StreamIndex> = RadixIndex::with_capacity(200, 800);
    fill(&mut stream, &mut idx, 0..100);
    for i in 0..100 {
        assert_eq!(resolve(&stream, &idx, i), i as u64);
    }
}

#[test]
fn radix_random_access_after_multiple_stream_pages() {
    let mut stream: SegmentedStream<u64> = SegmentedStream::with_page_size(64);
    let mut idx: RadixIndex<ID16, StreamIndex> = RadixIndex::with_capacity(300, 1200);
    let count = 200;
    fill(&mut stream, &mut idx, 0..count);
    for i in (0..count).rev() {
        assert_eq!(resolve(&stream, &idx, i), i as u64);
    }
    for &i in &[0usize, 10, 31, 50, 63] {
        assert_eq!(resolve(&stream, &idx, i), i as u64);
    }
    for &i in &[5usize, 70, 15, 130, 25, 190, 35] {
        assert_eq!(resolve(&stream, &idx, i), i as u64);
    }
}

#[test]
fn radix_update_then_access_across_pages() {
    let mut stream: SegmentedStream<u64> = SegmentedStream::with_page_size(64);
    let mut idx: RadixIndex<ID16, StreamIndex> = RadixIndex::with_capacity(200, 800);
    let count = 100;
    fill(&mut stream, &mut idx, 0..count);
    let update_indices = [5usize, 35, 65, 95];
    for &i in &update_indices {
        let sidx = stream.append_with_index((i + 1000) as u64).expect("append");
        idx.upsert(&make_id16(i), &sidx);
    }
    for &i in &update_indices {
        assert_eq!(resolve(&stream, &idx, i), (i + 1000) as u64);
    }
    for i in 0..count {
        if !update_indices.contains(&i) {
            assert_eq!(resolve(&stream, &idx, i), i as u64);
        }
    }
}

#[test]
fn radix_delete_then_access_across_pages() {
    let mut stream: SegmentedStream<u64> = SegmentedStream::with_page_size(64);
    let mut idx: RadixIndex<ID16, StreamIndex> = RadixIndex::with_capacity(200, 800);
    let count = 100;
    fill(&mut stream, &mut idx, 0..count);
    let delete_indices = [5usize, 35, 65, 95];
    for &i in &delete_indices {
        idx.delete(&make_id16(i));
    }
    for &i in &delete_indices {
        assert!(idx.get(&make_id16(i)).is_none(), "Deleted key {} should return None", i);
    }
    for i in 0..count {
        if !delete_indices.contains(&i) {
            assert_eq!(resolve(&stream, &idx, i), i as u64);
        }
    }
}

#[test]
fn radix_iteration_across_stream_pages() {
    let mut stream: SegmentedStream<u64> = SegmentedStream::with_page_size(64);
    let mut idx: RadixIndex<ID16, StreamIndex> = RadixIndex::with_capacity(200, 800);
    let count = 100;
    fill(&mut stream, &mut idx, 0..count);
    let mut collected: Vec<u64> = idx.iter().into_iter().map(|sidx| *stream.resolve_ref_unchecked(sidx)).collect();
    collected.sort_unstable();
    assert_eq!(collected.len(), count);
    for i in 0..count {
        assert!(collected.contains(&(i as u64)), "Iteration should include value {}", i);
    }
}

#[test]
fn radix_stress_many_stream_pages() {
    let mut stream: SegmentedStream<u64> = SegmentedStream::with_page_size(64);
    let mut idx: RadixIndex<ID16, StreamIndex> = RadixIndex::with_capacity(1500, 6000);
    let count = 1000;
    fill(&mut stream, &mut idx, 0..count);
    for i in (0..count).step_by(10) {
        assert_eq!(resolve(&stream, &idx, i), i as u64);
    }
    assert_eq!(resolve(&stream, &idx, 0), 0);
    assert_eq!(resolve(&stream, &idx, count - 1), (count - 1) as u64);
}

#[test]
fn radix_mixed_operations_across_pages() {
    let mut stream: SegmentedStream<u64> = SegmentedStream::with_page_size(64);
    let mut idx: RadixIndex<ID16, StreamIndex> = RadixIndex::with_capacity(300, 1200);
    fill(&mut stream, &mut idx, 0..50);
    fill(&mut stream, &mut idx, 50..100);
    for i in (0..50).step_by(5) {
        let sidx = stream.append_with_index((i + 2000) as u64).expect("append");
        idx.upsert(&make_id16(i), &sidx);
    }
    for i in (50..100).step_by(5) {
        idx.delete(&make_id16(i));
    }
    for i in (0..50).step_by(5) {
        assert_eq!(resolve(&stream, &idx, i), (i + 2000) as u64);
    }
    for i in 0..50 {
        if i % 5 != 0 {
            assert_eq!(resolve(&stream, &idx, i), i as u64);
        }
    }
    for i in (50..100).step_by(5) {
        assert!(idx.get(&make_id16(i)).is_none(), "Deleted key {} should return None", i);
    }
    for i in 50..100 {
        if i % 5 != 0 {
            assert_eq!(resolve(&stream, &idx, i), i as u64);
        }
    }
}

#[test]
fn radix_basic_upsert_get_delete() {
    let mut idx: RadixIndex<u64, u64> = RadixIndex::with_capacity(16, 64);
    idx.upsert(&1, &10);
    idx.upsert(&2, &20);
    assert_eq!(idx.get(&1), Some(&10));
    assert_eq!(idx.get(&2), Some(&20));
    idx.delete(&1);
    assert_eq!(idx.get(&1), None);
    assert!(matches!(idx.lookup_with_hash(&1, massive_graph_core::mph_delta_index::util::hash64(&1u64)), DeltaState::Tombstone));
    assert!(matches!(idx.lookup_with_hash(&3, massive_graph_core::mph_delta_index::util::hash64(&3u64)), DeltaState::Miss));
    assert_eq!(idx.get_copy(&2), Some(20));
}

#[test]
fn consolidation_keeps_latest_state() {
    let mut idx: RadixIndex<u64, u64> = RadixIndex::with_capacity(16, 64);
    for round in 0..5u64 {
        for k in 0..40u64 {
            idx.upsert(&k, &(k * 100 + round));
        }
    }
    for k in (0..40u64).step_by(3) {
        idx.delete(&k);
    }
    let (buckets, before, after) = idx.consolidate_buckets();
    assert!(buckets >= 1);
    assert!(before >= after);
    assert_eq!(after, 40);
    idx.consolidate_snapshots_only();
    for k in 0..40u64 {
        if k % 3 == 0 {
            assert_eq!(idx.get(&k), None, "key {}", k);
        } else {
            assert_eq!(idx.get(&k), Some(&(k * 100 + 4)), "key {}", k);
        }
    }
    // Tombstones are kept by consolidation: every key still has a record.
    let mut latest: Vec<(u64, Option<u64>)> = idx.latest_records().into_iter().map(|(k, v)| (*k, v.copied())).collect();
    latest.sort_unstable();
    assert_eq!(latest.len(), 40);
    assert_eq!(latest[3], (3, None));
    assert_eq!(latest[4], (4, Some(404)));
    // Compaction drops the tombstones.
    let (_, before, after) = idx.compact_buckets();
    assert_eq!(before, 40);
    assert_eq!(after, 26);
    assert_eq!(idx.latest_records().len(), 26);
    assert_eq!(idx.get(&3), None);
    assert_eq!(idx.get(&4), Some(&404));
    let mut live: Vec<u64> = idx.iter().into_iter().copied().collect();
    live.sort_unstable();
    assert_eq!(live.len(), 26);
    assert_eq!(live[0], 104);
    idx.clear_all();
    assert_eq!(idx.get(&4), None);
    assert!(idx.iter().is_empty());
}

#[test]
fn stats_count_live_records() {
    let mut idx: RadixIndex<u64, u64> = RadixIndex::with_capacity(64, 256);
    for k in 0..10u64 {
        idx.upsert(&k, &k);
    }
    let stats = idx.collect_stats();
    assert_eq!(stats.total_keys, 10);
    assert!(stats.total_buckets >= 2);
}

#[test]
fn stats_count_unique_live_keys() {
    let mut r: RadixIndex<u64, u64> = RadixIndex::with_capacity(16, 64);
    r.upsert(&1, &10);
    r.delete(&2);
    let s = r.collect_stats();
    assert_eq!(s.total_keys, 1);
    assert_eq!(s.bucket_details.iter().map(|b| b.key_count).sum::<usize>(), 1);
    assert_eq!(s.bucket_details.iter().map(|b| b.total_records).sum::<usize>(), 2);
    assert_eq!(s.total_buckets, 2);
    assert_eq!(s.bucket_bits, 1);
    let mut r2: RadixIndex<u64, u64> = RadixIndex::with_capacity(16, 64);
    r2.upsert(&1, &10);
    r2.upsert(&1, &20);
    assert_eq!(r2.collect_stats().total_keys, 1);
    r2.delete(&1);
    assert_eq!(r2.collect_stats().total_keys, 0);
}

#[test]
fn stats_report_the_buffer_arena() {
    let mut r: RadixIndex<u64, u64> = RadixIndex::with_capacity(16, 64);
    assert_eq!(r.collect_stats().hotpath_arena.bytes_allocated, 0);
    r.upsert(&1, &10);
    let s = r.collect_stats();
    assert!(s.hotpath_arena.bytes_allocated + s.hotpath_arena.bytes_large > 0);
    assert_eq!(s.buffer_arena.bytes_allocated, 0);
}
