//! Larger scenarios: random access into a published index, several scales,
//! stream indexes across pages, and a radix index with many keys.
use massive_graph_core::ids::ID16;
use massive_graph_core::mph_delta_index::mph_indexer::BBHashIndexer;
use massive_graph_core::mph_delta_index::radix_index::RadixIndex;
use massive_graph_core::mph_delta_index::OptimisedIndex;
use massive_graph_core::segmented_stream::{SegmentedStream, StreamIndex};

fn make_id16(x: usize) -> ID16 {
    let mut b = [0u8; 16];
    let mut x = x;
    let mut pos = 15;
    if x == 0 {
        b[pos] = b'0';
    } else {
        while x > 0 && pos < 16 {
            b[pos] = b'0' + (x % 10) as u8;
            x /= 10;
            if pos == 0 {
                break;
            }
            pos -= 1;
        }
    }
    ID16::from_bytes(b)
}

fn build_test_index(count: usize) -> (OptimisedIndex<ID16, u64>, Vec<ID16>) {
    let keys: Vec<ID16> = (0..count).map(make_id16).collect();
    let mph = BBHashIndexer::build(&keys, Default::default());
    let mut index = OptimisedIndex::new_with_indexer_and_capacity(mph, count, count * 2);
    for i in 0..count {
        index.upsert(keys[i], i as u64);
    }
    assert!(index.publish());
    (index, keys)
}

#[test]
fn diagnostic_random_access() {
    let (idx, keys) = build_test_index(1000);
    let access_order: Vec<usize> = (0..1000).map(|i| (i * 7919) % 1000).collect();
    let mut success_count = 0;
    let mut failure_count = 0;
    for &i in &access_order {
        match idx.get_mph(&keys[i]) {
            Some(v) if *v == i as u64 => success_count += 1,
            _ => failure_count += 1,
        }
    }
    assert_eq!(success_count, 1000, "All keys should be found");
    assert_eq!(failure_count, 0, "No failures should occur");
}

#[test]
fn diagnostic_scale_test() {
    for &scale in &[10usize, 100, 1000, 10000, 32768, 65535] {
        let (idx, keys) = build_test_index(scale);
        for &i in &[0, scale / 2, scale - 1] {
            let result = idx.get_mph(&keys[i]);
            assert!(result.is_some(), "Key {} should be found at scale {}", i, scale);
            assert_eq!(*result.unwrap(), i as u64, "Key {} should have value {} at scale {}", i, i, scale);
        }
    }
}

#[test]
fn diagnostic_streamindex_page_boundaries() {
    let page_size = 512;
    let mut stream = SegmentedStream::<u64>::with_page_size(page_size);
    let count = page_size * 3;
    let mut stream_indexes: Vec<StreamIndex> = Vec::new();
    for i in 0..count {
        stream_indexes.push(stream.append_with_index(i as u64).unwrap());
    }
    assert_eq!(stream_indexes[page_size - 1], StreamIndex { page: 0, idx: (page_size - 1) as u32 });
    assert_eq!(stream_indexes[page_size], StreamIndex { page: 1, idx: 0 });
    for (i, sidx) in stream_indexes.iter().enumerate() {
        assert_eq!(*stream.resolve_ref_unchecked(sidx), i as u64, "Value mismatch at index {}", i);
    }
}

#[test]
fn diagnostic_1m_index_get_mph() {
    let (idx, keys) = build_test_index(1_000_000);
    for i in (0..keys.len()).step_by(10_000) {
        let result = idx.get_mph(&keys[i]);
        assert!(result.is_some(), "Key {} should be found", i);
        assert_eq!(*result.unwrap(), i as u64, "Key {} should have value {}", i, i);
    }
    for &i in &[0usize, 1, 999_999, 500_000, 250_000, 750_000, 100_000, 900_000] {
        let result = idx.get_mph(&keys[i]);
        assert!(result.is_some(), "Key {} should be found", i);
        assert_eq!(*result.unwrap(), i as u64);
    }
}

#[test]
fn diagnostic_radix_65k_stress_test() {
    let mut stream = SegmentedStream::new();
    let keys: Vec<ID16> = (0..65535).map(make_id16).collect();
    let mut stream_indexes = Vec::with_capacity(65535);
    for i in 0..65535 {
        stream_indexes.push(stream.append_with_index(i as u64).unwrap());
    }
    let mut radix: RadixIndex<ID16, StreamIndex> = RadixIndex::with_capacity(65535, 65535 * 2);
    for (i, key) in keys.iter().enumerate() {
        radix.upsert(key, &stream_indexes[i]);
    }
    for &i in &[0usize, 1000, 32767, 65534] {
        let result = radix.get(&keys[i]);
        assert!(result.is_some(), "Key {} should be found", i);
        assert_eq!(*stream.resolve_ref_unchecked(result.unwrap()), i as u64);
    }
}
