//! The segmented stream: appends, page linking, stream indexes and cursors.
use massive_graph_core::segmented_stream::{
    Cursor, Page, RecycleStep, Ring, SegmentedStream, StreamIndex, StreamPagePool,
};

#[test]
fn stream_new_initial_state() {
    let s: SegmentedStream<u32> = SegmentedStream::new();
    let pages = s.pages();
    assert_eq!(pages.len(), 1);
    let head = s.active_page();
    assert_eq!(head.claimed(), 0);
    assert_eq!(head.committed(), 0);
    assert!(head.next_page().is_none());
}

#[test]
fn single_writer_append_and_read_order() {
    let mut s: SegmentedStream<u32> = SegmentedStream::new();
    assert!(s.append(10).is_ok());
    assert!(s.append(20).is_ok());
    assert!(s.append(30).is_ok());
    let mut c = Cursor::new_at_head(&s);
    let mut got = Vec::new();
    if let Some(v) = c.next(&s) {
        got.push(*v);
    }
    if let Some(v) = c.next(&s) {
        got.push(*v);
    }
    if let Some(v) = c.next(&s) {
        got.push(*v);
    }
    assert_eq!(got, vec![10, 20, 30]);
    assert!(c.next(&s).is_none());
}

#[test]
fn next_batch_basic() {
    let mut s: SegmentedStream<u32> = SegmentedStream::new();
    for v in [1_u32, 2, 3] {
        s.append(v).unwrap();
    }
    let mut c = Cursor::new_at_head(&s);
    let batch = c.next_batch(&s);
    assert_eq!(batch, &[1, 2, 3]);
    let batch2 = c.next_batch(&s);
    assert!(batch2.is_empty());
}

#[test]
fn page_boundary_and_linking_single_link_guarantee() {
    let page_size = 64;
    let mut s: SegmentedStream<u32> = SegmentedStream::with_page_size(page_size);
    for i in 0..(page_size as u32) {
        s.append(i).unwrap();
    }
    let head = &s.pages()[0];
    assert_eq!(head.committed(), page_size as u32);
    let next = head.next_page().expect("next page should be pre-linked");
    s.append(100).unwrap();
    s.append(101).unwrap();
    assert!(s.pages()[next].committed() >= 2);
    assert!(s.pages().len() >= 2, "Should have at least 2 pages after rollover");
}

#[test]
fn tail_behavior_and_resume_after_more_appends() {
    let mut s: SegmentedStream<u32> = SegmentedStream::new();
    s.append(1).unwrap();
    s.append(2).unwrap();
    let mut c = Cursor::new_at_head(&s);
    assert_eq!(c.next(&s).copied(), Some(1));
    assert_eq!(c.next(&s).copied(), Some(2));
    assert!(c.next(&s).is_none());
    s.append(3).unwrap();
    s.append(4).unwrap();
    assert_eq!(c.next(&s).copied(), Some(3));
    assert_eq!(c.next(&s).copied(), Some(4));
}

#[test]
fn batch_read_hops_to_next_page_on_full() {
    let page_size = 64;
    let mut s: SegmentedStream<u32> = SegmentedStream::with_page_size(page_size);
    let total = page_size + 3;
    for i in 0..(total as u32) {
        s.append(i).unwrap();
    }
    let mut c = Cursor::new_at_head(&s);
    let b1 = c.next_batch(&s);
    assert_eq!(b1.len(), page_size);
    let b2 = c.next_batch(&s);
    assert!(b2.is_empty());
    let b3 = c.next_batch(&s);
    assert_eq!(b3.len(), 3);
    assert_eq!(b3, &[64, 65, 66]);
}

#[test]
fn stream_uses_ready_ring_without_prefiller() {
    let mut pool = StreamPagePool::<u32>::with_capacity(0);
    let mut ready = Ring::new(4);
    assert!(ready.push(Page::<u32>::new(64, 0)));
    assert!(ready.push(Page::<u32>::new(64, 0)));
    assert!(ready.push(Page::<u32>::new(64, 0)));
    pool.set_ready(ready);
    let page_size = 64;
    let link_ahead = (page_size / 2) as u32;
    let mut s = SegmentedStream::with_pool_and_page_size(pool, page_size);
    let initial_count = s.pool().unwrap().ready_len();
    for i in 0..=link_ahead {
        s.append(i).unwrap();
    }
    let after_link_ahead = s.pool().unwrap().ready_len();
    assert!(after_link_ahead < initial_count, "ready ring not consumed (initial={}, after={})", initial_count, after_link_ahead);
}

#[test]
fn append_with_index_single_page_all_resolve() {
    let mut s: SegmentedStream<u64> = SegmentedStream::with_page_size(64);
    let count = 20;
    let mut indices = Vec::new();
    for i in 0..count {
        indices.push(s.append_with_index(i).expect("append should succeed"));
    }
    for (i, sidx) in indices.iter().enumerate() {
        assert_eq!(*s.resolve_ref_unchecked(sidx), i as u64, "StreamIndex[{}] should resolve to {}", i, i);
    }
}

#[test]
fn append_with_index_across_link_ahead_boundary() {
    let mut s: SegmentedStream<u64> = SegmentedStream::with_page_size(64);
    let count = 40;
    let mut indices = Vec::new();
    for i in 0..count {
        indices.push(s.append_with_index(i).expect("append should succeed"));
    }
    for (i, sidx) in indices.iter().enumerate() {
        assert_eq!(*s.resolve_ref_unchecked(sidx), i as u64);
    }
    let head = s.active_page();
    assert_eq!(head.committed(), count as u32);
    let next = head.next_page().expect("Next page should be pre-linked at LINK_AHEAD");
    assert_eq!(s.pages()[next].committed(), 0, "Next page should be linked but empty");
}

#[test]
fn append_with_index_across_page_boundary() {
    let mut s: SegmentedStream<u64> = SegmentedStream::with_page_size(64);
    let count = 100usize;
    let mut indices = Vec::new();
    for i in 0..count {
        indices.push(s.append_with_index(i as u64).expect("append should succeed"));
    }
    for (i, sidx) in indices.iter().enumerate() {
        assert_eq!(*s.resolve_ref_unchecked(sidx), i as u64);
    }
    let head = &s.pages()[0];
    let next = head.next_page().expect("First page should link to second page");
    let page_size = head.size();
    assert_eq!(head.committed(), page_size as u32, "First page should be completely filled");
    let expected_in_second = count - page_size;
    assert_eq!(s.pages()[next].committed(), expected_in_second as u32);
}

#[test]
fn append_with_index_random_access_after_multiple_pages() {
    let mut s: SegmentedStream<u64> = SegmentedStream::with_page_size(64);
    let count = 200usize;
    let mut indices = Vec::new();
    for i in 0..count {
        indices.push(s.append_with_index(i as u64).expect("append should succeed"));
    }
    for i in (0..count).rev() {
        assert_eq!(*s.resolve_ref_unchecked(&indices[i]), i as u64);
    }
    for &i in &[0usize, 10, 31, 50, 63] {
        assert_eq!(*s.resolve_ref_unchecked(&indices[i]), i as u64);
    }
    for &i in &[5usize, 70, 15, 130, 25, 190, 35] {
        assert_eq!(*s.resolve_ref_unchecked(&indices[i]), i as u64);
    }
}

#[test]
fn append_with_index_forward_cursor_still_works() {
    let mut s: SegmentedStream<u64> = SegmentedStream::with_page_size(64);
    let count = 100usize;
    let mut indices = Vec::new();
    for i in 0..count {
        indices.push(s.append_with_index(i as u64).expect("append should succeed"));
    }
    let mut cursor = Cursor::new_at_head(&s);
    let mut collected = Vec::new();
    while let Some(v) = cursor.next(&s) {
        collected.push(*v);
    }
    assert_eq!(collected.len(), count);
    for (i, &v) in collected.iter().enumerate() {
        assert_eq!(v, i as u64, "Cursor iteration should yield values in order");
    }
    for (i, sidx) in indices.iter().enumerate() {
        assert_eq!(*s.resolve_ref_unchecked(sidx), i as u64);
    }
}

#[test]
fn append_with_index_page_transition_seamless() {
    let mut s: SegmentedStream<u64> = SegmentedStream::with_page_size(64);
    let page_size = 64;
    let mut indices = Vec::new();
    for i in 0..page_size {
        indices.push(s.append_with_index(i as u64).expect("append should succeed"));
    }
    let head = &s.pages()[0];
    assert_eq!(head.committed(), head.size() as u32, "First page should be exactly full");
    let next = head.next_page().expect("Next page should be pre-linked");
    let sidx_next = s.append_with_index(page_size as u64).expect("append should succeed");
    indices.push(sidx_next);
    assert_eq!(s.pages()[next].committed(), 1, "Second page should have exactly one item");
    for (i, sidx) in indices[0..page_size].iter().enumerate() {
        assert_eq!(*s.resolve_ref_unchecked(sidx), i as u64);
    }
    assert_eq!(*s.resolve_ref_unchecked(&sidx_next), page_size as u64);
}

#[test]
fn append_with_index_interleaved_with_append() {
    let mut s: SegmentedStream<u64> = SegmentedStream::with_page_size(64);
    let mut indices = Vec::new();
    for i in 0..50 {
        if i % 2 == 0 {
            indices.push(Some(s.append_with_index(i).expect("append_with_index")));
        } else {
            s.append(i).expect("append");
            indices.push(None);
        }
    }
    for (i, opt_sidx) in indices.iter().enumerate() {
        if let Some(sidx) = opt_sidx {
            assert_eq!(*s.resolve_ref_unchecked(sidx), i as u64);
        }
    }
    let mut cursor = Cursor::new_at_head(&s);
    let mut collected = Vec::new();
    while let Some(v) = cursor.next(&s) {
        collected.push(*v);
    }
    assert_eq!(collected.len(), 50);
}

#[test]
fn append_with_index_stress_many_pages() {
    let mut s: SegmentedStream<u64> = SegmentedStream::with_page_size(64);
    let count = 1000usize;
    let mut indices = Vec::new();
    for i in 0..count {
        indices.push(s.append_with_index(i as u64).expect("append should succeed"));
    }
    for i in (0..count).step_by(10) {
        assert_eq!(*s.resolve_ref_unchecked(&indices[i]), i as u64);
    }
    assert_eq!(*s.resolve_ref_unchecked(&indices[0]), 0);
    assert_eq!(*s.resolve_ref_unchecked(&indices[count - 1]), (count - 1) as u64);
}

#[test]
fn append_with_index_page_pointers_remain_valid() {
    let mut s: SegmentedStream<u64> = SegmentedStream::with_page_size(64);
    let mut indices = Vec::new();
    for i in 0..150 {
        indices.push(s.append_with_index(i).expect("append"));
    }
    let first_page = indices[0].page;
    let second_page = indices[64].page;
    let third_page = indices[128].page;
    assert_ne!(first_page, second_page);
    assert_ne!(second_page, third_page);
    for i in 0..64 {
        assert_eq!(indices[i].page, first_page);
    }
    for i in 64..128 {
        assert_eq!(indices[i].page, second_page);
    }
    for (i, sidx) in indices.iter().enumerate() {
        assert_eq!(*s.resolve_ref_unchecked(sidx), i as u64);
    }
}

#[test]
fn resolve_ref_of_unwritten_index_is_none() {
    let mut s: SegmentedStream<u64> = SegmentedStream::with_page_size(4);
    let si = s.append_with_index(7).unwrap();
    assert_eq!(s.resolve_ref(&si), Some(&7));
    assert_eq!(s.resolve_ref(&StreamIndex { page: 0, idx: 1 }), None);
    assert_eq!(s.resolve_ref(&StreamIndex { page: 5, idx: 0 }), None);
}

#[test]
fn appended_indexes_are_page_and_slot() {
    let mut s: SegmentedStream<u64> = SegmentedStream::with_page_size(4);
    let got: Vec<StreamIndex> = (0..6).map(|i| s.append_with_index(i).unwrap()).collect();
    assert_eq!(got[0], StreamIndex { page: 0, idx: 0 });
    assert_eq!(got[3], StreamIndex { page: 0, idx: 3 });
    assert_eq!(got[4], StreamIndex { page: 1, idx: 0 });
    assert_eq!(got[5], StreamIndex { page: 1, idx: 1 });
}

#[test]
fn pool_prefill_and_recycle_steps() {
    let pool = StreamPagePool::<u64>::with_capacity(2).with_prefiller(4);
    let mut pool = pool;
    assert_eq!(pool.ready_len(), 0);
    let added = pool.prefill_once();
    assert_eq!(added, 4);
    assert_eq!(pool.ready_len(), 4);
    assert_eq!(pool.prefill_once(), 0);
    let mut recycler = StreamPagePool::<u64>::with_capacity(0).with_recycler(2, 2);
    assert_eq!(recycler.recycle_once(), RecycleStep::Idle);
    assert!(pool.get().is_some());
    assert!(StreamPagePool::<u64>::with_capacity(0).get().is_none());
}

#[test]
fn ring_slots_taken_in_turn() {
    let mut ring: Ring<u32> = Ring::new(2);
    assert_eq!(ring.capacity(), 2);
    assert!(ring.push(1));
    assert!(ring.push(2));
    assert!(!ring.push(3));
    assert_eq!(ring.len(), 2);
    assert_eq!(ring.pop(), Some(1));
    assert_eq!(ring.pop(), Some(2));
    assert_eq!(ring.pop(), None);
    assert_eq!(ring.len(), 0);
}

#[test]
fn ring_is_fifo_after_empty_pop() {
    let mut r: massive_graph_core::segmented_stream::Ring<u32> = massive_graph_core::segmented_stream::Ring::new(4);
    assert_eq!(r.pop(), None);
    assert!(r.push(7));
    assert_eq!(r.pop(), Some(7));
    assert!(r.push(1) && r.push(2) && r.push(3) && r.push(4));
    assert!(!r.push(5));
    assert_eq!(r.pop(), Some(1));
    assert!(r.push(5));
    assert_eq!((r.pop(), r.pop(), r.pop(), r.pop(), r.pop()), (Some(2), Some(3), Some(4), Some(5), None));
}

#[test]
fn append_with_index_layout_is_page_major() {
    let mut s: SegmentedStream<u64> = SegmentedStream::with_page_size(64);
    let mut ix = Vec::new();
    for i in 0..100u64 {
        ix.push(s.append_with_index(i).unwrap());
    }
    for i in 0..100usize {
        assert_eq!(*s.resolve_ref_unchecked(&ix[i]), i as u64);
        assert_eq!(ix[i].idx, (i % 64) as u32);
        assert_eq!(ix[i].page, i / 64);
    }
    assert_ne!(ix[0].page, ix[64].page);
    assert_eq!(s.pages()[ix[0].page].committed(), 64);
    assert_eq!(s.pages()[ix[64].page].committed(), 36);
}

#[test]
fn cursor_keeps_its_place_across_appends() {
    let mut s: SegmentedStream<u64> = SegmentedStream::with_page_size(4);
    for i in 0..4u64 {
        s.append(i).unwrap();
    }
    let mut c = Cursor::new_at_head(&s);
    for i in 0..4u64 {
        assert_eq!(c.next(&s), Some(&i));
    }
    assert_eq!(c.next(&s), None);
    for i in 4..10u64 {
        s.append(i).unwrap();
    }
    for i in 4..10u64 {
        assert_eq!(c.next(&s), Some(&i));
    }
    assert_eq!(c.next(&s), None);
}

#[test]
fn prefill_adds_at_most_eight_fresh_pages() {
    let mut pool = StreamPagePool::<u64>::with_capacity(0).with_prefiller(16);
    assert_eq!(pool.prefill_once(), 8);
    assert_eq!(pool.ready_len(), 8);
    assert_eq!(pool.prefill_once(), 8);
    assert_eq!(pool.ready_len(), 16);
    assert_eq!(pool.prefill_once(), 0);
    assert_eq!(pool.ready_len(), 16);
}
