//! The bounded single-producer single-consumer ring, used directly and
//! through batched handles.
use massive_graph_core::spsc::{SpscConsumer, SpscProducer, SpscRing};

#[test]
fn basic_push_pop_order() {
    let mut ring = SpscRing::with_capacity_pow2(4);
    assert!(ring.is_empty());
    for i in 0..4 {
        ring.push(i).unwrap();
    }
    assert!(ring.is_full());
    for i in 0..4 {
        assert_eq!(ring.pop(), Some(i));
    }
    assert!(ring.is_empty());
}

#[test]
fn full_then_recover() {
    let mut ring = SpscRing::with_capacity_pow2(2);
    ring.push(1).unwrap();
    ring.push(2).unwrap();
    assert!(ring.is_full());
    assert_eq!(ring.push(3), Err(3));
    assert_eq!(ring.pop(), Some(1));
    assert!(ring.push(3).is_ok());
}

#[test]
fn empty_pop_none() {
    let mut ring = SpscRing::<u32>::with_capacity_pow2(2);
    assert!(ring.is_empty());
    assert_eq!(ring.pop(), None);
}

#[test]
fn wraparound_small_caps() {
    for cap in [2usize, 4, 8] {
        let mut ring = SpscRing::with_capacity_pow2(cap);
        let rounds = cap * 3;
        for i in 0..rounds {
            let _ = ring.push(i);
            let _ = ring.pop();
        }
        assert!(ring.is_empty());
    }
}

#[test]
fn capacity_rounds_to_pow2() {
    let ring = SpscRing::<u8>::with_capacity_pow2(3);
    assert_eq!(ring.capacity(), 4);
    let ring = SpscRing::<u8>::with_capacity_pow2(5);
    assert_eq!(ring.capacity(), 8);
}

#[test]
fn capacity_is_at_least_two() {
    assert_eq!(SpscRing::<u8>::with_capacity_pow2(0).capacity(), 2);
    assert_eq!(SpscRing::<u8>::with_capacity_pow2(1).capacity(), 2);
    assert_eq!(SpscRing::<u8>::with_capacity_pow2(2).capacity(), 2);
    assert_eq!(SpscRing::<u8>::with_capacity_pow2(16).capacity(), 16);
    assert_eq!(SpscRing::<u8>::with_capacity_pow2(17).capacity(), 32);
}

#[test]
fn fifo_order_across_wraparound() {
    let mut ring = SpscRing::with_capacity_pow2(4);
    let mut next_in = 0u32;
    let mut next_out = 0u32;
    for _ in 0..10 {
        while ring.push(next_in).is_ok() {
            next_in += 1;
        }
        assert!(ring.is_full());
        for _ in 0..3 {
            assert_eq!(ring.pop(), Some(next_out));
            next_out += 1;
        }
    }
    while let Some(v) = ring.pop() {
        assert_eq!(v, next_out);
        next_out += 1;
    }
    assert_eq!(next_in, next_out);
}

#[test]
fn batched_writes_become_visible_on_publish() {
    let ring = SpscRing::<u32>::with_capacity_pow2(8);
    let (mut producer, mut consumer): (SpscProducer<u32, 3>, SpscConsumer<u32, 3>) =
        SpscRing::split_batched_owned(&ring);
    let mut ring = ring;
    producer.push(&mut ring, 1).unwrap();
    producer.push(&mut ring, 2).unwrap();
    // Two pending writes are not published yet.
    assert!(ring.is_empty());
    assert_eq!(consumer.pop(&mut ring), None);
    producer.push(&mut ring, 3).unwrap();
    // The third write publishes the batch.
    assert!(!ring.is_empty());
    assert_eq!(consumer.pop(&mut ring), Some(1));
    assert_eq!(consumer.pop(&mut ring), Some(2));
    assert_eq!(consumer.pop(&mut ring), Some(3));
    assert_eq!(consumer.pop(&mut ring), None);
    producer.push(&mut ring, 4).unwrap();
    producer.flush(&mut ring);
    assert_eq!(consumer.pop(&mut ring), Some(4));
}

#[test]
fn batched_reads_release_slots_on_publish() {
    let ring = SpscRing::<u32>::with_capacity_pow2(2);
    let (mut producer, mut consumer): (SpscProducer<u32, 2>, SpscConsumer<u32, 2>) =
        SpscRing::split_batched_owned(&ring);
    let mut ring = ring;
    producer.push(&mut ring, 10).unwrap();
    producer.push(&mut ring, 11).unwrap();
    assert!(ring.is_full());
    assert_eq!(producer.push(&mut ring, 12), Err(12));
    assert_eq!(consumer.pop(&mut ring), Some(10));
    // The read is not released yet: the slot is still taken.
    assert_eq!(producer.push(&mut ring, 12), Err(12));
    consumer.flush(&mut ring);
    assert!(producer.push(&mut ring, 12).is_ok());
    assert_eq!(consumer.pop(&mut ring), Some(11));
    // The write of 12 is still pending.
    assert_eq!(consumer.pop(&mut ring), None);
    producer.flush(&mut ring);
    assert_eq!(consumer.pop(&mut ring), Some(12));
    assert_eq!(consumer.pop(&mut ring), None);
}
