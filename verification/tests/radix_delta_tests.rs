//! The open-addressed delta overlay: hits, tombstones that keep their key,
//! misses, full buckets and clearing.
use massive_graph_core::mph_delta_index::radix_index::DeltaState;
use massive_graph_core::mph_delta_index::util::hash64;
use massive_graph_core::optimised_index::radix_delta::RadixDelta;

#[test]
fn basic_upsert_get_delete() {
    let mut d: RadixDelta<u64, u64> = RadixDelta::new();
    assert!(matches!(d.get_ref(&1), DeltaState::Miss));
    d.upsert(1, 10);
    match d.get_ref(&1) {
        DeltaState::Hit(&v) => assert_eq!(v, 10),
        _ => panic!("expected hit"),
    }
    d.delete(&1);
    assert!(matches!(d.get_ref(&1), DeltaState::Tombstone));
}

#[test]
fn delta_reads_through_arcs_and_seeds() {
    let mut d: RadixDelta<u64, String> = RadixDelta::with_params(4, 8);
    assert_eq!(d.get(&5), None);
    d.upsert(5, "five".to_string());
    assert_eq!(d.get(&5).map(|o| o.map(|a| (*a).clone())), Some(Some("five".to_string())));
    assert_eq!(d.get_hashed(&5, hash64(&5u64)).map(|o| o.is_some()), Some(true));
    d.upsert(5, "FIVE".to_string());
    assert_eq!(d.get(&5).map(|o| o.map(|a| (*a).clone())), Some(Some("FIVE".to_string())));
    d.delete(&5);
    assert_eq!(d.get(&5).map(|o| o.is_none()), Some(true));
    // A deleted key written again is live again.
    d.upsert(5, "again".to_string());
    assert!(matches!(d.get_ref(&5), DeltaState::Hit(v) if v == "again"));
    // Deleting a key never written records it as deleted.
    d.delete(&6);
    assert!(matches!(d.get_ref(&6), DeltaState::Tombstone));
}

#[test]
fn delta_buckets_fill_up() {
    // Two buckets of eight slots: at most sixteen keys fit.
    let mut d: RadixDelta<u64, u64> = RadixDelta::with_params(0, 0);
    for k in 0..100u64 {
        d.upsert(k, k + 1);
    }
    let mut stored = 0;
    for k in 0..100u64 {
        match d.get_ref(&k) {
            DeltaState::Hit(&v) => {
                assert_eq!(v, k + 1);
                stored += 1;
            }
            DeltaState::Tombstone => panic!("no key was deleted"),
            DeltaState::Miss => {}
        }
    }
    assert_eq!(stored, 16);
    // A deleted key's tombstone is taken over by the next absent key of its bucket.
    let present: Vec<u64> = (0..100u64).filter(|k| matches!(d.get_ref(k), DeltaState::Hit(_))).collect();
    d.delete(&present[0]);
    assert!(matches!(d.get_ref(&present[0]), DeltaState::Tombstone));
    for k in 0..100u64 {
        if matches!(d.get_ref(&k), DeltaState::Miss) {
            d.upsert(k, 1);
        }
    }
    assert!(matches!(d.get_ref(&present[0]), DeltaState::Miss));
    let live = (0..100u64).filter(|k| matches!(d.get_ref(k), DeltaState::Hit(_))).count();
    assert_eq!(live, 16);
    d.clear_all();
    for k in 0..100u64 {
        assert!(matches!(d.get_ref(&k), DeltaState::Miss));
    }
    d.upsert(3, 4);
    assert!(matches!(d.get_ref(&3), DeltaState::Hit(&4)));
}

#[test]
fn tombstone_slots_are_reused_by_new_keys() {
    let mut d: RadixDelta<u64, u64> = RadixDelta::with_params(1, 8);
    for k in 0..200u64 {
        d.upsert(k, k);
    }
    let stored: Vec<u64> = (0..200u64).filter(|k| matches!(d.get_ref(k), DeltaState::Hit(_))).collect();
    assert_eq!(stored.len(), 16);
    for k in &stored {
        d.delete(k);
    }
    for k in 1000..1200u64 {
        d.upsert(k, k + 1);
    }
    let fresh = (1000..1200u64).filter(|k| matches!(d.get_ref(k), DeltaState::Hit(v) if *v == k + 1)).count();
    assert_eq!(fresh, 16);
    // Each reused tombstone's key now reads as never written.
    let still_tomb = stored.iter().filter(|k| matches!(d.get_ref(k), DeltaState::Tombstone)).count();
    assert_eq!(still_tomb, 0);
}
