//! A user's space: its document index over an empty snapshot, document
//! operations and counters.
use massive_graph_core::ids::ID16;
use massive_graph_core::mph_delta_index::mph_indexer::MphIndexer;
use massive_graph_core::user_space::{PlaceholderIndexer, UserSpace, UserSpaceStats};

fn doc(i: u8) -> ID16 {
    let mut b = [0u8; 16];
    b[15] = i;
    ID16::from_bytes(b)
}

#[test]
fn new_space_is_empty() {
    let s = UserSpace::new(42);
    assert_eq!(s.user_id(), 42);
    assert_eq!(s.document_count(), 0);
    assert!(!s.document_exists(doc(1)));
    assert!(s.get_document(doc(1)).is_none());
}

#[test]
fn create_is_accepted_and_remove_leaves_nothing() {
    let mut s = UserSpace::new(7);
    assert!(s.create_document(doc(3), vec![1, 2, 3]).is_ok());
    s.remove_document(doc(3));
    assert!(!s.document_exists(doc(3)));
    assert_eq!(s.document_count(), 0);
}

#[test]
fn stats_belong_to_the_user() {
    let s = UserSpace::new(9);
    let st: UserSpaceStats = s.stats();
    let other = UserSpaceStats::new(9, 0, 0);
    let _copy = st;
    let _other_copy = other;
}

#[test]
fn placeholder_indexer_builds_for_one_key_only() {
    assert!(<PlaceholderIndexer as MphIndexer<ID16>>::build(&[doc(1)]).is_some());
    assert!(<PlaceholderIndexer as MphIndexer<ID16>>::build(&[doc(1), doc(2)]).is_none());
    assert!(<PlaceholderIndexer as MphIndexer<ID16>>::build(&[]).is_none());
    let ix = PlaceholderIndexer;
    assert_eq!(<PlaceholderIndexer as MphIndexer<ID16>>::eval(&ix, &doc(5)), 0);
}
