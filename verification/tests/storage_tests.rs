//! The storage trait's zero-copy backend and delta application.
use massive_graph_core::delta::apply_delta_placeholder;
use massive_graph_core::storage::{DocumentStorage, StorageImpl, ZeroCopyDocumentStorage};

fn use_backend<S: StorageImpl>(s: &S) -> (Option<Vec<u8>>, bool, bool, bool) {
    (
        s.get_document(),
        s.apply_delta(vec![1, 2, 3]).is_ok(),
        s.create_document().is_ok(),
        s.delete_document().is_ok(),
    )
}

#[test]
fn zero_copy_storage_holds_nothing_and_accepts_changes() {
    let store = ZeroCopyDocumentStorage::new();
    assert_eq!(use_backend(&store), (None, true, true, true));
}

#[test]
fn zero_copy_storage_default_and_clone_are_empty() {
    let store = ZeroCopyDocumentStorage::default();
    let copy = store.clone();
    assert!(copy.get_document().is_none());
    assert!(store.get_document().is_none());
}

#[test]
fn apply_delta_placeholder_accepts() {
    assert_eq!(apply_delta_placeholder(), Ok(()));
}
