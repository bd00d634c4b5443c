//! Storage abstraction for document operations.
use vstd::prelude::*;

verus! {

/// Document storage backends. What each operation does is up to the
/// backend; nothing is promised of it here.
pub trait DocumentStorage: Send + Sync {
    /// Get a document, as bytes that the backend can interpret.
    fn get_document(&self) -> Option<Vec<u8>>;

    /// Apply a delta to a document.
    fn apply_delta(&self, delta: Vec<u8>) -> Result<(), String>;

    /// Create a new document.
    fn create_document(&self) -> Result<(), String>;

    /// Remove a document.
    fn delete_document(&self) -> Result<(), String>;
}

/// Everything a storage backend must be, in one bound.
pub trait StorageImpl: DocumentStorage + Send + Sync + 'static {}

impl<T> StorageImpl for T where T: DocumentStorage + Send + Sync + 'static {}

/// The zero-copy document store in its current form: it holds no documents,
/// and every change it is asked for succeeds without effect.
#[derive(Clone, Copy)]
pub struct ZeroCopyDocumentStorage {
    _shell: (),
}

impl ZeroCopyDocumentStorage {
    /// Create a new store.
    pub fn new() -> (r: Self) {
        ZeroCopyDocumentStorage { _shell: () }
    }
}

impl Default for ZeroCopyDocumentStorage {
    fn default() -> (r: Self) {
        Self::new()
    }
}

impl DocumentStorage for ZeroCopyDocumentStorage {
    /// No document is held.
    fn get_document(&self) -> (r: Option<Vec<u8>>)
        ensures
            r is None,
    {
        None
    }

    /// Accepted without effect.
    fn apply_delta(&self, _delta: Vec<u8>) -> (r: Result<(), String>)
        ensures
            r is Ok,
    {
        Ok(())
    }

    /// Accepted without effect.
    fn create_document(&self) -> (r: Result<(), String>)
        ensures
            r is Ok,
    {
        Ok(())
    }

    /// Accepted without effect.
    fn delete_document(&self) -> (r: Result<(), String>)
        ensures
            r is Ok,
    {
        Ok(())
    }
}

} // verus!
