//! Storage settings of the database configuration.
use vstd::prelude::*;

verus! {

/// Available storage backend types.
#[derive(Debug, Clone, Copy, PartialEq, Eq)]
pub enum StorageType {
    /// In-memory storage using the simple document store.
    Simple,
    /// In-memory storage using the zero-copy document store.
    ZeroCopy,
}

/// Storage configuration.
#[derive(Debug, Clone)]
pub struct StorageConfig {
    /// Storage backend type.
    pub storage_type: StorageType,
    /// Data directory path (for future disk storage).
    pub data_dir: String,
}

impl Default for StorageConfig {
    /// The simple backend, with its data under `./data`.
    fn default() -> (r: Self)
        ensures
            r.storage_type == StorageType::Simple,
            r.data_dir@ == "./data"@,
    {
        StorageConfig { storage_type: StorageType::Simple, data_dir: "./data".to_owned() }
    }
}

} // verus!
