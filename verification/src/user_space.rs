//! Per-user storage: a user's document index, the user's subscriptions,
//! connections and queues, and the user's storage counters.
use vstd::prelude::*;
use crate::ids::{IndexKey, ID16};
use crate::mph_delta_index::mph_indexer::{MphIndexer, key_seq, is_perfect, slot_hit};
use crate::optimised_index::snapshot_index::{DeltaOp, OptimisedIndexGen, SnapshotGen, base_value, delta_step};
use crate::segmented_stream::SegmentedStream;
use crate::storage::{DocumentStorage, ZeroCopyDocumentStorage};

verus! {

/// Identifier of a user.
pub type UserId = u64;

/// Identifier of a document.
pub type DocId = ID16;

/// Indexer of an index whose snapshot holds nothing yet: every key goes to
/// slot 0. It is a perfect hash for a single key only, so building one for
/// any other number of keys fails.
#[derive(Clone, Copy)]
pub struct PlaceholderIndexer;

impl<K: IndexKey> MphIndexer<K> for PlaceholderIndexer {
    open spec fn indexer_valid(&self) -> bool {
        true
    }

    open spec fn slot_count(&self) -> nat {
        1
    }

    open spec fn eval_spec(&self, kb: Seq<u8>) -> int {
        0
    }

    open spec fn build_ok(ks: Seq<Seq<u8>>) -> bool {
        ks.len() == 1
    }

    fn eval(&self, _key: &K) -> (r: usize) {
        0
    }

    fn build(keys: &[K]) -> (r: Option<Self>) {
        if keys.len() == 1 {
            let ix = PlaceholderIndexer;
            proof {
                let ks = key_seq(keys@);
                let f = |kb: Seq<u8>| <PlaceholderIndexer as MphIndexer<K>>::eval_spec(&ix, kb);
                assert(f(ks[0]) == 0);
                assert(slot_hit(f, ks, 0));
                assert(is_perfect(f, ks));
            }
            Some(ix)
        } else {
            None
        }
    }
}

/// Storage counters of a user space.
#[derive(Clone, Copy)]
pub struct UserSpaceStats {
    /// The user the space belongs to.
    user_id: UserId,
    /// Bytes the space uses.
    total_bytes_used: u64,
    /// Bytes the space may use.
    quota_bytes: u64,
    /// When the space was created, in seconds since the Unix epoch.
    created_at: u64,
}

/// Seconds elapsed since the Unix epoch, by `SystemTime::elapsed` on
/// `UNIX_EPOCH` (0 when the clock reads a time before the epoch). Nothing is
/// claimed of the value: it is the time of the call.
#[verifier::external_body]
fn current_timestamp() -> (r: u64) {
    match std::time::UNIX_EPOCH.elapsed() {
        Ok(d) => d.as_secs(),
        Err(_) => 0,
    }
}

impl UserSpaceStats {
    /// The user the counters belong to.
    pub closed spec fn user_view(&self) -> UserId {
        self.user_id
    }

    /// Bytes used.
    pub closed spec fn used_view(&self) -> u64 {
        self.total_bytes_used
    }

    /// The quota in bytes.
    pub closed spec fn quota_view(&self) -> u64 {
        self.quota_bytes
    }

    /// Creation time, in seconds since the Unix epoch.
    pub closed spec fn created_view(&self) -> u64 {
        self.created_at
    }

    /// Counters for a user, stamped with the current time.
    pub fn new(user_id: UserId, total_bytes_used: u64, quota_bytes: u64) -> (r: Self)
        ensures
            r.user_view() == user_id,
            r.used_view() == total_bytes_used,
            r.quota_view() == quota_bytes,
    {
        let created_at = current_timestamp();
        UserSpaceStats { user_id, total_bytes_used, quota_bytes, created_at }
    }
}

/// Per-user space: the user's document index, subscriptions, connections
/// and queues, and the user's counters.
pub struct UserSpace {
    user_id: UserId,
    doc_index: OptimisedIndexGen<DocId, ZeroCopyDocumentStorage, PlaceholderIndexer>,
    subscriptions: Vec<DocId>,
    connections: Vec<DocId>,
    queues: Vec<DocId>,
    stats: UserSpaceStats,
}

impl UserSpace {
    /// The user the space belongs to.
    pub closed spec fn user_view(&self) -> UserId {
        self.user_id
    }

    /// The document index.
    pub closed spec fn index_view(&self) -> OptimisedIndexGen<DocId, ZeroCopyDocumentStorage, PlaceholderIndexer> {
        self.doc_index
    }

    /// The counters.
    pub closed spec fn stats_view(&self) -> UserSpaceStats {
        self.stats
    }

    /// The document the space holds under the id with bytes `kb`.
    pub open spec fn doc_view(&self, kb: Seq<u8>) -> Option<ZeroCopyDocumentStorage> {
        self.index_view().get_view(kb)
    }

    /// The document index is well formed.
    pub closed spec fn wf(&self) -> bool {
        self.doc_index.wf()
    }

    /// A new space for a user: an index over an empty snapshot and an empty
    /// delta stream, no subscriptions, connections or queues, and counters
    /// at zero.
    pub fn new(user_id: UserId) -> (r: Self)
        ensures
            r.wf(),
            r.user_view() == user_id,
            forall|kb: Seq<u8>| #[trigger] r.doc_view(kb) is None,
            r.index_view().snapshot_view().mph_vals@.len() == 0,
            r.stats_view().user_view() == user_id,
            r.stats_view().used_view() == 0,
            r.stats_view().quota_view() == 0,
    {
        let snapshot = SnapshotGen {
            version: 0,
            reserved_keys: Vec::new(),
            reserved_vals: Vec::new(),
            mph_vals: Vec::new(),
            mph_indexer: PlaceholderIndexer,
        };
        let ghost snap = snapshot;
        let delta_stream = SegmentedStream::<DeltaOp<DocId, ZeroCopyDocumentStorage>>::new();
        let doc_index = OptimisedIndexGen::new(snapshot, delta_stream);
        proof {
            assert forall|kb: Seq<u8>| #[trigger] base_value(snap, kb) is None by {}
        }
        UserSpace {
            user_id,
            doc_index,
            subscriptions: Vec::new(),
            connections: Vec::new(),
            queues: Vec::new(),
            stats: UserSpaceStats::new(user_id, 0, 0),
        }
    }

    /// The user the space belongs to.
    pub fn user_id(&self) -> (r: UserId)
        ensures
            r == self.user_view(),
    {
        self.user_id
    }

    /// Number of documents in the index's published snapshot.
    pub fn document_count(&self) -> (r: usize)
        ensures
            r == self.index_view().snapshot_view().mph_vals@.len(),
    {
        self.doc_index.len()
    }

    /// Accept a new document; nothing is stored yet.
    pub fn create_document(&self, _doc_id: DocId, _doc_data: Vec<u8>) -> (r: Result<(), String>)
        ensures
            r is Ok,
    {
        Ok(())
    }

    /// The document held under an id, if any.
    pub fn get_document(&self, doc_id: DocId) -> (r: Option<ZeroCopyDocumentStorage>)
        requires
            self.wf(),
        ensures
            r == self.doc_view(doc_id.key_bytes()),
    {
        match self.doc_index.get(&doc_id) {
            Some(d) => Some(*d),
            None => None,
        }
    }

    /// Remove the document held under an id.
    pub fn remove_document(&mut self, doc_id: DocId)
        requires
            old(self).wf(),
        ensures
            final(self).wf(),
            final(self).user_view() == old(self).user_view(),
            final(self).stats_view() == old(self).stats_view(),
            delta_step(old(self).index_view().delta_view(), DeltaOp::Delete(doc_id), final(self).index_view().delta_view()),
            final(self).index_view().snapshot_view() == old(self).index_view().snapshot_view(),
    {
        self.doc_index.remove(&doc_id)
    }

    /// Whether a document is held under an id.
    pub fn document_exists(&self, doc_id: DocId) -> (r: bool)
        requires
            self.wf(),
        ensures
            r == self.doc_view(doc_id.key_bytes()) is Some,
    {
        self.doc_index.contains_key(&doc_id)
    }

    /// Apply a delta to the document held under an id, which must exist.
    pub fn apply_delta(&self, doc_id: DocId, delta: Vec<u8>) -> (r: Result<(), String>)
        requires
            self.wf(),
            self.doc_view(doc_id.key_bytes()) is Some,
        ensures
            r is Ok,
    {
        match self.doc_index.get(&doc_id) {
            Some(d) => d.apply_delta(delta),
            None => {
                proof {
                    assert(false);
                }
                Ok(())
            },
        }
    }

    /// The counters.
    pub fn stats(&self) -> (r: UserSpaceStats)
        ensures
            r == self.stats_view(),
    {
        self.stats
    }
}

} // verus!
