//! A write-back LRU cache over a pluggable backend.
//!
//! The cache holds a bounded working set of items in memory, ordered by
//! recency of use. Missing items are loaded from the backend on demand;
//! evicted items are handed back to the backend, together with a dirty
//! bit that records whether they were inserted or mutated while cached.

mod backend;
mod linked_list;
mod log_backend;
mod lru;
mod map_backend;

pub use backend::CacheBackend;
pub use backend::CacheIndex;
pub use linked_list::LinkedList;
pub use linked_list::LinkedListNode;
pub use log_backend::lemma_log_backend_model;
pub use log_backend::lemma_weighted_backend_model;
pub use log_backend::Log;
pub use log_backend::LogBackend;
pub use log_backend::WeightedBackend;
pub use lru::admit_evictions;
pub use lru::distinct_indices;
pub use lru::fold_write_backs;
pub use lru::lemma_admission_evicts_prefix;
pub use lru::lemma_promote_idempotent;
pub use lru::lemma_sum_push;
pub use lru::lemma_sum_remove;
pub use lru::position_of;
pub use lru::promote;
pub use lru::resident_in;
pub use lru::sum_weights;
pub use lru::CacheItem;
pub use lru::LRU;
pub use lru::BTreeLRUCache;
pub use lru::LRUCache;
pub use lru::ListLRUCache;
pub use map_backend::CacheMapBackend;
pub use map_backend::ListMap;
