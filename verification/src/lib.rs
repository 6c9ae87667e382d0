//! A reference-counted, content-addressed, in-memory key-value overlay store.
//!
//! Values are stored under the keccak-256 digest of their bytes; repeated
//! insertions of identical content collapse to one stored copy tracked by a
//! signed reference count. Negative counts record removals seen before the
//! matching insertion, so two overlays can be merged additively in any order.

mod hashing;
mod laws;
mod model;
mod store;

pub use hashing::{keccak_of, null_digest, null_payload};
pub use laws::{
    lemma_drain_roundtrip, lemma_insert_then_get, lemma_insert_twice_remove_twice,
    lemma_pending_removal_reconciled, lemma_purge_idempotent, lemma_purge_retains_nonzero,
    lemma_remove_and_purge_lifecycle,
};
pub use model::{
    consolidated, counted, emplaced, held, inserted, merged_entry, purged, queried, raw_entry,
    removed, removed_and_purged, StoreModel,
};
pub use store::{
    bytes_option, distinct_keys, distinct_pair_keys, entries_model, entry_pair, has_key,
    has_pair_key, index_of_key, pairs_model, raw_option, Entry, MemoryDB,
};
