//! Upstream connection pool of an HTTP reverse proxy: the bookkeeping of
//! persistent senders, the per-destination admission index and the overflow
//! slots, with the identifiers that tie them together.

mod laws;
mod pool;
mod service;
mod sender_id;

pub use sender_id::{nanos_since_epoch, random_id, NANOS_PER_SEC};
pub use pool::{
    admits, count_for, distinct_ids, distinct_keys, entry_ids, ids_for, lemma_without_id_distinct,
    lemma_without_id_subset, lock_outcome, without_id, Admission, IndexEntry, ManageConnection,
    PoolError,
};
pub use laws::{
    agrees, agrees_except, lemma_admission_cap, lemma_agreement_kept, lemma_count_push, lemma_count_without,
    lemma_agrees_for, lemma_first_admission, lemma_ids_for_entries, lemma_overflow_one_slot, lemma_rollback_restores, lemma_without_absent,
};
pub use service::{ApiDoc, CliConfig, Listen, BASE_PATH, DEFAULT_API_HOST, DEFAULT_HOST};
