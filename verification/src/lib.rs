//! A small storage engine for recording and querying distinct associations
//! between two integer identifiers (a key and a value) observed over time.
//!
//! Producers feed `(key, val)` observations into an [`Acc`] accumulator, which
//! deduplicates them within the current epoch. A rotation seals the
//! accumulator into an immutable [`Store`] bucket inside a [`Dir`], and a
//! [`Query`] session fans lookups out across all sealed buckets, returning the
//! union of the matching records sorted by key and then by value.

use vstd::prelude::*;

mod error;
mod kv;
mod pairs;
mod table;
mod store;
mod dir;
mod acc;
mod rotate;
mod query;
mod codec;

pub use acc::Acc;
pub use codec::decode_store;
pub use codec::encode_store;
pub use codec::lemma_store_bytes_injective;
pub use codec::spec_record_bytes;
pub use codec::spec_records_bytes;
pub use codec::spec_store_bytes;
pub use dir::kept_pred;
pub use dir::recent_pred;
pub use dir::stale_pred;
pub use dir::Dir;
pub use error::rill_error;
pub use kv::kv_lt;
pub use kv::lemma_card_le_len;
pub use kv::lemma_sorted_len_is_card;
pub use kv::lemma_sorted_no_duplicates;
pub use kv::lemma_sorted_unique;
pub use kv::rill_kv;
pub use kv::strictly_sorted;
pub use pairs::can_append;
pub use pairs::grown_capacity;
pub use pairs::lemma_can_append_within;
pub use pairs::Pairs;
pub use query::lemma_visibility_boundary;
pub use query::set_key_matches;
pub use query::set_keys_matches;
pub use query::set_vals_matches;
pub use query::Query;
pub use rotate::bucket_start;
pub use rotate::compact_stale;
pub use rotate::max_ts;
pub use rotate::min_start;
pub use rotate::rotate;
pub use store::key_matches;
pub use store::keys_matches;
pub use store::lemma_keys_order_irrelevant;
pub use store::lemma_merge_dedup;
pub use store::stores_total_len;
pub use store::stores_union;
pub use store::vals_matches;
pub use store::Store;
pub use table::initial_slot_count;
pub use table::AssocTable;

verus! {

/// A key identifier.
pub type Key = u64;

/// A value identifier.
pub type Val = u64;

/// A bucket timestamp, in seconds.
pub type Ts = u64;

/// A key/value record.
pub type KV = rill_kv;

} // verus!
