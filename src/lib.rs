//! An open-addressing table keyed by `usize`, with linear probing.
//!
//! The hash of a key is the key itself modulo the capacity, which is always
//! zero or a power of two. Removed entries leave a tombstone behind, so that
//! the probe chains of the entries that follow stay unbroken. Growth rehashes
//! every entry into a fresh array, which also clears the tombstones; when
//! tombstones take the last empty slot, the table is rehashed at the same
//! capacity, so that a probe for an absent key still ends at an empty slot.
use vstd::prelude::*;

mod laws;
mod table;

pub use table::HashMap;
pub use table::Slot;
pub use table::{is_next_pow2, is_pow2, next_power_of_two};
pub use laws::{
    inserts_applied, is_insert_run, lemma_absent_stays_absent, lemma_insert_run, lemma_insert_run_lookup,
    lemma_last_write_wins, lemma_round_trip, lemma_two_keys_kept,
};
