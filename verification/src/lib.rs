//! Arithmetized circuit for batched verification of hash-based one-time
//! signatures (WOTS-style chains authenticated by a Merkle tree).
//!
//! The crate builds the witness traces for five constraint tables — chain
//! hashing, message-digest decomposition, a per-signature anchor table, the
//! Merkle tree table and a range-check table — together with the cross-table
//! bus interactions that let the tables agree on shared values.  The
//! cryptographic compression primitive is an external collaborator: the
//! circuit consumes its evaluations as (input, output) records supplied with
//! the verification trace, and only the wiring between those records is the
//! circuit's own business.

pub mod chain;
pub mod chip;
pub mod engine;
pub mod permutation;
pub mod decomposition;
pub mod field;
pub mod gadget;
pub mod hash_sig;
pub mod laws;
pub mod main_table;
pub mod merkle_tree;
pub mod range_check;
pub mod util;

use vstd::prelude::*;

verus! {

} // verus!
