//! Client-side state of a shielded pool: the commitment tree, the log of the user's own
//! accounts and notes, and the balance derived from them.

pub mod bytes;
pub mod error;
pub mod field;
pub mod kv;
pub mod sparse_array;
pub mod crypto;
pub mod merkle_spec;
pub mod merkle;
pub mod merkle_laws;
pub mod tx;
pub mod state_spec;
pub mod state;
pub mod state_laws;
pub mod keys;
pub mod delta;
