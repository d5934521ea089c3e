//! A compact, serializable membership set for 32-bit unsigned integers.
//!
//! A strictly increasing stream of keys is turned into a minimal
//! deterministic acyclic automaton over the keys' big-endian bytes,
//! serialized into a self-contained byte buffer, and queried from that
//! buffer without rebuilding any in-memory graph.

pub mod codec;
pub mod format;
pub mod builder;
pub mod reader;
pub mod sieve;
pub mod laws;

pub use builder::{IntSetBuilder, SetError, MAX_AUTOMATON_BYTES};
pub use reader::IntSet;
pub use codec::{encode_key, decode_key};
pub use sieve::sieve;
