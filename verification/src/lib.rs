//! An order-preserving index schema for a versioned key-value state store.
//!
//! The library defines the byte codec that turns a logical `(state key, version)`
//! pair into a physically ordered byte key together with a one-byte nibble-count
//! value, and the append-only access protocol (`put`, `lookup_at_or_before`,
//! `range_scan`) built on that codec.  The codec is order-isomorphic: for a fixed
//! state key, byte-lexicographic order of encoded keys matches version order,
//! which is what permits a bounded seek to answer "latest version at or before V".

pub mod codec;
pub mod error;
pub mod index;
pub mod lex;
pub mod schema;
pub mod state_key;
pub mod version_bytes;
