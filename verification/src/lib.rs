//! Decode engine for Parquet-style column pages, together with the textual
//! schema parser.
//!
//! The decode side turns raw, bit-packed / run-length-encoded byte buffers
//! into typed, nullable sequences of values: the hybrid RLE/bit-packing
//! decoder, the per-page decode state machine, validity composition,
//! dictionary indirection and row filtering. The schema side parses a
//! textual message type into a type tree.

pub mod deserialize;
pub mod errors;
pub mod schema;
pub mod strutil;

pub use errors::DecodeError;
