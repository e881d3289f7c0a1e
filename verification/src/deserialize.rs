//! The page decode engine: turns raw, bit-packed / run-length-encoded byte
//! regions into typed, nullable sequences of values.

pub mod bitutil;
pub mod boolean;
pub mod dictionary;
pub mod filter;
pub mod fixed_len;
pub mod hybrid_rle;
pub mod native;
pub mod optional;
pub mod page;
