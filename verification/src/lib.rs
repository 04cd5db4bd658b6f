//! Verified core of a `key;value` aggregation pipeline.
//!
//! The library ingests newline-delimited `key;value` records, where each
//! value is a decimal number with exactly one fractional digit, and computes
//! per distinct key the minimum, maximum and arithmetic mean of all values.
//! Values are held as fixed-point integers scaled by ten, so no floating
//! point is involved anywhere.

use vstd::prelude::*;

pub mod hashing;
pub mod mset;
pub mod parse;
pub mod pipeline;
pub mod record;
pub mod report;
pub mod simd_buffers;
pub mod table;

verus! {

/// Smallest value the grammar can produce: `-999.9`, scaled by ten.
pub const VALUE_MIN: i16 = -9999;

/// Largest value the grammar can produce: `999.9`, scaled by ten.
pub const VALUE_MAX: i16 = 9999;

/// Cap on how many values one run may aggregate.  Every record line takes at
/// least four bytes, so any input a machine can address stays far below it;
/// the cap keeps every running 64-bit sum provably free of overflow.
pub const MAX_COUNT: u64 = 0x1_0000_0000_0000;

/// The record separator `\n`.
pub const NL: u8 = 0x0a;

} // verus!
