//! A single-pass streaming engine that computes per-group aggregate
//! statistics (minimum, maximum, arithmetic mean) over delimited byte
//! records of the form `<key>;<value>`, where `<value>` is a decimal
//! number with at most three integer digits and at most one fractional
//! digit.
//!
//! Values are decoded directly from their ASCII bytes into an exact
//! scaled-integer domain (the decimal value times ten), so that every
//! comparison and every addition along the run is exact. A mutable
//! aggregation table keyed by the raw key bytes folds each decoded value
//! into the running statistics of its group.

use vstd::prelude::*;

pub mod decode;
pub mod record;
pub mod stats;
pub mod table;

verus! {

/// Largest scaled value a token can decode to: `999.9` scaled by ten.
/// Valid tokens always decode into `-SCALED_MAX ..= SCALED_MAX`.
pub const SCALED_MAX: i64 = 9999;

/// Greatest number of observations one run (or one merge of runs) may
/// accumulate. Chosen so that a sum of that many values, each of
/// magnitude at most [`SCALED_MAX`], still fits in an `i64`.
pub const MAX_OBSERVATIONS: i64 = 922_337_203_685_477;

} // verus!
