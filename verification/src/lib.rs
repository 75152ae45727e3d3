//! Barbell loading arithmetic: greedy plate selection, enumeration of the
//! symmetric loaded-pair weight sums, and the reachable total-weight space.
//!
//! Weights are plain integers in whatever fixed unit the caller chooses
//! (grams, hundredths of a pound, ...), so that all arithmetic is exact.

pub mod plate_math;
pub mod sorted;
