//! Core state model of an N-by-N sliding-tile puzzle: a square grid holding a
//! permutation of the integers `0 .. N*N` (value `0` marks the empty cell),
//! created from a random shuffle and mutated one legal slide at a time.

pub mod puzzle;
