//! A q-gram index over byte texts: bit-packed window encoding, a bucketed
//! occurrence table with a frequency cap, and two seed queries (a diagonal
//! histogram and merged exact-match intervals).

pub mod alphabet;
pub mod qgrams;
pub mod index;
pub mod diagonals;
pub mod exact;
