//! Verified solvers for a small set of field puzzles: a network of named
//! locations with breadth-first queries, sensor gate logic, reading totals
//! and radix conversion.

pub mod network;
pub mod radix;
pub mod sensors;
pub mod totals;
