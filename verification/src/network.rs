//! An undirected network of named locations, and three queries on it: how
//! many locations there are, how many lie within a number of hops of an
//! origin, and the sum of the hop distances from an origin to every location.

pub mod graph;
pub mod lines;
pub mod queries;
pub mod reach;

pub use graph::{build, count_all_locations, Graph, Location};
pub use lines::{build_from_lines, parse_connection};
pub use queries::{
    part1, part2, part3, reachable_within_depth, sum_shortest_depths, try_sum_shortest_depths,
};
