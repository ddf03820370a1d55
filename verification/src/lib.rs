//! Structural statistics of a social-network ego graph given as a plain-text
//! edge list.
//!
//! The crate builds an undirected, unweighted graph from whitespace-separated
//! edge lines ([`graph::build_graph`]), aggregates the degree distribution
//! ([`degree::calculate_degree_distribution`]), and collects the multiset of
//! pairwise shortest-path distances by breadth-first search from every node
//! ([`separation::collect_separations`]), together with the integer
//! aggregates - sum, sum of squares, sorted order and median elements
//! ([`stats`]) - from which the mean, population standard deviation and
//! median separation are a single division or square root away.
//!
//! Every function is specified against a mathematical model of the graph:
//! construction is proved equal to a line-by-line specification, distances
//! are proved to be exact shortest-path lengths, and the aggregates are
//! proved exact over the collected sample.

pub mod parse;
pub mod graph;
pub mod degree;
pub mod separation;
pub mod stats;
