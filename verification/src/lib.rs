//! Centrality measures for directed graphs whose edges carry accumulated,
//! non-negative integer weights.
//!
//! * `weights` is the mathematical model: a square matrix of weights, the
//!   degrees derived from it, and what holds of them.
//! * `digraph` holds the graph itself: `EdgeWeightedDigraph`.
//! * `degree` gives the degree centrality of every node.
//! * `reach` says what it means that one node can be reached from another.
//! * `betweenness` ranks the nodes by how often a breadth-first traversal
//!   from another node discovers them.
//! * `ranking` orders `(node, score)` pairs.
//! * `sources` lists, for a node, the nodes that have an edge to it.
//! * `filter` holds a fact about filtered sequences that two of these use.

pub mod betweenness;
pub mod degree;
pub mod digraph;
pub mod filter;
pub mod ranking;
pub mod reach;
pub mod sources;
pub mod weights;

pub use degree::{DegreeError, DegreeKind};
pub use digraph::{EdgeError, EdgeWeightedDigraph};
