//! Reachability and distance statistics over a directed social graph.
//!
//! The graph stores directed edges between signed-integer node identifiers.
//! Breadth-first search yields provably shortest hop distances from a source
//! node, and the statistics routines aggregate those distances over sampled
//! sources.

pub mod graph;
pub mod search;
pub mod stats;
