//! An undirected adjacency-list graph with depth-first and breadth-first
//! traversal, together with a small data-processing building block.

pub mod adjacency;
mod frontier;
pub mod graph;
pub mod processor;
pub mod search;
