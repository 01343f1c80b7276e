//! Directed graphs held as adjacency lists, shortest distances by
//! breadth-first search, and connectivity statistics gathered by sampling
//! random pairs of nodes.

pub mod graph;
pub mod paths;
pub mod bfs;
pub mod label;
pub mod edge_list;
pub mod sampling;
pub mod stats;
