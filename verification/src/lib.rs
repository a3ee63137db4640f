//! A small undirected-graph toolkit: a graph capability trait, an
//! adjacency-list store, depth-first and breadth-first traversal engines,
//! and a k-core decomposition engine.

pub mod breadth_first;
pub mod depth_first;
pub mod graph;
pub mod hashmap_graph;
pub mod k_cores;
pub mod traversal;
