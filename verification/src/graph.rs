//! Graph traversal: an adjacency structure that is filled edge by edge and
//! then walked in postorder.

pub mod adjacency_map;
pub mod graph_store;
pub mod postorder;
pub mod reachability;
