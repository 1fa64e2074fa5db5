//! Undirected graphs as adjacency lists, with verified depth-first and
//! breadth-first traversals that answer reachability and path queries.

pub mod graph;
