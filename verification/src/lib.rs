//! A minimal graph-analysis library: build an immutable graph from a vertex
//! count and an edge list, then answer reachability queries and partition the
//! vertex set into connected components by depth-first traversal.

pub mod errors;
pub mod graph;
pub mod tuple_reader;
