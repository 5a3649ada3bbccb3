//! An in-memory undirected graph store.
//!
//! Nodes are labelled values (text or integer), deduplicated by value and
//! addressed through dense integer handles. Edges are kept as symmetric
//! adjacency sets of handles. Removing a node cascades to its incident
//! edges and compacts the tables by moving the last node into the vacated
//! slot, rewriting every reference to the moved node's old handle.

pub mod errors;
pub mod graphs;
