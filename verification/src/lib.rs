//! An arena-backed rooted tree with stable integer handles.
//!
//! Nodes live in a flat, growable arena and refer to each other through
//! `NodeId` handles instead of owned pointers, so parent/child links never
//! form ownership cycles.  The arena only grows: a handle stays valid, and
//! keeps naming the same node, for the whole life of the tree.

pub mod laws;
pub mod model;
mod slots;
pub mod tree;

pub use model::NodeId;
pub use tree::Tree;
