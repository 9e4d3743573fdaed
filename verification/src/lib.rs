//! An arena-backed feed-forward network of nodes.
//!
//! The network is a `Tree` whose nodes live in an arena and point at their
//! successors by index. `PreorderIter` walks it depth first or layer by layer.
//! Node values and weights are of a caller-chosen type; the arithmetic on them
//! is handed in by the caller, so that the library itself only decides which
//! node contributes to which, and in what order.

pub mod node;
pub mod shape;
pub mod tree;
pub mod iter;
pub mod rank;
pub mod laws;
pub mod evolve;
pub mod paths;
pub mod control;
