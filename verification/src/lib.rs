//! Approximate nearest-neighbour search over fixed-dimension integer vectors.
//!
//! The library builds a hierarchical navigable small world (HNSW) graph over a
//! store of equal-length `i32` vectors (fixed-point scalars), answers
//! approximate k-nearest-neighbour queries by layered greedy traversal, and
//! serializes the graph topology and the element payload as two independent,
//! versioned byte streams.  A dispatch layer maps a runtime
//! (scalar-type, dimension) pair onto the closed menu of supported
//! configurations.  Distances are squared Euclidean, computed exactly in
//! integer arithmetic; file and network I/O stay outside the library, which
//! only produces and consumes byte vectors.

pub mod builder;
pub mod codec;
pub mod dispatch;
pub mod errors;
pub mod index;
pub mod metric;
pub mod search;
pub mod store;
pub mod topology;
