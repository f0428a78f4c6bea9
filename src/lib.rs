//! A persistent, hierarchical map from byte-string paths to per-file states.
//!
//! The tree keeps one node per directory.  Nodes are read lazily from an
//! append-only block store and written back either in full or as a delta of
//! the nodes that changed since they were last stored.

pub mod bytes;
pub mod codec;
pub mod key;
pub mod laws;
mod listing;
pub mod model;
pub mod node;
pub mod order;
pub mod storable;
pub mod store;
pub mod tree;
