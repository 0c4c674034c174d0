//! A content-addressed prolly tree (probabilistic B-tree) over a chunk store.
pub mod chunk;
pub mod codec;
pub mod common;
pub mod diff;
pub mod error;
pub mod gc;
pub mod keys;
pub mod node;
pub mod store;
pub mod tree;
