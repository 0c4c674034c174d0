//! Content-addressed chunk storage and the tree file format.
pub mod chunk_store;
pub mod file_io_v2;
pub mod format_v2;
pub mod mem_store;

pub use chunk_store::ChunkStore;
pub use mem_store::InMemoryStore;
