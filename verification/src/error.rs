//! The error type of the library.
use vstd::prelude::*;

verus! {

/// Errors reported by tree, store and file operations.
#[derive(Debug, Clone)]
pub enum ProllyError {
    ChunkNotFound(crate::common::Hash),
    NodeDeserialization(String),
    NodeSerialization(String),
    StorageError(String),
    EmptyTree,
    KeyNotFound,
    InvalidRootHash,
    ConfigError(String),
    InternalError(String),
    JsBindingError(String),
    InvalidFileFormat(String),
    ChecksumMismatch { context: String },
    Serialization(String),
    Deserialization(String),
    IoError(String),
    WasmInteropError(String),
    InvalidOperation(String),
}

/// Result type of the library's fallible operations.
pub type Result<T> = core::result::Result<T, ProllyError>;

} // verus!
