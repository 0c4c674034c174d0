//! Tree nodes, their abstract models and their byte encoding.
pub mod definition;
pub mod encoding;

pub use definition::{InternalEntry, LeafEntry, Node, ValueRepr};
