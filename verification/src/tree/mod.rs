//! The prolly tree.
pub mod core_logic;
pub mod cursor;
pub mod hierarchy_cursor;
pub mod io;
pub mod model;
pub mod modification;
pub mod prolly_tree;
pub mod search;
pub mod types;
pub mod view;
