//! Helper types of the tree operations and the scan API.
use vstd::prelude::*;
use crate::common::{Key, Value};

verus! {

/// A node after an update: its new hash, last key, size and, when it
/// split, the last key, hash and size of its new right sibling.
#[derive(Debug)]
pub struct ProcessedNodeUpdate {
    pub new_hash: crate::common::Hash,
    pub new_boundary_key: Key,
    pub new_item_count: u64,
    pub split_info: Option<(Key, crate::common::Hash, u64)>,
}

/// What deleting below a node did to it.
#[derive(Debug)]
pub enum DeleteRecursionResult {
    /// The key is not below the node; the node is unchanged.
    NotFound { node_hash: crate::common::Hash, boundary_key: Key },
    /// The node was rewritten.
    Updated(ProcessedNodeUpdate),
    /// The node lost its last entry.
    Merged,
}

pub fn default_start_inclusive() -> (r: bool)
    ensures
        r,
{
    true
}

pub fn default_end_inclusive() -> (r: bool)
    ensures
        !r,
{
    false
}

pub fn default_reverse() -> (r: bool)
    ensures
        !r,
{
    false
}

pub fn default_offset() -> (r: u64)
    ensures
        r == 0,
{
    0
}

/// Parameters of a range scan.
#[derive(Debug, Clone)]
pub struct ScanArgs {
    /// Forward: lower bound; reverse: upper bound.
    pub start_bound: Option<Key>,
    /// Forward: upper bound; reverse: lower bound.
    pub end_bound: Option<Key>,
    pub start_inclusive: bool,
    pub end_inclusive: bool,
    pub reverse: bool,
    /// Entries skipped before the first one returned.
    pub offset: u64,
    /// Most entries returned.
    pub limit: Option<usize>,
}

impl Default for ScanArgs {
    fn default() -> (r: Self)
        ensures
            r.start_bound is None,
            r.end_bound is None,
            r.start_inclusive,
            !r.end_inclusive,
            !r.reverse,
            r.offset == 0,
            r.limit is None,
    {
        ScanArgs {
            start_bound: None,
            end_bound: None,
            start_inclusive: default_start_inclusive(),
            end_inclusive: default_end_inclusive(),
            reverse: default_reverse(),
            offset: default_offset(),
            limit: None,
        }
    }
}

/// One page of a scan.
#[derive(Debug, Clone)]
pub struct ScanPage {
    pub items: Vec<(Key, Value)>,
    pub has_next_page: bool,
    pub has_previous_page: bool,
    pub next_page_cursor: Option<Key>,
    pub previous_page_cursor: Option<Key>,
}

/// Parameters of a walk over the tree's nodes and entries.
#[derive(Debug, Clone, Copy)]
pub struct HierarchyScanArgs {
    /// Deepest level below the root whose nodes are visited (the root is at depth 0).
    pub max_depth: Option<usize>,
    /// Items skipped before the first one returned.
    pub offset: Option<usize>,
    /// Most items returned.
    pub limit: Option<usize>,
}

impl Default for HierarchyScanArgs {
    fn default() -> (r: Self)
        ensures
            r.max_depth is None,
            r.offset is None,
            r.limit is None,
    {
        HierarchyScanArgs { max_depth: None, offset: None, limit: None }
    }
}

/// Model of an item of a hierarchy walk.
pub enum HierarchyItemModel {
    Node { hash: Seq<u8>, level: u8, is_leaf: bool, num_entries: nat, path_indices: Seq<usize> },
    InternalEntry {
        parent_hash: Seq<u8>,
        entry_index: nat,
        boundary_key: Seq<u8>,
        child_hash: Seq<u8>,
        num_items_subtree: u64,
    },
    LeafEntry {
        parent_hash: Seq<u8>,
        entry_index: nat,
        key: Seq<u8>,
        value_repr_type: Seq<char>,
        value_hash: Option<Seq<u8>>,
        value_size: u64,
    },
}

/// An item of a hierarchy walk: a node, or one entry of the node before it.
#[derive(Debug, Clone)]
pub enum HierarchyItem {
    /// A node, with the child indices that lead to it from the root.
    Node {
        hash: crate::common::Hash,
        level: u8,
        is_leaf: bool,
        num_entries: usize,
        path_indices: Vec<usize>,
    },
    /// An entry of an internal node.
    InternalEntryItem {
        parent_hash: crate::common::Hash,
        entry_index: usize,
        boundary_key: Key,
        child_hash: crate::common::Hash,
        num_items_subtree: u64,
    },
    /// An entry of a leaf: its key and how its value is stored.
    LeafEntryItem {
        parent_hash: crate::common::Hash,
        entry_index: usize,
        key: Key,
        value_repr_type: String,
        value_hash: Option<crate::common::Hash>,
        value_size: u64,
    },
}

impl View for HierarchyItem {
    type V = HierarchyItemModel;

    open spec fn view(&self) -> HierarchyItemModel {
        match self {
            HierarchyItem::Node { hash, level, is_leaf, num_entries, path_indices } =>
                HierarchyItemModel::Node {
                hash: hash@,
                level: *level,
                is_leaf: *is_leaf,
                num_entries: *num_entries as nat,
                path_indices: path_indices@,
            },
            HierarchyItem::InternalEntryItem {
                parent_hash,
                entry_index,
                boundary_key,
                child_hash,
                num_items_subtree,
            } => HierarchyItemModel::InternalEntry {
                parent_hash: parent_hash@,
                entry_index: *entry_index as nat,
                boundary_key: boundary_key@,
                child_hash: child_hash@,
                num_items_subtree: *num_items_subtree,
            },
            HierarchyItem::LeafEntryItem {
                parent_hash,
                entry_index,
                key,
                value_repr_type,
                value_hash,
                value_size,
            } => HierarchyItemModel::LeafEntry {
                parent_hash: parent_hash@,
                entry_index: *entry_index as nat,
                key: key@,
                value_repr_type: value_repr_type@,
                value_hash: match value_hash {
                    Some(h) => Some(h@),
                    None => None,
                },
                value_size: *value_size,
            },
        }
    }
}

/// One page of a hierarchy walk.
#[derive(Debug, Clone)]
pub struct HierarchyScanPage {
    pub items: Vec<HierarchyItem>,
    pub has_next_page: bool,
    pub next_page_cursor_token: Option<String>,
}

} // verus!
