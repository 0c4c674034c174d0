//! Node types and their models.
use vstd::prelude::*;
use crate::common::{Key, TreeConfig, Value};
use crate::error::{ProllyError, Result};

verus! {

/// Model of a stored value.
pub enum ValueModel {
    Inline(Seq<u8>),
    Chunked(Seq<u8>),
    ChunkedSequence { hashes: Seq<Seq<u8>>, total_size: u64 },
}

/// Model of a leaf entry.
pub struct EntryModel {
    pub key: Seq<u8>,
    pub value: ValueModel,
}

/// Model of an internal entry: the largest key below the child, the child's
/// hash and the number of items below it.
pub struct ChildModel {
    pub boundary: Seq<u8>,
    pub hash: Seq<u8>,
    pub count: u64,
}

/// Model of a node.
pub enum NodeModel {
    Leaf { level: u8, entries: Seq<EntryModel> },
    Internal { level: u8, children: Seq<ChildModel> },
}

impl NodeModel {
    pub open spec fn level(self) -> u8 {
        match self {
            NodeModel::Leaf { level, .. } => level,
            NodeModel::Internal { level, .. } => level,
        }
    }

    pub open spec fn num_entries(self) -> nat {
        match self {
            NodeModel::Leaf { entries, .. } => entries.len(),
            NodeModel::Internal { children, .. } => children.len(),
        }
    }
}

/// How a value is stored in a leaf.
#[derive(Debug, Clone)]
pub enum ValueRepr {
    /// Stored in the node itself.
    Inline(Value),
    /// Stored as one chunk with this hash.
    Chunked(crate::common::Hash),
    /// Stored as consecutive chunks.
    ChunkedSequence { chunk_hashes: Vec<crate::common::Hash>, total_size: u64 },
}

pub open spec fn hashes_view(hs: Seq<crate::common::Hash>) -> Seq<Seq<u8>> {
    hs.map_values(|h: crate::common::Hash| h@)
}

impl View for ValueRepr {
    type V = ValueModel;

    open spec fn view(&self) -> ValueModel {
        match self {
            ValueRepr::Inline(v) => ValueModel::Inline(v@),
            ValueRepr::Chunked(h) => ValueModel::Chunked(h@),
            ValueRepr::ChunkedSequence { chunk_hashes, total_size } => ValueModel::ChunkedSequence {
                hashes: hashes_view(chunk_hashes@),
                total_size: *total_size,
            },
        }
    }
}

/// A key and the representation of its value.
#[derive(Debug, Clone)]
pub struct LeafEntry {
    pub key: Key,
    pub value: ValueRepr,
}

impl View for LeafEntry {
    type V = EntryModel;

    open spec fn view(&self) -> EntryModel {
        EntryModel { key: self.key@, value: self.value@ }
    }
}

/// A pointer to a child node.
#[derive(Debug, Clone)]
pub struct InternalEntry {
    /// The largest key in the child's subtree.
    pub boundary_key: Key,
    pub child_hash: crate::common::Hash,
    /// Number of items in the child's subtree.
    pub num_items_subtree: u64,
}

impl View for InternalEntry {
    type V = ChildModel;

    open spec fn view(&self) -> ChildModel {
        ChildModel { boundary: self.boundary_key@, hash: self.child_hash@, count: self.num_items_subtree }
    }
}

pub open spec fn entries_view(es: Seq<LeafEntry>) -> Seq<EntryModel> {
    es.map_values(|e: LeafEntry| e@)
}

pub open spec fn children_view(cs: Seq<InternalEntry>) -> Seq<ChildModel> {
    cs.map_values(|c: InternalEntry| c@)
}

/// A node of the tree.
#[derive(Debug, Clone)]
pub enum Node {
    /// Holds key-value entries; its level is 0.
    Leaf { level: u8, entries: Vec<LeafEntry> },
    /// Points to children one level below.
    Internal { level: u8, children: Vec<InternalEntry> },
}

impl View for Node {
    type V = NodeModel;

    open spec fn view(&self) -> NodeModel {
        match self {
            Node::Leaf { level, entries } => NodeModel::Leaf {
                level: *level,
                entries: entries_view(entries@),
            },
            Node::Internal { level, children } => NodeModel::Internal {
                level: *level,
                children: children_view(children@),
            },
        }
    }
}

impl Node {
    /// An empty leaf.
    pub fn empty_leaf() -> (r: Self)
        ensures
            r@ == (NodeModel::Leaf { level: 0, entries: Seq::empty() }),
    {
        Node::new_leaf()
    }

    /// A new empty leaf.
    pub fn new_leaf() -> (r: Self)
        ensures
            r@ == (NodeModel::Leaf { level: 0, entries: Seq::empty() }),
    {
        let r = Node::Leaf { level: 0, entries: Vec::new() };
        assert(entries_view(Seq::<LeafEntry>::empty()) =~= Seq::empty());
        r
    }

    /// An internal node over `children` at `level`; level 0 is refused.
    pub fn new_internal(children: Vec<InternalEntry>, level: u8) -> (r: Result<Self>)
        ensures
            level == 0 ==> r matches Err(ProllyError::ConfigError(_)),
            level != 0 ==> (r matches Ok(n) && n@ == (NodeModel::Internal {
                level,
                children: children_view(children@),
            })),
    {
        if level == 0 {
            return Err(ProllyError::ConfigError("Internal node level cannot be 0".to_string()));
        }
        Ok(Node::Internal { level, children })
    }

    pub fn level(&self) -> (r: u8)
        ensures
            r == self@.level(),
    {
        match self {
            Node::Leaf { level, .. } => *level,
            Node::Internal { level, .. } => *level,
        }
    }

    /// The node holds at least `target_fanout` entries.
    pub fn is_full(&self, config: &TreeConfig) -> (r: bool)
        ensures
            r == (self@.num_entries() >= config.target_fanout),
    {
        match self {
            Node::Leaf { entries, .. } => entries.len() >= config.target_fanout,
            Node::Internal { children, .. } => children.len() >= config.target_fanout,
        }
    }

    /// The node holds fewer than `min_fanout` entries.
    pub fn is_underflow(&self, config: &TreeConfig) -> (r: bool)
        ensures
            r == (self@.num_entries() < config.min_fanout),
    {
        match self {
            Node::Leaf { entries, .. } => entries.len() < config.min_fanout,
            Node::Internal { children, .. } => children.len() < config.min_fanout,
        }
    }

    pub fn num_entries(&self) -> (r: usize)
        ensures
            r == self@.num_entries(),
    {
        match self {
            Node::Leaf { entries, .. } => entries.len(),
            Node::Internal { children, .. } => children.len(),
        }
    }
}

} // verus!
