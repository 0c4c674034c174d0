//! The prolly tree: a sorted map stored as content-addressed nodes.
use vstd::prelude::*;
use crate::common::{hash_eq, Key, TreeConfig, Value};
use crate::error::{ProllyError, Result};
use crate::node::definition::{children_view, EntryModel, InternalEntry, LeafEntry, Node};
use crate::store::ChunkStore;
use crate::codec::copy_range;
use super::cursor::{opt_key, scan_ok, scan_start, scan_step, tree_route_start, Cursor};
use super::types::{HierarchyItem, HierarchyScanArgs, HierarchyScanPage, ScanArgs, ScanPage};
use super::hierarchy_cursor::{hierarchy_items, hierarchy_page_ok, HierarchyCursor};
use super::model::is_lower_bound;
use super::io::resolve_value;
use super::core_logic::{
    delete_recursive_impl, get_recursive_impl, insert_recursive_impl, sum_item_counts, update_ok,
    single_child_below,
};
use super::io::{
    lemma_resolve_mono, load_node, load_value_repr, prepare_value_repr, store_grew,
    store_node_and_get_key_hash_pair,
};
use super::model::{
    child_ok, lemma_child_ok_mono, lemma_children_flat_char, lemma_flat_concat_one,
    lemma_flat_concat_two, lemma_internal_node_ok, lemma_seq_insert_sorted, lemma_submap_trans,
    lemma_subtree_level, lemma_subtree_shape, lemma_sum_counts_len, lemma_tree_entries_mono,
    node_at, seq_insert, seq_remove, sorted_entries, subtree, sum_counts, tree_entries,
};
use super::view::{
    lemma_insert_map, lemma_lookup_resolves, lemma_remove_map, lemma_values_resolve_mono, tree_map,
    values_resolve,
};

verus! {

/// The hash inside an optional hash, as bytes.
pub open spec fn opt_hash_view(h: Option<crate::common::Hash>) -> Option<Seq<u8>> {
    match h {
        Some(x) => Some(x@),
        None => None,
    }
}

/// Compares two optional hashes.
pub fn opt_hash_eq(a: &Option<crate::common::Hash>, b: &Option<crate::common::Hash>) -> (r: bool)
    ensures
        r == (opt_hash_view(*a) == opt_hash_view(*b)),
{
    match (a, b) {
        (Some(x), Some(y)) => hash_eq(x, y),
        (None, None) => true,
        _ => false,
    }
}

/// A key-value tree over a chunk store, identified by its root hash.
pub struct ProllyTree<S: ChunkStore> {
    pub root_hash: Option<crate::common::Hash>,
    pub store: S,
    pub config: TreeConfig,
}

impl<S: ChunkStore> ProllyTree<S> {
    pub open spec fn root_view(&self) -> Option<Seq<u8>> {
        opt_hash_view(self.root_hash)
    }

    /// The sorted entries under the root.
    pub open spec fn entries(&self) -> Option<Seq<EntryModel>> {
        tree_entries(self.store.chunks(), self.root_view())
    }

    /// The store is sound, the fanout settings valid, the tree under the
    /// root well formed and each of its values readable.
    pub open spec fn wf(&self) -> bool {
        &&& self.store.inv()
        &&& self.config.fanout_valid()
        &&& self.entries() is Some
        &&& values_resolve(self.store.chunks(), self.entries().unwrap())
    }

    /// The level of the root node: 0 for a leaf root and for the empty tree.
    pub open spec fn root_level(&self) -> nat {
        match self.root_hash {
            Some(h) => node_at(self.store.chunks(), h@).unwrap().level() as nat,
            None => 0,
        }
    }

    /// A well-formed tree holds one entry per key of its map.
    pub proof fn lemma_entries_len(&self)
        requires
            self.wf(),
        ensures
            self.entries().unwrap().len() == self@.len(),
            self@.dom().finite(),
    {
        if let Some(h) = self.root_hash {
            let c = self.store.chunks();
            lemma_subtree_shape(c, h@, node_at(c, h@).unwrap().level() as nat);
        }
        let es = self.entries().unwrap();
        crate::tree::view::lemma_entries_map_len(self.store.chunks(), es);
        vstd::seq_lib::seq_to_set_is_finite(es.map_values(|e: EntryModel| e.key));
    }
}

proof fn lemma_map_insert_len(m: Map<Seq<u8>, Seq<u8>>, k: Seq<u8>, v: Seq<u8>)
    requires
        m.dom().finite(),
    ensures
        m.insert(k, v).len() <= m.len() + 1,
{
    assert(m.insert(k, v).dom() =~= m.dom().insert(k));
}

impl<S: ChunkStore> View for ProllyTree<S> {
    type V = Map<Seq<u8>, Seq<u8>>;

    /// The key-value map the tree holds.
    open spec fn view(&self) -> Map<Seq<u8>, Seq<u8>> {
        tree_map(self.store.chunks(), self.root_view())
    }
}

/// The map after inserting `items` in order.
pub open spec fn insert_all(m: Map<Seq<u8>, Seq<u8>>, items: Seq<(Seq<u8>, Seq<u8>)>) -> Map<Seq<u8>, Seq<u8>>
    decreases items.len(),
{
    if items.len() == 0 {
        m
    } else {
        insert_all(m, items.drop_last()).insert(items.last().0, items.last().1)
    }
}

/// The items as byte strings.
pub open spec fn items_view(items: Seq<(Key, Value)>) -> Seq<(Seq<u8>, Seq<u8>)> {
    items.map_values(|kv: (Key, Value)| (kv.0@, kv.1@))
}

impl<S: ChunkStore> ProllyTree<S> {
    /// An empty tree over `store`. The fanout settings must be valid.
    pub fn new(store: S, config: TreeConfig) -> (r: Self)
        requires
            store.inv(),
            config.fanout_valid(),
        ensures
            r.wf(),
            r@ == Map::<Seq<u8>, Seq<u8>>::empty(),
            r.root_hash is None,
            r.store == store,
            r.config == config,
    {
        let r = ProllyTree { root_hash: None, store, config };
        assert(r@ =~= Map::<Seq<u8>, Seq<u8>>::empty());
        r
    }

    /// A tree whose root is `root_hash`, once the root's chunk is found and
    /// decodes to a node.
    pub fn from_root_hash(root_hash: crate::common::Hash, store: S, config: TreeConfig) -> (r: Result<Self>)
        requires
            store.inv(),
            config.fanout_valid(),
        ensures
            r matches Ok(t) ==> {
                &&& t.root_hash == Some(root_hash)
                &&& t.store == store
                &&& t.config == config
                &&& node_at(store.chunks(), root_hash@) is Some
            },
            !store.chunks().contains_key(root_hash@) ==> r is Err,
            store.reliable() && node_at(store.chunks(), root_hash@) is Some ==> r is Ok,
            store.reliable() && !store.chunks().contains_key(root_hash@) ==> (r matches Err(
                ProllyError::ChunkNotFound(h),
            ) && h == root_hash),
            store.reliable() && store.chunks().contains_key(root_hash@) && node_at(store.chunks(), root_hash@)
                is None ==> r matches Err(ProllyError::NodeDeserialization(_)),
    {
        match store.get(&root_hash) {
            Ok(Some(bytes)) => {
                match Node::decode(bytes.as_slice()) {
                    Ok(_) => {},
                    Err(e) => return Err(e),
                }
                Ok(ProllyTree { root_hash: Some(root_hash), store, config })
            },
            Ok(None) => Err(ProllyError::ChunkNotFound(root_hash)),
            Err(e) => Err(e),
        }
    }

    pub fn get_root_hash(&self) -> (r: Option<crate::common::Hash>)
        ensures
            r == self.root_hash,
    {
        self.root_hash
    }

    /// The value stored for `key`.
    pub fn get(&self, key: &Key) -> (r: Result<Option<Value>>)
        requires
            self.wf(),
        ensures
            r matches Ok(o) ==> match o {
                Some(v) => self@.contains_key(key@) && self@[key@] == v@,
                None => !self@.contains_key(key@),
            },
            self.root_hash is None ==> r matches Ok(None),
            self.store.reliable() ==> r is Ok,
    {
        let current_root_hash = match self.root_hash {
            Some(h) => h,
            None => return Ok(None),
        };
        let ghost chunks = self.store.chunks();
        let ghost level = node_at(chunks, current_root_hash@).unwrap().level() as nat;
        let ghost es = self.entries().unwrap();
        match get_recursive_impl(&self.store, current_root_hash, key, Ghost(level)) {
            Ok(Some(vr)) => {
                proof {
                    lemma_lookup_resolves(chunks, es, key@);
                }
                match load_value_repr(&self.store, &vr) {
                    Ok(b) => Ok(Some(b)),
                    Err(e) => Err(e),
                }
            },
            Ok(None) => Ok(None),
            Err(e) => Err(e),
        }
    }

    /// The value stored for `key`, as `get`.
    pub fn get_sync(&self, key: &Key) -> (r: Result<Option<Value>>)
        requires
            self.wf(),
        ensures
            r matches Ok(o) ==> match o {
                Some(v) => self@.contains_key(key@) && self@[key@] == v@,
                None => !self@.contains_key(key@),
            },
            self.root_hash is None ==> r matches Ok(None),
            self.store.reliable() ==> r is Ok,
    {
        self.get(key)
    }
}

/// A tree that holds `es` at `root`, each value readable, maps to `m`.
pub open spec fn holds(chunks: Map<Seq<u8>, Seq<u8>>, root: Option<Seq<u8>>, es: Seq<EntryModel>) -> bool {
    &&& tree_entries(chunks, root) == Some(es)
    &&& values_resolve(chunks, es)
}

/// The root of a tree that an update of its old root reports: the updated
/// node itself, or a new root one level up over the two halves.
proof fn lemma_root_after_update(
    chunks: Map<Seq<u8>, Seq<u8>>,
    u: crate::tree::types::ProcessedNodeUpdate,
    es2: Seq<EntryModel>,
    level: nat,
)
    requires
        update_ok(chunks, u, es2, level),
        u.split_info is None,
    ensures
        tree_entries(chunks, Some(u.new_hash@)) == Some(es2),
{
    lemma_subtree_level(chunks, u.new_hash@, level);
}

/// Stores a new root one level above `root_level` over the two halves of
/// a split root, and returns its hash.
fn grow_root<S: ChunkStore>(
    store: &mut S,
    left_boundary: Key,
    left_hash: crate::common::Hash,
    left_count: u64,
    right_boundary: Key,
    right_hash: crate::common::Hash,
    right_count: u64,
    root_level: u8,
    Ghost(es2): Ghost<Seq<EntryModel>>,
) -> (r: Result<crate::common::Hash>)
    requires
        old(store).inv(),
        child_ok(old(store).chunks(), crate::node::definition::ChildModel { boundary: left_boundary@, hash: left_hash@, count: left_count }, root_level as nat),
        child_ok(old(store).chunks(), crate::node::definition::ChildModel { boundary: right_boundary@, hash: right_hash@, count: right_count }, root_level as nat),
        subtree(old(store).chunks(), left_hash@, root_level as nat).unwrap() + subtree(
            old(store).chunks(),
            right_hash@,
            root_level as nat,
        ).unwrap() == es2,
        sorted_entries(es2),
    ensures
        final(store).inv(),
        store_grew(old(store).chunks(), final(store).chunks()),
        r matches Ok(h) ==> tree_entries(final(store).chunks(), Some(h@)) == Some(es2),
        r matches Ok(h) ==> node_at(final(store).chunks(), h@) is Some && node_at(final(store).chunks(), h@).unwrap().level() == root_level + 1,
    final(store).refusals() >= old(store).refusals(),
    final(store).reliable() == old(store).reliable(),
    old(store).reliable() && r is Err ==> final(store).refusals() > old(store).refusals() || root_level == 255,
{
    let ghost c2 = store.chunks();
    let new_root_level = match root_level.checked_add(1) {
        Some(l) => l,
        None => return Err(ProllyError::InternalError("tree height overflow".to_string())),
    };
    let new_root_children = vec![
        InternalEntry { boundary_key: left_boundary, child_hash: left_hash, num_items_subtree: left_count },
        InternalEntry { boundary_key: right_boundary, child_hash: right_hash, num_items_subtree: right_count },
    ];
    let ghost cs = children_view(new_root_children@);
    let new_root_node_obj = match Node::new_internal(new_root_children, new_root_level) {
        Ok(n) => n,
        Err(err) => return Err(err),
    };
    let (_final_boundary, final_root_hash) = match store_node_and_get_key_hash_pair(store, &new_root_node_obj) {
        Ok(x) => x,
        Err(err) => return Err(err),
    };
    proof {
        let c3 = store.chunks();
        let lvl = root_level as nat;
        let l = cs[0];
        let r = cs[1];
        lemma_child_ok_mono(c2, c3, l, lvl);
        lemma_child_ok_mono(c2, c3, r, lvl);
        assert(cs =~= seq![l, r]);
        assert forall|i: int| 0 <= i < cs.len() implies child_ok(c3, #[trigger] cs[i], lvl) by {}
        lemma_flat_concat_two(c3, l, r, lvl);
        lemma_internal_node_ok(c3, final_root_hash@, (lvl + 1) as nat, cs, sum_counts(cs));
    }
    Ok(final_root_hash)
}

/// Stores a leaf holding one entry and returns its hash.
fn store_single_leaf<S: ChunkStore>(store: &mut S, key: Key, value_repr: crate::node::definition::ValueRepr) -> (r: Result<crate::common::Hash>)
    requires
        old(store).inv(),
    ensures
        final(store).inv(),
        store_grew(old(store).chunks(), final(store).chunks()),
        r matches Ok(h) ==> tree_entries(final(store).chunks(), Some(h@)) == Some(
            seq![EntryModel { key: key@, value: value_repr@ }],
        ),
        r matches Ok(h) ==> node_at(final(store).chunks(), h@) is Some && node_at(final(store).chunks(), h@).unwrap().level() == 0,
    final(store).refusals() >= old(store).refusals(),
    final(store).reliable() == old(store).reliable(),
    old(store).reliable() && r is Err ==> final(store).refusals() > old(store).refusals() || false,
{
    let ghost e = EntryModel { key: key@, value: value_repr@ };
    let entries = vec![LeafEntry { key, value: value_repr }];
    assert(crate::node::definition::entries_view(entries@) =~= seq![e]);
    let new_leaf_node = Node::Leaf { level: 0, entries };
    let (_boundary_key, new_root_hash_val) = match store_node_and_get_key_hash_pair(store, &new_leaf_node) {
        Ok(x) => x,
        Err(err) => return Err(err),
    };
    Ok(new_root_hash_val)
}

impl<S: ChunkStore> ProllyTree<S> {
    /// Stores `value` under `key`, replacing any value the key had. Returns
    /// whether the root hash changed.
    pub fn insert(&mut self, key: Key, value: Value) -> (r: Result<bool>)
        requires
            old(self).wf(),
            value@.len() <= old(self).config.max_inline_value_size || old(self).config.cdc_valid(),
        ensures
            final(self).store.inv(),
            final(self).config == old(self).config,
            store_grew(old(self).store.chunks(), final(self).store.chunks()),
            r matches Ok(changed) ==> {
                &&& final(self).wf()
                &&& final(self)@ == old(self)@.insert(key@, value@)
                &&& changed == (old(self).root_view() != final(self).root_view())
                &&& final(self).root_level() <= old(self).root_level() + 1
            },
        final(self).store.refusals() >= old(self).store.refusals(),
        final(self).store.reliable() == old(self).store.reliable(),
        old(self).store.reliable() && r is Err ==> final(self).store.refusals() > old(self).store.refusals() || old(self).entries().unwrap().len() >= u64::MAX || (old(self).root_hash matches Some(h) && node_at(old(self).store.chunks(), h@).unwrap().level() == 255),
    {
        let ghost c0 = self.store.chunks();
        let ghost es = self.entries().unwrap();
        let ghost vb = value@;
        let old_root_hash = self.root_hash;
        let value_repr = match prepare_value_repr(&mut self.store, &self.config, value) {
            Ok(v) => v,
            Err(e) => return Err(e),
        };
        let ghost c1 = self.store.chunks();
        let ghost e = EntryModel { key: key@, value: value_repr@ };
        proof {
            lemma_tree_entries_mono(c0, c1, self.root_view());
        }
        let current_root_hash = match self.root_hash {
            Some(h) => h,
            None => {
                let new_root_hash_val = match store_single_leaf(&mut self.store, key, value_repr) {
                    Ok(h) => h,
                    Err(err) => {
                        proof {
                            lemma_submap_trans(c0, c1, self.store.chunks());
                        }
                        return Err(err);
                    },
                };
                self.root_hash = Some(new_root_hash_val);
                proof {
                    let c2 = self.store.chunks();
                    lemma_submap_trans(c0, c1, c2);
                    lemma_resolve_mono(c1, c2, e.value);
                    assert(es =~= Seq::<EntryModel>::empty());
                    assert(seq_insert(es, e) =~= seq![e]);
                    lemma_insert_map(c0, c2, es, e);
                }
                return Ok(true);
            },
        };
        let root_node = match load_node(&self.store, &current_root_hash) {
            Ok(n) => n,
            Err(err) => {
                proof {
                    lemma_submap_trans(c0, c1, self.store.chunks());
                }
                return Err(err);
            },
        };
        let root_level = root_node.level();
        let update_result = match insert_recursive_impl(
            &mut self.store,
            &self.config,
            current_root_hash,
            key,
            value_repr,
            root_level,
        ) {
            Ok(u) => u,
            Err(err) => {
                proof {
                    lemma_submap_trans(c0, c1, self.store.chunks());
                }
                return Err(err);
            },
        };
        let ghost c2 = self.store.chunks();
        let ghost es2 = seq_insert(es, e);
        proof {
            lemma_submap_trans(c0, c1, c2);
            lemma_resolve_mono(c1, c2, e.value);
            lemma_subtree_shape(c0, current_root_hash@, root_level as nat);
            lemma_seq_insert_sorted(es, e);
            lemma_insert_map(c0, c2, es, e);
        }
        self.root_hash = Some(update_result.new_hash);
        match update_result.split_info {
            Some((split_boundary_key, new_sibling_hash, new_sibling_item_count)) => {
                let final_root_hash = match grow_root(
                    &mut self.store,
                    update_result.new_boundary_key,
                    update_result.new_hash,
                    update_result.new_item_count,
                    split_boundary_key,
                    new_sibling_hash,
                    new_sibling_item_count,
                    root_level,
                    Ghost(es2),
                ) {
                    Ok(h) => h,
                    Err(err) => {
                        proof {
                            lemma_submap_trans(c0, c2, self.store.chunks());
                        }
                        return Err(err);
                    },
                };
                self.root_hash = Some(final_root_hash);
                proof {
                    let c3 = self.store.chunks();
                    lemma_submap_trans(c0, c2, c3);
                    lemma_values_resolve_mono(c2, c3, es2);
                }
            },
            None => {
                proof {
                    lemma_root_after_update(c2, update_result, es2, root_level as nat);
                }
            },
        }
        Ok(!opt_hash_eq(&old_root_hash, &self.root_hash))
    }

    /// Stores `value` under `key`, as `insert`.
    pub fn insert_sync(&mut self, key: Key, value: Value) -> (r: Result<bool>)
        requires
            old(self).wf(),
            value@.len() <= old(self).config.max_inline_value_size || old(self).config.cdc_valid(),
        ensures
            final(self).store.inv(),
            final(self).config == old(self).config,
            store_grew(old(self).store.chunks(), final(self).store.chunks()),
            r matches Ok(changed) ==> {
                &&& final(self).wf()
                &&& final(self)@ == old(self)@.insert(key@, value@)
                &&& changed == (old(self).root_view() != final(self).root_view())
                &&& final(self).root_level() <= old(self).root_level() + 1
            },
        final(self).store.refusals() >= old(self).store.refusals(),
        final(self).store.reliable() == old(self).store.reliable(),
        old(self).store.reliable() && r is Err ==> final(self).store.refusals() > old(self).store.refusals() || old(self).entries().unwrap().len() >= u64::MAX || (old(self).root_hash matches Some(h) && node_at(old(self).store.chunks(), h@).unwrap().level() == 255),
    {
        self.insert(key, value)
    }
}

/// The root to keep after a delete updated the old root: an internal root
/// with one child gives way to that child.
fn collapse_root<S: ChunkStore>(store: &S, new_hash: crate::common::Hash, Ghost(level): Ghost<nat>, Ghost(es2): Ghost<Seq<EntryModel>>) -> (r: Result<crate::common::Hash>)
    requires
        store.inv(),
        subtree(store.chunks(), new_hash@, level) == Some(es2),
    ensures
        r matches Ok(h) ==> tree_entries(store.chunks(), Some(h@)) == Some(es2),
        store.reliable() ==> r is Ok,
{
    let chunks = Ghost(store.chunks());
    proof {
        lemma_subtree_level(chunks@, new_hash@, level);
    }
    let potentially_new_root_node = match load_node(store, &new_hash) {
        Ok(n) => n,
        Err(e) => return Err(e),
    };
    match potentially_new_root_node {
        Node::Internal { children, .. } => {
            if children.len() == 1 {
                proof {
                    let cs = children_view(children@);
                    lemma_children_flat_char(chunks@, cs, (level - 1) as nat);
                    assert(cs =~= seq![cs[0]]);
                    assert(child_ok(chunks@, cs[0], (level - 1) as nat));
                    lemma_flat_concat_one(chunks@, cs[0], (level - 1) as nat);
                    lemma_subtree_level(chunks@, cs[0].hash, (level - 1) as nat);
                }
                return Ok(children[0].child_hash);
            }
            Ok(new_hash)
        },
        Node::Leaf { .. } => Ok(new_hash),
    }
}

impl<S: ChunkStore> ProllyTree<S> {
    /// Removes `key`. Returns whether the key was present.
    pub fn delete(&mut self, key: &Key) -> (r: Result<bool>)
        requires
            old(self).wf(),
        ensures
            final(self).store.inv(),
            final(self).config == old(self).config,
            store_grew(old(self).store.chunks(), final(self).store.chunks()),
            r matches Ok(deleted) ==> {
                &&& final(self).wf()
                &&& final(self)@ == old(self)@.remove(key@)
                &&& deleted == old(self)@.contains_key(key@)
            },
            r == Ok::<bool, ProllyError>(false) ==> final(self).root_hash == old(self).root_hash
                && final(self).store.chunks() == old(self).store.chunks(),
            old(self).root_hash is None ==> r == Ok::<bool, ProllyError>(false) && *final(self) == *old(self),
        final(self).store.refusals() >= old(self).store.refusals(),
        final(self).store.reliable() == old(self).store.reliable(),
        old(self).store.reliable() && r is Err ==> final(self).store.refusals() > old(self).store.refusals() || old(self).entries().unwrap().len() > u64::MAX || (old(self).root_hash matches Some(h) && single_child_below(old(self).store.chunks(), h@, node_at(old(self).store.chunks(), h@).unwrap().level() as nat)),
    {
        let ghost c0 = self.store.chunks();
        let ghost es = self.entries().unwrap();
        let current_root_hash = match self.root_hash {
            Some(h) => h,
            None => {
                proof {
                    assert(self@ =~= self@.remove(key@));
                }
                return Ok(false);
            },
        };
        let root_node = match load_node(&self.store, &current_root_hash) {
            Ok(n) => n,
            Err(e) => return Err(e),
        };
        let root_level = root_node.level();
        let mut key_was_actually_deleted = false;
        let result = match delete_recursive_impl(
            &mut self.store,
            &self.config,
            current_root_hash,
            key,
            root_level,
            &mut key_was_actually_deleted,
        ) {
            Ok(res) => res,
            Err(e) => return Err(e),
        };
        let ghost c1 = self.store.chunks();
        let ghost es2 = seq_remove(es, key@);
        proof {
            lemma_subtree_shape(c0, current_root_hash@, root_level as nat);
            lemma_remove_map(c0, c1, es, key@);
        }
        match result {
            crate::tree::types::DeleteRecursionResult::NotFound { .. } => {
                proof {
                    lemma_tree_entries_mono(c0, c1, self.root_view());
                    lemma_values_resolve_mono(c0, c1, es);
                    crate::tree::model::lemma_seq_remove_absent(es, key@);
                }
                Ok(key_was_actually_deleted)
            },
            crate::tree::types::DeleteRecursionResult::Updated(update_info) => {
                self.root_hash = Some(update_info.new_hash);
                let new_root = match collapse_root(&self.store, update_info.new_hash, Ghost(root_level as nat), Ghost(es2)) {
                    Ok(h) => h,
                    Err(e) => return Err(e),
                };
                self.root_hash = Some(new_root);
                Ok(key_was_actually_deleted)
            },
            crate::tree::types::DeleteRecursionResult::Merged => {
                self.root_hash = None;
                proof {
                    assert(es2 =~= Seq::<EntryModel>::empty());
                }
                Ok(key_was_actually_deleted)
            },
        }
    }

    /// Removes `key`, as `delete`.
    pub fn delete_sync(&mut self, key: &Key) -> (r: Result<bool>)
        requires
            old(self).wf(),
        ensures
            final(self).store.inv(),
            final(self).config == old(self).config,
            store_grew(old(self).store.chunks(), final(self).store.chunks()),
            r matches Ok(deleted) ==> {
                &&& final(self).wf()
                &&& final(self)@ == old(self)@.remove(key@)
                &&& deleted == old(self)@.contains_key(key@)
            },
            r == Ok::<bool, ProllyError>(false) ==> final(self).root_hash == old(self).root_hash
                && final(self).store.chunks() == old(self).store.chunks(),
            old(self).root_hash is None ==> r == Ok::<bool, ProllyError>(false) && *final(self) == *old(self),
        final(self).store.refusals() >= old(self).store.refusals(),
        final(self).store.reliable() == old(self).store.reliable(),
        old(self).store.reliable() && r is Err ==> final(self).store.refusals() > old(self).store.refusals() || old(self).entries().unwrap().len() > u64::MAX || (old(self).root_hash matches Some(h) && single_child_below(old(self).store.chunks(), h@, node_at(old(self).store.chunks(), h@).unwrap().level() as nat)),
    {
        self.delete(key)
    }

    /// Points the tree at another root (`None`: the empty tree), after
    /// checking that the root's chunk decodes to a node. Returns whether
    /// the root changed.
    pub fn checkout(&mut self, hash: Option<crate::common::Hash>) -> (r: Result<bool>)
        requires
            old(self).store.inv(),
        ensures
            final(self).store == old(self).store,
            final(self).config == old(self).config,
            r matches Ok(changed) ==> {
                &&& final(self).root_hash == hash
                &&& changed == (old(self).root_view() != opt_hash_view(hash))
                &&& hash matches Some(h) ==> node_at(old(self).store.chunks(), h@) is Some
            },
            r is Err ==> final(self).root_hash == old(self).root_hash,
            hash is None ==> r is Ok,
            hash matches Some(h) && !old(self).store.chunks().contains_key(h@) ==> r is Err,
            old(self).store.reliable() && (hash matches Some(h) ==> node_at(old(self).store.chunks(), h@)
                is Some) ==> r is Ok,
            hash matches Some(h) ==> (old(self).store.reliable() && !old(self).store.chunks().contains_key(h@)
                ==> (r matches Err(ProllyError::ChunkNotFound(x)) && x == h)),
            hash matches Some(h) ==> (old(self).store.reliable() && old(self).store.chunks().contains_key(h@)
                && node_at(old(self).store.chunks(), h@) is None ==> r matches Err(
                ProllyError::NodeDeserialization(_),
            )),
    {
        let old_root_hash = self.root_hash;
        match hash {
            Some(h) => {
                match load_node(&self.store, &h) {
                    Ok(_) => {},
                    Err(e) => return Err(e),
                }
                self.root_hash = Some(h);
            },
            None => {
                self.root_hash = None;
            },
        }
        Ok(!opt_hash_eq(&old_root_hash, &self.root_hash))
    }

    /// The number of items in the tree.
    pub fn count_all_items(&self) -> (r: Result<u64>)
        requires
            self.wf(),
        ensures
            r matches Ok(n) ==> n == self.entries().unwrap().len() && n == self@.len(),
            self.root_hash is None ==> r == Ok::<u64, ProllyError>(0),
            self.store.reliable() && self.entries().unwrap().len() <= u64::MAX ==> r is Ok,
    {
        proof {
            crate::tree::view::lemma_entries_map_len(self.store.chunks(), self.entries().unwrap());
        }
        let root_node_hash = match self.root_hash {
            Some(h) => h,
            None => return Ok(0),
        };
        let ghost chunks = self.store.chunks();
        let ghost level = node_at(chunks, root_node_hash@).unwrap().level() as nat;
        let root_node = match load_node(&self.store, &root_node_hash) {
            Ok(n) => n,
            Err(e) => return Err(e),
        };
        match root_node {
            Node::Leaf { entries, .. } => Ok(entries.len() as u64),
            Node::Internal { children, .. } => {
                proof {
                    lemma_children_flat_char(chunks, children_view(children@), (level - 1) as nat);
                    lemma_sum_counts_len(chunks, children_view(children@), (level - 1) as nat);
                }
                match sum_item_counts(&children) {
                    Some(t) => Ok(t),
                    None => Err(ProllyError::InternalError("item count overflow".to_string())),
                }
            },
        }
    }

    /// Inserts the items in order. Returns whether the root hash changed.
    pub fn insert_batch(&mut self, items: Vec<(Key, Value)>) -> (r: Result<bool>)
        requires
            old(self).wf(),
            old(self).config.cdc_valid() || forall|i: int|
                0 <= i < items@.len() ==> (#[trigger] items@[i]).1@.len() <= old(self).config.max_inline_value_size,
        ensures
            final(self).store.inv(),
            final(self).config == old(self).config,
            store_grew(old(self).store.chunks(), final(self).store.chunks()),
            r matches Ok(changed) ==> {
                &&& final(self).wf()
                &&& final(self)@ == insert_all(old(self)@, items_view(items@))
                &&& changed == (old(self).root_view() != final(self).root_view())
            },
            items@.len() == 0 ==> (r == Ok::<bool, ProllyError>(false) && *final(self) == *old(self)),
        final(self).store.refusals() >= old(self).store.refusals(),
        final(self).store.reliable() == old(self).store.reliable(),
        old(self).store.reliable() && r is Err ==> final(self).store.refusals() > old(self).store.refusals() || old(self)@.len() + items@.len() > u64::MAX || old(self).root_level() + items@.len() > 255,
    {
        let old_root_hash = self.root_hash;
        let ghost m0 = self@;
        let ghost c0 = self.store.chunks();
        let ghost orig = items@;
        let ghost iv = items_view(items@);
        let n = items.len();
        let mut pending = items;
        let mut reversed: Vec<(Key, Value)> = Vec::new();
        while pending.len() > 0
            invariant
                n == orig.len(),
                pending@ == orig.take(pending@.len() as int),
                reversed@.len() + pending@.len() == n,
                forall|j: int| 0 <= j < reversed@.len() ==> #[trigger] reversed@[j] == orig[n - 1 - j],
            decreases pending@.len(),
        {
            let item = pending.pop().unwrap();
            reversed.push(item);
            assert(pending@ =~= orig.take(pending@.len() as int));
        }
        while reversed.len() > 0
            invariant
                n == orig.len(),
                iv == items_view(orig),
                reversed@.len() <= n,
                forall|j: int| 0 <= j < reversed@.len() ==> #[trigger] reversed@[j] == orig[n - 1 - j],
                self.wf(),
                self.config == old(self).config,
                self.config.cdc_valid() || forall|i: int|
                    0 <= i < orig.len() ==> (#[trigger] orig[i]).1@.len() <= self.config.max_inline_value_size,
                c0 == old(self).store.chunks(),
                m0 == old(self)@,
                store_grew(c0, self.store.chunks()),
                self@ == insert_all(m0, iv.take(n - reversed@.len())),
                n == 0 ==> *self == *old(self),
                n == items@.len(),
                self.store.refusals() >= old(self).store.refusals(),
                self.store.reliable() == old(self).store.reliable(),
                self@.len() <= m0.len() + (n - reversed@.len()),
                self.root_level() <= old(self).root_level() + (n - reversed@.len()),
            decreases reversed@.len(),
        {
            let ghost i = n - reversed@.len();
            let ghost c_before = self.store.chunks();
            let ghost m_before = self@;
            proof {
                self.lemma_entries_len();
            }
            let (key, value) = reversed.pop().unwrap();
            proof {
                assert(orig[i] == (key, value));
            }
            match self.insert(key, value) {
                Ok(_) => {},
                Err(e) => {
                    proof {
                        lemma_submap_trans(c0, c_before, self.store.chunks());
                    }
                    return Err(e);
                },
            }
            proof {
                lemma_map_insert_len(m_before, key@, value@);
                lemma_submap_trans(c0, c_before, self.store.chunks());
                assert(iv.take(i + 1).drop_last() =~= iv.take(i));
                assert(iv.take(i + 1).last() == iv[i]);
            }
        }
        assert(iv.take(n as int) =~= iv);
        Ok(!opt_hash_eq(&old_root_hash, &self.root_hash))
    }
}

/// The roots a tree's collection keeps: the given ones and the tree's own.
pub open spec fn gc_roots(given: Seq<crate::common::Hash>, root: Option<crate::common::Hash>) -> Set<Seq<u8>> {
    match root {
        Some(h) => crate::store::chunk_store::hash_set(given).insert(h@),
        None => crate::store::chunk_store::hash_set(given),
    }
}

impl<S: ChunkStore> ProllyTree<S> {
    /// Deletes every chunk not reachable from the given roots or the tree's
    /// own root; returns how many were deleted. The tree itself is unchanged.
    pub fn gc(&mut self, app_provided_live_root_hashes: &[crate::common::Hash]) -> (r: Result<usize>)
        requires
            old(self).wf(),
        ensures
            final(self).store.inv(),
            final(self).root_hash == old(self).root_hash,
            final(self).config == old(self).config,
            r matches Ok(count) ==> {
                let live = crate::gc::reachable_set(
                    old(self).store.chunks(),
                    gc_roots(app_provided_live_root_hashes@, old(self).root_hash),
                );
                &&& final(self).store.chunks() == old(self).store.chunks().restrict(live)
                &&& count == old(self).store.chunks().dom().difference(live).len()
                &&& final(self).wf()
                &&& final(self)@ == old(self)@
            },
            old(self).store.reliable() ==> r is Ok,
    {
        let ghost c0 = self.store.chunks();
        let mut all_live_roots_vec: Vec<crate::common::Hash> = Vec::new();
        let mut i: usize = 0;
        while i < app_provided_live_root_hashes.len()
            invariant
                i <= app_provided_live_root_hashes@.len(),
                all_live_roots_vec@ == app_provided_live_root_hashes@.take(i as int),
            decreases app_provided_live_root_hashes@.len() - i,
        {
            all_live_roots_vec.push(app_provided_live_root_hashes[i]);
            i = i + 1;
            assert(all_live_roots_vec@ =~= app_provided_live_root_hashes@.take(i as int));
        }
        assert(all_live_roots_vec@ =~= app_provided_live_root_hashes@);
        if let Some(current_root) = self.root_hash {
            all_live_roots_vec.push(current_root);
        }
        let ghost roots = gc_roots(app_provided_live_root_hashes@, self.root_hash);
        proof {
            let given = app_provided_live_root_hashes@;
            assert forall|x: Seq<u8>| #[trigger] crate::store::chunk_store::hash_set(all_live_roots_vec@).contains(x)
                == roots.contains(x) by {
                if crate::store::chunk_store::hash_set(all_live_roots_vec@).contains(x) {
                    let k = choose|k: int| 0 <= k < all_live_roots_vec@.len() && all_live_roots_vec@[k]@ == x;
                    if k < given.len() {
                        assert(all_live_roots_vec@[k] == given[k]);
                    }
                }
                if crate::store::chunk_store::hash_set(given).contains(x) {
                    let k = choose|k: int| 0 <= k < given.len() && given[k]@ == x;
                    assert(all_live_roots_vec@[k] == given[k]);
                }
                if self.root_hash is Some && x == self.root_hash->0@ {
                    let last = all_live_roots_vec@.len() - 1;
                    assert(all_live_roots_vec@[last]@ == x);
                }
            }
            assert(crate::store::chunk_store::hash_set(all_live_roots_vec@) =~= roots);
        }
        let r = crate::gc::collect_garbage(&mut self.store, all_live_roots_vec.as_slice());
        proof {
            if r is Ok {
                match self.root_hash {
                    Some(h) => {
                        crate::gc::law_gc_keeps_live_trees(c0, roots, h@);
                    },
                    None => {
                        assert(tree_map(self.store.chunks(), None) =~= tree_map(c0, None));
                    },
                }
            }
        }
        r
    }
}

impl<S: ChunkStore> ProllyTree<S> {
    /// The differences from this tree to the tree rooted at
    /// `other_root_hash` in the same store.
    pub fn diff(&self, other_root_hash: Option<crate::common::Hash>) -> (r: Result<Vec<crate::diff::DiffEntry>>)
        requires
            self.wf(),
            opt_hash_view(other_root_hash) != self.root_view() ==> {
                &&& tree_entries(self.store.chunks(), opt_hash_view(other_root_hash)) is Some
                &&& values_resolve(
                    self.store.chunks(),
                    tree_entries(self.store.chunks(), opt_hash_view(other_root_hash)).unwrap(),
                )
            },
        ensures
            r matches Ok(ds) ==> crate::diff::diff_ok(
                crate::diff::diffs_view(ds@),
                self@,
                tree_map(self.store.chunks(), opt_hash_view(other_root_hash)),
            ),
            opt_hash_view(other_root_hash) == self.root_view() ==> (r matches Ok(ds) && ds@.len() == 0),
            r matches Ok(ds) ==> (crate::diff::leaf_root(self.store.chunks(), self.root_view())
                && crate::diff::leaf_root(self.store.chunks(), opt_hash_view(other_root_hash))
                ==> crate::diff::diff_exact(
                crate::diff::diffs_view(ds@),
                self@,
                tree_map(self.store.chunks(), opt_hash_view(other_root_hash)),
            )),
            crate::diff::roots_aligned(self.store.chunks(), self.root_view(), opt_hash_view(other_root_hash)) ==> (r matches Ok(
                ds,
            ) ==> crate::diff::diff_exact(
                crate::diff::diffs_view(ds@),
                self@,
                tree_map(self.store.chunks(), opt_hash_view(other_root_hash)),
            )),
            r matches Ok(ds) ==> forall|k: Seq<u8>|
                crate::diff::shared_in_trees(self.store.chunks(), self.root_view(), opt_hash_view(other_root_hash), k)
                    ==> !crate::diff::names_key(crate::diff::diffs_view(ds@), k),
            crate::diff::root_level(self.store.chunks(), self.root_view()) == crate::diff::root_level(
                self.store.chunks(),
                opt_hash_view(other_root_hash),
            ) ==> (r matches Ok(ds) ==> crate::diff::shared_children_untouched(
                self.store.chunks(),
                self.root_view(),
                opt_hash_view(other_root_hash),
                crate::diff::root_level(self.store.chunks(), self.root_view()),
                crate::diff::diffs_view(ds@),
            )),
            self.store.reliable() ==> r is Ok,
    {
        crate::diff::diff_trees(self.root_hash, other_root_hash, &self.store, &self.config)
    }
}

} // verus!

verus! {

/// How many entries, at most `bound`, a scan accepts in a row from
/// position `p` on, in its direction.
pub open spec fn run_len(es: Seq<EntryModel>, p: int, args: ScanArgs, bound: nat) -> nat
    decreases bound,
{
    if bound == 0 || !scan_ok(es, p, args) {
        0
    } else {
        1 + run_len(es, scan_step(p, args.reverse), args, (bound - 1) as nat)
    }
}

/// A run is no longer than its bound.
pub proof fn lemma_run_len_le(es: Seq<EntryModel>, p: int, args: ScanArgs, bound: nat)
    ensures
        run_len(es, p, args, bound) <= bound,
    decreases bound,
{
    if bound > 0 && scan_ok(es, p, args) {
        lemma_run_len_le(es, scan_step(p, args.reverse), args, (bound - 1) as nat);
    }
}

/// `key` lies within the bounds a scan states, in the scan's direction:
/// going forward, before the end bound (or on it, when it is inclusive);
/// going backward, after the end bound and before the start bound (or on
/// them, when they are inclusive).
pub open spec fn stated_bounds_hold(key: Seq<u8>, args: ScanArgs) -> bool {
    &&& (!args.reverse && args.end_bound is Some) ==> (crate::keys::lex_lt(key, args.end_bound.unwrap()@) || (
        args.end_inclusive && key == args.end_bound.unwrap()@))
    &&& (args.reverse && args.end_bound is Some) ==> (crate::keys::lex_lt(args.end_bound.unwrap()@, key) || (
        args.end_inclusive && key == args.end_bound.unwrap()@))
    &&& (args.reverse && args.start_bound is Some) ==> (crate::keys::lex_lt(key, args.start_bound.unwrap()@) || (
        args.start_inclusive && key == args.start_bound.unwrap()@))
}

/// `key` lies after a forward scan's start bound (or on it, when the bound
/// is inclusive); nothing is asked of a backward scan or one without a
/// start bound.
pub open spec fn forward_start_holds(key: Seq<u8>, args: ScanArgs) -> bool {
    (!args.reverse && args.start_bound is Some) ==> (crate::keys::lex_lt(args.start_bound.unwrap()@, key) || (
        args.start_inclusive && key == args.start_bound.unwrap()@))
}

/// A forward scan over sorted entries starts at or after its start bound:
/// every entry from its first position on lies after the bound, or on it
/// when the bound is inclusive (the offset and the exclusion of the
/// bound's own entry only move the start further).
pub proof fn law_forward_start_within_bound(es: Seq<EntryModel>, args: ScanArgs, rs: int, q: int)
    requires
        sorted_entries(es),
        scan_start(es, args, rs) <= q < es.len(),
        0 <= q,
    ensures
        forward_start_holds(es[q].key, args),
{
    if !args.reverse && args.start_bound is Some {
        let sb = args.start_bound.unwrap()@;
        let lb = super::cursor::count_below(es, sb);
        super::cursor::lemma_count_below(es, sb);
        if q < lb {
            assert(0 <= args.offset);
        }
        assert(!crate::keys::lex_lt(es[q].key, sb));
        crate::keys::lemma_lex_trichotomy(es[q].key, sb);
        if es[q].key == sb && !args.start_inclusive {
            if q > lb {
                assert(crate::keys::lex_lt(es[lb].key, es[q].key));
            }
        }
    }
}

/// A scan takes the entry at a position exactly when there is one and it
/// lies within the bounds the scan states (and checks as it goes).
pub proof fn law_scan_takes_exactly_within_bounds(es: Seq<EntryModel>, p: int, args: ScanArgs)
    ensures
        scan_ok(es, p, args) == (0 <= p < es.len() && stated_bounds_hold(es[p].key, args)),
{
}

/// Every entry a scan's run takes lies within the bounds the scan states:
/// an exclusive bound is never returned, and nothing past a bound is.
pub proof fn law_run_within_bounds(es: Seq<EntryModel>, p: int, args: ScanArgs, bound: nat, j: int)
    requires
        0 <= j < run_len(es, p, args, bound),
    ensures
        0 <= run_pos(p, j, args.reverse) < es.len(),
        stated_bounds_hold(es[run_pos(p, j, args.reverse)].key, args),
    decreases j,
{
    if j > 0 {
        law_run_within_bounds(es, scan_step(p, args.reverse), args, (bound - 1) as nat, j - 1);
        assert(run_pos(scan_step(p, args.reverse), j - 1, args.reverse) == run_pos(p, j, args.reverse));
    }
}

/// The position `j` steps from `p` in the scan's direction.
pub open spec fn run_pos(p: int, j: int, reverse: bool) -> int {
    if reverse {
        p - j
    } else {
        p + j
    }
}

/// The items are the entries at the first positions of a run from `st`,
/// with their values read through `chunks`.
pub open spec fn items_match(
    chunks: Map<Seq<u8>, Seq<u8>>,
    es: Seq<EntryModel>,
    st: int,
    reverse: bool,
    items: Seq<(Key, Value)>,
) -> bool {
    forall|j: int|
        0 <= j < items.len() ==> {
            let e = es[run_pos(st, j, reverse)];
            &&& (#[trigger] items[j]).0@ == e.key
            &&& resolve_value(chunks, e.value) == Some(items[j].1@)
        }
}

/// Takes entries from the cursor while the scan accepts them, at most `bound`.
fn collect_run<'a, S: ChunkStore>(cursor: &mut Cursor<'a, S>, args: &ScanArgs, bound: usize) -> (r: Result<
    Vec<(Key, Value)>,
>)
    requires
        old(cursor).scan_inv(args.reverse),
    ensures
        r matches Ok(items) ==> {
            let es = old(cursor).entries();
            let st = old(cursor).scan_pos(args.reverse);
            &&& items@.len() == run_len(es, st, *args, bound as nat)
            &&& items_match(old(cursor).chunks(), es, st, args.reverse, items@)
        },
        !old(cursor).has_leaf() ==> r is Ok,
        old(cursor).reliable() && values_resolve(old(cursor).chunks(), old(cursor).entries()) ==> r is Ok,
{
    let ghost es = cursor.entries();
    let ghost chunks = cursor.chunks();
    let ghost st = cursor.scan_pos(args.reverse);
    let mut items: Vec<(Key, Value)> = Vec::new();
    let mut i: usize = 0;
    loop
        invariant_except_break
            cursor.scan_inv(args.reverse),
            cursor.entries() == es,
            cursor.chunks() == chunks,
            cursor.scan_pos(args.reverse) == run_pos(st, i as int, args.reverse),
        invariant
            es == old(cursor).entries(),
            chunks == old(cursor).chunks(),
            st == old(cursor).scan_pos(args.reverse),
            i == items@.len(),
            i <= bound,
            run_len(es, st, *args, bound as nat) == i + run_len(
                es,
                run_pos(st, i as int, args.reverse),
                *args,
                (bound - i) as nat,
            ),
            items_match(chunks, es, st, args.reverse, items@),
            !old(cursor).has_leaf() ==> !cursor.has_leaf(),
            cursor.reliable() == old(cursor).reliable(),
        ensures
            run_len(es, run_pos(st, i as int, args.reverse), *args, (bound - i) as nat) == 0,
        decreases bound - i,
    {
        if i >= bound {
            break;
        }
        let ghost p = run_pos(st, i as int, args.reverse);
        let ghost before = items@;
        match cursor.next_in_scan(args) {
            Ok(Some((key, value))) => {
                items.push((key, value));
                proof {
                    assert(items@[i as int] == (key, value));
                    assert(run_pos(st, i + 1, args.reverse) == scan_step(p, args.reverse));
                    assert forall|j: int| 0 <= j < items@.len() implies {
                        let e = es[run_pos(st, j, args.reverse)];
                        &&& (#[trigger] items@[j]).0@ == e.key
                        &&& resolve_value(chunks, e.value) == Some(items@[j].1@)
                    } by {
                        if j < i {
                            assert(items@[j] == before[j]);
                        }
                    }
                }
                i = i + 1;
            },
            Ok(None) => {
                break;
            },
            Err(e) => return Err(e),
        }
    }
    Ok(items)
}

impl<S: ChunkStore> ProllyTree<S> {
    /// Where the leaf reached by a search for `args`'s start bound begins.
    pub open spec fn scan_route_start(&self, args: ScanArgs) -> int {
        tree_route_start(self.store.chunks(), self.root_view(), opt_key(args.start_bound).unwrap())
    }

    /// A cursor before the first entry.
    pub fn cursor_start<'a>(&'a self) -> (r: Result<Cursor<'a, S>>)
        requires
            self.wf(),
        ensures
            r matches Ok(c) ==> {
                &&& c.inv_fwd()
                &&& c.entries() == self.entries().unwrap()
                &&& c.chunks() == self.store.chunks()
                &&& c.fwd_pos() == 0
                &&& c.reliable() == self.store.reliable()
            },
            self.root_hash is None ==> r is Ok,
            self.store.reliable() ==> r is Ok,
    {
        Cursor::new_at_start(self)
    }

    /// A cursor at the first entry whose key is not below `key`.
    pub fn seek<'a>(&'a self, key: &Key) -> (r: Result<Cursor<'a, S>>)
        requires
            self.wf(),
        ensures
            r matches Ok(c) ==> {
                &&& c.inv_fwd()
                &&& c.entries() == self.entries().unwrap()
                &&& c.chunks() == self.store.chunks()
                &&& is_lower_bound(c.entries(), key@, c.fwd_pos())
                &&& c.reliable() == self.store.reliable()
            },
            self.root_hash is None ==> r is Ok,
            self.store.reliable() ==> r is Ok,
    {
        Cursor::new_at_key(self, key)
    }

    /// One page of a range scan. From the position `scan_start` gives, the
    /// entries are taken in the scan's direction while the scan accepts
    /// them (`scan_ok`), at most `limit` of them; one more is looked at to
    /// tell whether there is a next page, except when `limit` is 0, where
    /// nothing is looked at. The previous-page cursor is the first key
    /// looked at.
    pub fn scan(&self, args: ScanArgs) -> (r: Result<ScanPage>)
        requires
            self.wf(),
            args.limit != Some(usize::MAX),
        ensures
            r matches Ok(page) ==> {
                let es = self.entries().unwrap();
                let st = scan_start(es, args, self.scan_route_start(args));
                let fetch: nat = match args.limit {
                    Some(l) => if l > 0 {
                        (l + 1) as nat
                    } else {
                        0
                    },
                    None => usize::MAX as nat,
                };
                let m = run_len(es, st, args, fetch);
                let n = page.items@.len();
                &&& n == match args.limit {
                    Some(l) => if m > l {
                        l as nat
                    } else {
                        m
                    },
                    None => m,
                }
                &&& items_match(self.store.chunks(), es, st, args.reverse, page.items@)
                &&& page.has_next_page == (args.limit matches Some(l) && m > l)
                &&& forall|j: int| 0 <= j < n ==> stated_bounds_hold((#[trigger] page.items@[j]).0@, args)
                &&& forall|j: int| 0 <= j < n ==> forward_start_holds((#[trigger] page.items@[j]).0@, args)
                &&& opt_key(page.next_page_cursor) == if page.has_next_page {
                    Some(es[run_pos(st, n as int, args.reverse)].key)
                } else {
                    None
                }
                &&& page.has_previous_page == (args.offset > 0 || args.start_bound is Some)
                &&& opt_key(page.previous_page_cursor) == if m > 0 {
                    Some(es[st].key)
                } else {
                    None
                }
            },
            self.root_hash is None ==> r is Ok,
            self.store.reliable() ==> r is Ok,
    {
        let fetch: usize = match args.limit {
            Some(limit_val) => if limit_val > 0 {
                limit_val + 1
            } else {
                0
            },
            None => usize::MAX,
        };
        let mut cursor = match Cursor::new_for_scan(self, &args) {
            Ok(c) => c,
            Err(e) => return Err(e),
        };
        let mut collected_items = if fetch != 0 {
            match collect_run(&mut cursor, &args, fetch) {
                Ok(v) => v,
                Err(e) => return Err(e),
            }
        } else {
            Vec::new()
        };
        let ghost all = collected_items@;
        let first_item_key: Option<Key> = if collected_items.len() > 0 {
            Some(copy_range(collected_items[0].0.as_slice(), 0, collected_items[0].0.len()))
        } else {
            None
        };
        let mut actual_next_item_for_cursor: Option<(Key, Value)> = None;
        if let Some(limit_val) = args.limit {
            if collected_items.len() > limit_val {
                actual_next_item_for_cursor = collected_items.pop();
            }
        }
        proof {
            let es = self.entries().unwrap();
            let st = scan_start(es, args, self.scan_route_start(args));
            if all.len() > 0 {
                assert(first_item_key.unwrap()@ =~= all[0].0@);
                assert(run_pos(st, 0, args.reverse) == st);
            }
            if fetch == 0 {
                assert(run_len(es, st, args, 0) == 0);
            }
            assert(all.len() == run_len(es, st, args, fetch as nat));
            lemma_run_len_le(es, st, args, fetch as nat);
            assert forall|j: int| 0 <= j < collected_items@.len() implies #[trigger] collected_items@[j] == all[j] by {}
            if let Some(h) = self.root_hash {
                lemma_subtree_shape(self.store.chunks(), h@, node_at(self.store.chunks(), h@).unwrap().level() as nat);
            }
            assert(sorted_entries(es));
            assert forall|j: int| 0 <= j < collected_items@.len() implies stated_bounds_hold(
                (#[trigger] collected_items@[j]).0@,
                args,
            ) && forward_start_holds(collected_items@[j].0@, args) by {
                assert(collected_items@[j] == all[j]);
                law_run_within_bounds(es, st, args, fetch as nat, j);
                if !args.reverse {
                    law_forward_start_within_bound(es, args, self.scan_route_start(args), run_pos(st, j, args.reverse));
                }
            }
            if actual_next_item_for_cursor is Some {
                assert(actual_next_item_for_cursor.unwrap() == all[collected_items@.len() as int]);
            }
        }
        let final_has_next_page = actual_next_item_for_cursor.is_some();
        let calculated_has_previous_page = args.offset > 0 || (args.start_bound.is_some() && args.offset == 0);
        let next_page_cursor = match actual_next_item_for_cursor {
            Some((k, _v)) => Some(k),
            None => None,
        };
        Ok(ScanPage {
            items: collected_items,
            has_next_page: final_has_next_page,
            has_previous_page: calculated_has_previous_page,
            next_page_cursor,
            previous_page_cursor: first_item_key,
        })
    }

    /// One page of a range scan, as `scan`, except that with a `limit` one
    /// more entry is always looked at, `limit` 0 included (and with
    /// `limit` `usize::MAX`, no more).
    pub fn scan_sync(&self, args: ScanArgs) -> (r: Result<ScanPage>)
        requires
            self.wf(),
        ensures
            r matches Ok(page) ==> {
                let es = self.entries().unwrap();
                let st = scan_start(es, args, self.scan_route_start(args));
                let limit: nat = match args.limit {
                    Some(l) => l as nat,
                    None => usize::MAX as nat,
                };
                let fetch: nat = if limit == usize::MAX {
                    limit
                } else {
                    limit + 1
                };
                let m = run_len(es, st, args, fetch);
                let n = page.items@.len();
                &&& page.has_next_page == (args.limit is Some && m > limit)
                &&& forall|j: int| 0 <= j < n ==> stated_bounds_hold((#[trigger] page.items@[j]).0@, args)
                &&& forall|j: int| 0 <= j < n ==> forward_start_holds((#[trigger] page.items@[j]).0@, args)
                &&& n == if page.has_next_page {
                    limit
                } else {
                    m
                }
                &&& items_match(self.store.chunks(), es, st, args.reverse, page.items@)
                &&& opt_key(page.next_page_cursor) == if page.has_next_page {
                    Some(es[run_pos(st, n as int, args.reverse)].key)
                } else {
                    None
                }
                &&& page.has_previous_page == (args.offset > 0 || args.start_bound is Some)
                &&& opt_key(page.previous_page_cursor) == if m > 0 {
                    Some(es[st].key)
                } else {
                    None
                }
            },
            self.root_hash is None ==> r is Ok,
            self.store.reliable() ==> r is Ok,
    {
        let limit = match args.limit {
            Some(l) => l,
            None => usize::MAX,
        };
        let items_to_fetch = if limit == usize::MAX {
            limit
        } else {
            limit + 1
        };
        let mut cursor = match Cursor::new_for_scan(self, &args) {
            Ok(c) => c,
            Err(e) => return Err(e),
        };
        let mut collected_items = match collect_run(&mut cursor, &args, items_to_fetch) {
            Ok(v) => v,
            Err(e) => return Err(e),
        };
        let ghost all = collected_items@;
        let first_item_key: Option<Key> = if collected_items.len() > 0 {
            Some(copy_range(collected_items[0].0.as_slice(), 0, collected_items[0].0.len()))
        } else {
            None
        };
        let mut has_next_page = false;
        let mut next_page_cursor: Option<Key> = None;
        if args.limit.is_some() && collected_items.len() > limit {
            has_next_page = true;
            match collected_items.pop() {
                Some(last_item) => {
                    next_page_cursor = Some(last_item.0);
                },
                None => {},
            }
        }
        proof {
            let es = self.entries().unwrap();
            let st = scan_start(es, args, self.scan_route_start(args));
            lemma_run_len_le(es, st, args, items_to_fetch as nat);
            if all.len() > 0 {
                assert(first_item_key.unwrap()@ =~= all[0].0@);
                assert(run_pos(st, 0, args.reverse) == st);
            }
            if next_page_cursor is Some {
                assert(next_page_cursor.unwrap() == all[collected_items@.len() as int].0);
            }
            assert forall|j: int| 0 <= j < collected_items@.len() implies #[trigger] collected_items@[j] == all[j] by {}
            if let Some(h) = self.root_hash {
                lemma_subtree_shape(self.store.chunks(), h@, node_at(self.store.chunks(), h@).unwrap().level() as nat);
            }
            assert(sorted_entries(es));
            assert forall|j: int| 0 <= j < collected_items@.len() implies stated_bounds_hold(
                (#[trigger] collected_items@[j]).0@,
                args,
            ) && forward_start_holds(collected_items@[j].0@, args) by {
                assert(collected_items@[j] == all[j]);
                law_run_within_bounds(es, st, args, items_to_fetch as nat, j);
                if !args.reverse {
                    law_forward_start_within_bound(es, args, self.scan_route_start(args), run_pos(st, j, args.reverse));
                }
            }
        }
        let has_previous_page = args.offset > 0 || (args.start_bound.is_some() && args.offset == 0);
        Ok(ScanPage {
            items: collected_items,
            has_next_page,
            has_previous_page,
            next_page_cursor,
            previous_page_cursor: first_item_key,
        })
    }
}

impl<S: ChunkStore> ProllyTree<S> {
    /// One page of a walk over the tree's nodes and entries (see
    /// `hierarchy_items`): `offset` items are skipped, then at most `limit`
    /// are returned, and one more is looked at to tell whether a next page
    /// exists.
    pub fn hierarchy_scan(&self, args: HierarchyScanArgs) -> (r: Result<HierarchyScanPage>)
        requires
            self.wf(),
        ensures
            r matches Ok(page) ==> hierarchy_page_ok(
                hierarchy_items(self.store.chunks(), self.root_view(), args.max_depth),
                args,
                page,
            ),
            self.root_hash is None ==> r is Ok,
            self.store.reliable() ==> r is Ok,
    {
        let mut cursor = match HierarchyCursor::new_for_hierarchy_scan(self, args) {
            Ok(c) => c,
            Err(e) => return Err(e),
        };
        let ghost all = cursor.remaining();
        let ghost chunks = self.store.chunks();
        assert(all.skip(0) =~= all);
        let mut skipped: usize = 0;
        if let Some(offset_val) = args.offset {
            if offset_val > 0 {
                while skipped < offset_val
                    invariant
                        cursor.inv(),
                        cursor.chunks() == chunks,
                        cursor.max_depth() == args.max_depth,
                        skipped <= offset_val,
                        skipped <= all.len(),
                        args.offset == Some(offset_val),
                        self.root_hash is None ==> cursor.idle(),
                        cursor.reliable() == self.store.reliable(),
                        all == hierarchy_items(self.store.chunks(), self.root_view(), args.max_depth),
                        cursor.remaining() == all.skip(skipped as int),
                    decreases offset_val - skipped,
                {
                    match cursor.next_item() {
                        Ok(Some(_)) => {},
                        Ok(None) => {
                            assert(all.skip(skipped as int).len() == all.len() - skipped);
                            return Ok(
                                HierarchyScanPage {
                                    items: Vec::new(),
                                    has_next_page: false,
                                    next_page_cursor_token: None,
                                },
                            );
                        },
                        Err(e) => return Err(e),
                    }
                    assert(all.skip(skipped as int).drop_first() =~= all.skip(skipped + 1));
                    skipped = skipped + 1;
                }
            }
        }
        let ghost off: nat = match args.offset {
            Some(o) => o as nat,
            None => 0,
        };
        assert(skipped == off);
        let ghost rest = all.skip(off as int);
        let limit: usize = match args.limit {
            Some(l) => l,
            None => usize::MAX,
        };
        if limit == 0 && args.limit.is_some() {
            let has_next_page = match cursor.next_item() {
                Ok(o) => o.is_some(),
                Err(e) => return Err(e),
            };
            return Ok(
                HierarchyScanPage { items: Vec::new(), has_next_page, next_page_cursor_token: None },
            );
        }
        let iterations: usize = if limit == usize::MAX {
            usize::MAX
        } else {
            limit + 1
        };
        let mut collected_items: Vec<HierarchyItem> = Vec::new();
        let mut i: usize = 0;
        assert(rest.skip(0) =~= rest);
        while i < iterations
            invariant
                cursor.inv(),
                cursor.chunks() == chunks,
                cursor.max_depth() == args.max_depth,
                iterations == if limit == usize::MAX {
                    usize::MAX as int
                } else {
                    limit + 1
                },
                limit == match args.limit {
                    Some(l) => l,
                    None => usize::MAX,
                },
                all == hierarchy_items(self.store.chunks(), self.root_view(), args.max_depth),
                off == match args.offset {
                    Some(o) => o as nat,
                    None => 0,
                },
                off <= all.len(),
                rest == all.skip(off as int),
                collected_items@.len() == i,
                i <= limit,
                i <= rest.len(),
                cursor.remaining() == rest.skip(i as int),
                self.root_hash is None ==> cursor.idle(),
                cursor.reliable() == self.store.reliable(),
                forall|j: int| 0 <= j < i ==> (#[trigger] collected_items@[j])@ == rest[j],
            decreases iterations - i,
        {
            match cursor.next_item() {
                Ok(Some(item)) => {
                    if collected_items.len() < limit {
                        collected_items.push(item);
                    } else {
                        assert(rest.skip(i as int).len() == rest.len() - i);
                        assert(off <= all.len() && rest.len() == all.len() - off);
                        return Ok(
                            HierarchyScanPage {
                                items: collected_items,
                                has_next_page: true,
                                next_page_cursor_token: None,
                            },
                        );
                    }
                },
                Ok(None) => {
                    assert(rest.skip(i as int).len() == rest.len() - i);
                    assert(off <= all.len() && rest.len() == all.len() - off);
                    return Ok(
                        HierarchyScanPage {
                            items: collected_items,
                            has_next_page: false,
                            next_page_cursor_token: None,
                        },
                    );
                },
                Err(e) => return Err(e),
            }
            assert(rest.skip(i as int).drop_first() =~= rest.skip(i + 1));
            i = i + 1;
        }
        Ok(
            HierarchyScanPage {
                items: collected_items,
                has_next_page: false,
                next_page_cursor_token: None,
            },
        )
    }
}

} // verus!
