//! A walk over the tree's structure: each node, then its entries, then
//! the subtrees of its children in order.
use vstd::prelude::*;
use std::collections::VecDeque;
use crate::common::TreeConfig;
use crate::error::Result;
use crate::node::definition::{
    children_view, ChildModel, EntryModel, Node, NodeModel, ValueModel, ValueRepr,
};
use crate::store::ChunkStore;
use super::io::load_node;
use super::model::{
    child_ok, children_ok, flat_concat, lemma_children_flat_char, lemma_flat_concat_add,
    lemma_flat_concat_one, lemma_subtree_level, node_at, subtree, tree_entries,
};
use super::prolly_tree::{opt_hash_view, ProllyTree};
use super::types::{HierarchyItem, HierarchyItemModel, HierarchyScanArgs, HierarchyScanPage};

verus! {

/// The name of the way a value is stored.
pub open spec fn value_kind(v: ValueModel) -> Seq<char> {
    match v {
        ValueModel::Inline(_) => "Inline"@,
        ValueModel::Chunked(_) => "Chunked"@,
        ValueModel::ChunkedSequence { .. } => "ChunkedSequence"@,
    }
}

/// The hash of the (first) chunk that holds a value, if any.
pub open spec fn value_first_hash(v: ValueModel) -> Option<Seq<u8>> {
    match v {
        ValueModel::Inline(_) => None,
        ValueModel::Chunked(h) => Some(h),
        ValueModel::ChunkedSequence { hashes, .. } => if hashes.len() > 0 {
            Some(hashes[0])
        } else {
            None
        },
    }
}

/// The size reported for a value: an inline value's length, the length of
/// the chunk of a single-chunk value (0 when the chunk is missing), and the
/// recorded total of a multi-chunk value.
pub open spec fn value_size(chunks: Map<Seq<u8>, Seq<u8>>, v: ValueModel) -> u64 {
    match v {
        ValueModel::Inline(b) => b.len() as u64,
        ValueModel::Chunked(h) => if chunks.contains_key(h) {
            chunks[h].len() as u64
        } else {
            0
        },
        ValueModel::ChunkedSequence { total_size, .. } => total_size,
    }
}

/// The item for a node, reached from the root through `path`.
pub open spec fn node_item(h: Seq<u8>, n: NodeModel, path: Seq<usize>) -> HierarchyItemModel {
    HierarchyItemModel::Node {
        hash: h,
        level: n.level(),
        is_leaf: n is Leaf,
        num_entries: n.num_entries(),
        path_indices: path,
    }
}

/// The item for entry `i` of node `n`, stored under `h`.
pub open spec fn entry_item(chunks: Map<Seq<u8>, Seq<u8>>, h: Seq<u8>, n: NodeModel, i: nat) -> HierarchyItemModel {
    match n {
        NodeModel::Internal { children, .. } => HierarchyItemModel::InternalEntry {
            parent_hash: h,
            entry_index: i,
            boundary_key: children[i as int].boundary,
            child_hash: children[i as int].hash,
            num_items_subtree: children[i as int].count,
        },
        NodeModel::Leaf { entries, .. } => HierarchyItemModel::LeafEntry {
            parent_hash: h,
            entry_index: i,
            key: entries[i as int].key,
            value_repr_type: value_kind(entries[i as int].value),
            value_hash: value_first_hash(entries[i as int].value),
            value_size: value_size(chunks, entries[i as int].value),
        },
    }
}

/// The items for the entries of `n` from index `from` on.
pub open spec fn entry_items(chunks: Map<Seq<u8>, Seq<u8>>, h: Seq<u8>, n: NodeModel, from: nat) -> Seq<
    HierarchyItemModel,
> {
    Seq::new((n.num_entries() - from) as nat, |j: int| entry_item(chunks, h, n, (from + j) as nat))
}

/// Whether the walk goes below a node at `depth`.
pub open spec fn below_depth(depth: nat, max_depth: Option<usize>) -> bool {
    match max_depth {
        Some(m) => depth < m,
        None => true,
    }
}

/// The items of the walk over the subtree under `h`, whose root stands at
/// `level`, reached at `depth` through `path`: the node, its entries, then
/// the walks of its children, which are visited only above `max_depth`.
pub open spec fn hier_node(
    chunks: Map<Seq<u8>, Seq<u8>>,
    h: Seq<u8>,
    level: nat,
    depth: nat,
    path: Seq<usize>,
    max_depth: Option<usize>,
) -> Seq<HierarchyItemModel>
    decreases level, 0nat, 0nat,
{
    if max_depth matches Some(m) && depth > m {
        Seq::empty()
    } else {
        match node_at(chunks, h) {
            None => Seq::empty(),
            Some(n) => seq![node_item(h, n, path)] + entry_items(chunks, h, n, 0) + match n {
                NodeModel::Internal { children, .. } => if level > 0 && below_depth(depth, max_depth) {
                    hier_children(chunks, children, 0, (level - 1) as nat, depth + 1, path, max_depth)
                } else {
                    Seq::empty()
                },
                NodeModel::Leaf { .. } => Seq::empty(),
            },
        }
    }
}

/// The walks of the children `cs[from..]`, one after another.
pub open spec fn hier_children(
    chunks: Map<Seq<u8>, Seq<u8>>,
    cs: Seq<ChildModel>,
    from: nat,
    level: nat,
    depth: nat,
    path: Seq<usize>,
    max_depth: Option<usize>,
) -> Seq<HierarchyItemModel>
    decreases level, 1nat, cs.len() - from,
{
    if from >= cs.len() {
        Seq::empty()
    } else {
        hier_node(chunks, cs[from as int].hash, level, depth, path.push(from as usize), max_depth)
            + hier_children(chunks, cs, from + 1, level, depth, path, max_depth)
    }
}

/// The walk over the subtree under `h`, at the level its root node has.
pub open spec fn hier_at(
    chunks: Map<Seq<u8>, Seq<u8>>,
    h: Seq<u8>,
    depth: nat,
    path: Seq<usize>,
    max_depth: Option<usize>,
) -> Seq<HierarchyItemModel> {
    match node_at(chunks, h) {
        Some(n) => hier_node(chunks, h, n.level() as nat, depth, path, max_depth),
        None => Seq::empty(),
    }
}

/// The items of a hierarchy walk over the tree rooted at `root`.
pub open spec fn hierarchy_items(
    chunks: Map<Seq<u8>, Seq<u8>>,
    root: Option<Seq<u8>>,
    max_depth: Option<usize>,
) -> Seq<HierarchyItemModel> {
    match root {
        Some(h) => hier_at(chunks, h, 0, Seq::empty(), max_depth),
        None => Seq::empty(),
    }
}

/// What a page of a hierarchy walk holds: the items of `all` after the
/// first `offset`, at most `limit` of them, and whether more follow them
/// (never said when there is no limit); nothing when the offset passes the
/// end.
pub open spec fn hierarchy_page_ok(
    all: Seq<HierarchyItemModel>,
    args: HierarchyScanArgs,
    page: HierarchyScanPage,
) -> bool {
    let off: nat = match args.offset {
        Some(o) => o as nat,
        None => 0,
    };
    let lim: nat = match args.limit {
        Some(l) => l as nat,
        None => usize::MAX as nat,
    };
    &&& page.next_page_cursor_token is None
    &&& if off > all.len() {
        page.items@.len() == 0 && !page.has_next_page
    } else {
        let rest = all.skip(off as int);
        let n = if rest.len() < lim {
            rest.len()
        } else {
            lim
        };
        &&& page.items@.len() == n
        &&& forall|j: int| 0 <= j < n ==> (#[trigger] page.items@[j])@ == rest[j]
        &&& page.has_next_page == (lim < usize::MAX && rest.len() > lim)
    }
}

/// The walks of the queued subtrees, one after another.
pub open spec fn queue_items(
    chunks: Map<Seq<u8>, Seq<u8>>,
    q: Seq<(crate::common::Hash, usize, Vec<usize>)>,
    max_depth: Option<usize>,
) -> Seq<HierarchyItemModel>
    decreases q.len(),
{
    if q.len() == 0 {
        Seq::empty()
    } else {
        hier_at(chunks, q[0].0@, q[0].1 as nat, q[0].2@, max_depth) + queue_items(
            chunks,
            q.drop_first(),
            max_depth,
        )
    }
}

/// A queued subtree is well formed, and its depth and level fit in a byte.
pub open spec fn queued_ok(chunks: Map<Seq<u8>, Seq<u8>>, t: (crate::common::Hash, usize, Vec<usize>)) -> bool {
    &&& node_at(chunks, t.0@) is Some
    &&& subtree(chunks, t.0@, node_at(chunks, t.0@).unwrap().level() as nat) is Some
    &&& t.1 + node_at(chunks, t.0@).unwrap().level() <= 255
}

proof fn lemma_queue_items_cons(
    chunks: Map<Seq<u8>, Seq<u8>>,
    t: (crate::common::Hash, usize, Vec<usize>),
    q: Seq<(crate::common::Hash, usize, Vec<usize>)>,
    max_depth: Option<usize>,
)
    ensures
        queue_items(chunks, seq![t] + q, max_depth) == hier_at(chunks, t.0@, t.1 as nat, t.2@, max_depth)
            + queue_items(chunks, q, max_depth),
{
    assert((seq![t] + q).drop_first() =~= q);
}

/// A walk over the tree's nodes and entries, in the order: a node, its
/// entries, then the walks of its children.
pub struct HierarchyCursor<'a, S: ChunkStore> {
    store: &'a S,
    config: TreeConfig,
    args: HierarchyScanArgs,
    traversal_queue: VecDeque<(crate::common::Hash, usize, Vec<usize>)>,
    current_node_entries_queue: VecDeque<(crate::common::Hash, Node, usize, usize)>,
}

/// The path `p` extended by `i`.
fn extend_path(p: &Vec<usize>, i: usize) -> (r: Vec<usize>)
    ensures
        r@ == p@.push(i),
{
    let mut r: Vec<usize> = Vec::new();
    let mut k: usize = 0;
    while k < p.len()
        invariant
            k <= p.len(),
            r@ == p@.subrange(0, k as int),
        decreases p.len() - k,
    {
        r.push(p[k]);
        k = k + 1;
    }
    assert(p@.subrange(0, p@.len() as int) =~= p@);
    r.push(i);
    r
}

/// The item for entry `idx` of `node`, stored under `parent`. Reading the
/// size of a single-chunk value asks the store for the chunk.
fn entry_item_of<S: ChunkStore>(store: &S, parent: &crate::common::Hash, node: &Node, idx: usize) -> (r:
    Result<HierarchyItem>)
    requires
        store.inv(),
        idx < node@.num_entries(),
    ensures
        r matches Ok(it) ==> it@ == entry_item(store.chunks(), parent@, node@, idx as nat),
        store.reliable() ==> r is Ok,
{
    match node {
        Node::Internal { children, .. } => {
            let c = &children[idx];
            let bk = crate::codec::copy_range(c.boundary_key.as_slice(), 0, c.boundary_key.len());
            assert(bk@ =~= c.boundary_key@);
            assert(c@ == node@->children[idx as int]);
            Ok(
                HierarchyItem::InternalEntryItem {
                    parent_hash: *parent,
                    entry_index: idx,
                    boundary_key: bk,
                    child_hash: c.child_hash,
                    num_items_subtree: c.num_items_subtree,
                },
            )
        },
        Node::Leaf { entries, .. } => {
            let e = &entries[idx];
            let (kind, value_hash, size) = match &e.value {
                ValueRepr::Inline(v) => ("Inline".to_owned(), None, v.len() as u64),
                ValueRepr::Chunked(h) => {
                    let size = match store.get(h) {
                        Ok(Some(d)) => d.len() as u64,
                        Ok(None) => 0,
                        Err(err) => return Err(err),
                    };
                    ("Chunked".to_owned(), Some(*h), size)
                },
                ValueRepr::ChunkedSequence { chunk_hashes, total_size } => {
                    let first = if chunk_hashes.len() > 0 {
                        Some(chunk_hashes[0])
                    } else {
                        None
                    };
                    ("ChunkedSequence".to_owned(), first, *total_size)
                },
            };
            let key = crate::codec::copy_range(e.key.as_slice(), 0, e.key.len());
            assert(key@ =~= e.key@);
            assert(e@ == node@->entries[idx as int]);
            let ghost v = e.value@;
            assert(kind@ == value_kind(v));
            assert(size == value_size(store.chunks(), v));
            assert(opt_hash_view(value_hash) == value_first_hash(v));
            Ok(
                HierarchyItem::LeafEntryItem {
                    parent_hash: *parent,
                    entry_index: idx,
                    key,
                    value_repr_type: kind,
                    value_hash,
                    value_size: size,
                },
            )
        },
    }
}

/// Queues the children of an internal node at `level`, reached at `depth`
/// through `path`, in front of what was queued, first child first.
fn push_children<S: ChunkStore>(
    q: &mut VecDeque<(crate::common::Hash, usize, Vec<usize>)>,
    store: &S,
    children: &Vec<crate::node::definition::InternalEntry>,
    level: u8,
    depth: usize,
    path: &Vec<usize>,
    md: Ghost<Option<usize>>,
)
    requires
        level > 0,
        depth + level <= 255,
        forall|j: int|
            0 <= j < children@.len() ==> child_ok(
                store.chunks(),
                #[trigger] children_view(children@)[j],
                (level - 1) as nat,
            ),
        forall|k: int| 0 <= k < old(q)@.len() ==> queued_ok(store.chunks(), #[trigger] old(q)@[k]),
    ensures
        forall|k: int| 0 <= k < final(q)@.len() ==> queued_ok(store.chunks(), #[trigger] final(q)@[k]),
        queue_items(store.chunks(), final(q)@, md@) == hier_children(
            store.chunks(),
            children_view(children@),
            0,
            (level - 1) as nat,
            (depth + 1) as nat,
            path@,
            md@,
        ) + queue_items(store.chunks(), old(q)@, md@),
{
    let ghost chunks = store.chunks();
    let ghost cs = children_view(children@);
    let ghost lv = (level - 1) as nat;
    let ghost rest = q@;
    let mut i: usize = children.len();
    assert(hier_children(chunks, cs, i as nat, lv, (depth + 1) as nat, path@, md@) =~= Seq::<
        HierarchyItemModel,
    >::empty());
    while i > 0
        invariant
            i <= children@.len(),
            cs == children_view(children@),
            chunks == store.chunks(),
            lv == (level - 1) as nat,
            level > 0,
            depth + level <= 255,
            forall|j: int| 0 <= j < children@.len() ==> child_ok(chunks, #[trigger] cs[j], lv),
            forall|k: int| 0 <= k < q@.len() ==> queued_ok(chunks, #[trigger] q@[k]),
            queue_items(chunks, q@, md@) == hier_children(
                chunks,
                cs,
                i as nat,
                lv,
                (depth + 1) as nat,
                path@,
                md@,
            ) + queue_items(chunks, rest, md@),
        decreases i,
    {
        i = i - 1;
        let child_path = extend_path(path, i);
        let ghost q1 = q@;
        let t = (children[i].child_hash, depth + 1, child_path);
        q.push_front(t);
        proof {
            let c = cs[i as int];
            assert(c == children@[i as int]@);
            assert(child_ok(chunks, c, lv));
            lemma_subtree_level(chunks, c.hash, lv);
            assert(q@ =~= seq![t] + q1);
            lemma_queue_items_cons(chunks, t, q1, md@);
            assert(queued_ok(chunks, t));
            assert forall|k: int| 0 <= k < q@.len() implies queued_ok(chunks, #[trigger] q@[k]) by {
                if k > 0 {
                    assert(q@[k] == q1[k - 1]);
                }
            }
            assert(hier_at(chunks, t.0@, t.1 as nat, t.2@, md@) == hier_node(
                chunks,
                c.hash,
                lv,
                (depth + 1) as nat,
                path@.push(i),
                md@,
            ));
            assert(queue_items(chunks, q@, md@) =~= hier_children(
                chunks,
                cs,
                i as nat,
                lv,
                (depth + 1) as nat,
                path@,
                md@,
            ) + queue_items(chunks, rest, md@));
        }
    }
}

/// Visiting a queued node yields the node's item, then its entries, then
/// what was queued for its children, then the rest of the queue.
proof fn lemma_node_step(
    chunks: Map<Seq<u8>, Seq<u8>>,
    h: Seq<u8>,
    n: NodeModel,
    depth: nat,
    path: Seq<usize>,
    md: Option<usize>,
    rest_q: Seq<(crate::common::Hash, usize, Vec<usize>)>,
    new_q: Seq<(crate::common::Hash, usize, Vec<usize>)>,
)
    requires
        node_at(chunks, h) == Some(n),
        !(md matches Some(m) && depth > m),
        n is Internal && below_depth(depth, md) && n.level() > 0 ==> queue_items(chunks, new_q, md)
            == hier_children(chunks, n->children, 0, (n.level() - 1) as nat, depth + 1, path, md)
            + queue_items(chunks, rest_q, md),
        !(n is Internal && below_depth(depth, md) && n.level() > 0) ==> new_q == rest_q,
    ensures
        hier_at(chunks, h, depth, path, md) + queue_items(chunks, rest_q, md) == seq![node_item(h, n, path)]
            + entry_items(chunks, h, n, 0) + queue_items(chunks, new_q, md),
{
    let a = seq![node_item(h, n, path)];
    let b = entry_items(chunks, h, n, 0);
    if n is Internal && below_depth(depth, md) && n.level() > 0 {
        let c = hier_children(chunks, n->children, 0, (n.level() - 1) as nat, depth + 1, path, md);
        let r = queue_items(chunks, rest_q, md);
        assert(hier_at(chunks, h, depth, path, md) == a + b + c);
        assert((a + b + c) + r =~= a + b + (c + r));
    } else {
        assert(hier_at(chunks, h, depth, path, md) =~= a + b);
    }
}

impl<'a, S: ChunkStore> HierarchyCursor<'a, S> {
    /// The chunks of the store read.
    pub closed spec fn chunks(&self) -> Map<Seq<u8>, Seq<u8>> {
        self.store.chunks()
    }

    /// The deepest level visited.
    pub closed spec fn max_depth(&self) -> Option<usize> {
        self.args.max_depth
    }

    closed spec fn current_items(&self) -> Seq<HierarchyItemModel> {
        if self.current_node_entries_queue@.len() == 0 {
            Seq::empty()
        } else {
            let t = self.current_node_entries_queue@[0];
            entry_items(self.store.chunks(), t.0@, t.1@, t.2 as nat)
        }
    }

    /// The store read never fails on its own account.
    pub closed spec fn reliable(&self) -> bool {
        self.store.reliable()
    }

    /// Nothing is queued: the walk is over without any store access left.
    pub closed spec fn idle(&self) -> bool {
        &&& self.traversal_queue@.len() == 0
        &&& self.current_node_entries_queue@.len() == 0
    }

    /// The items the walk has yet to yield, in order.
    pub closed spec fn remaining(&self) -> Seq<HierarchyItemModel> {
        self.current_items() + queue_items(self.store.chunks(), self.traversal_queue@, self.args.max_depth)
    }

    /// The store is sound, at most one node's entries are pending, and each
    /// queued subtree is well formed.
    pub closed spec fn inv(&self) -> bool {
        &&& self.store.inv()
        &&& self.current_node_entries_queue@.len() <= 1
        &&& self.current_node_entries_queue@.len() == 1 ==> self.current_node_entries_queue@[0].2
            <= self.current_node_entries_queue@[0].1@.num_entries()
        &&& forall|k: int|
            0 <= k < self.traversal_queue@.len() ==> queued_ok(
                self.store.chunks(),
                #[trigger] self.traversal_queue@[k],
            )
    }

    /// A walk over the whole tree, starting at its root.
    pub fn new_for_hierarchy_scan(tree: &'a ProllyTree<S>, args: HierarchyScanArgs) -> (r: Result<Self>)
        requires
            tree.wf(),
        ensures
            r matches Ok(c) && c.inv() && c.chunks() == tree.store.chunks() && c.max_depth()
                == args.max_depth && c.remaining() == hierarchy_items(
                tree.store.chunks(),
                tree.root_view(),
                args.max_depth,
            ),
            r matches Ok(c) && (tree.root_hash is None ==> c.idle()) && c.reliable() == tree.store.reliable(),
    {
        let mut traversal_queue: VecDeque<(crate::common::Hash, usize, Vec<usize>)> = VecDeque::new();
        if let Some(root_hash) = tree.root_hash {
            traversal_queue.push_back((root_hash, 0, Vec::new()));
        }
        let c = HierarchyCursor {
            store: &tree.store,
            config: tree.config.clone(),
            args,
            traversal_queue,
            current_node_entries_queue: VecDeque::new(),
        };
        proof {
            let chunks = tree.store.chunks();
            let q = c.traversal_queue@;
            assert(c.current_items() =~= Seq::<HierarchyItemModel>::empty());
            let empty_q = Seq::<(crate::common::Hash, usize, Vec<usize>)>::empty();
            if q.len() > 0 {
                assert(q =~= seq![q[0]] + empty_q);
                lemma_queue_items_cons(chunks, q[0], empty_q, args.max_depth);
                assert(queue_items(chunks, empty_q, args.max_depth) =~= Seq::<HierarchyItemModel>::empty());
                assert(q[0].2@ =~= Seq::<usize>::empty());
                assert(queued_ok(chunks, q[0]));
                assert(c.remaining() =~= hierarchy_items(chunks, tree.root_view(), args.max_depth));
            } else {
                assert(c.remaining() =~= hierarchy_items(chunks, tree.root_view(), args.max_depth));
            }
        }
        Ok(c)
    }

    /// The next item of the walk, or `None` when the walk is over.
    #[verifier::rlimit(40)]
    pub fn next_item(&mut self) -> (r: Result<Option<HierarchyItem>>)
        requires
            old(self).inv(),
        ensures
            final(self).inv(),
            final(self).chunks() == old(self).chunks(),
            final(self).max_depth() == old(self).max_depth(),
            r matches Ok(o) ==> match o {
                None => old(self).remaining().len() == 0 && final(self).remaining() == old(
                    self,
                ).remaining(),
                Some(it) => old(self).remaining().len() > 0 && it@ == old(self).remaining()[0]
                    && final(self).remaining() == old(self).remaining().drop_first(),
            },
            old(self).idle() ==> (r matches Ok(None) && final(self).idle()),
            final(self).reliable() == old(self).reliable(),
            old(self).reliable() ==> r is Ok,
    {
        loop
            invariant
                self.inv(),
                old(self).idle() ==> self.idle(),
                self.store == old(self).store,
                self.args == old(self).args,
                self.remaining() == old(self).remaining(),
            decreases self.current_node_entries_queue@.len() + self.traversal_queue@.len(),
        {
            if self.current_node_entries_queue.len() > 0 {
                let idx = self.current_node_entries_queue[0].2;
                if idx < self.current_node_entries_queue[0].1.num_entries() {
                    let item = match entry_item_of(
                        self.store,
                        &self.current_node_entries_queue[0].0,
                        &self.current_node_entries_queue[0].1,
                        idx,
                    ) {
                        Ok(it) => it,
                        Err(e) => return Err(e),
                    };
                    let ghost pre = self.remaining();
                    let ghost cur = self.current_items();
                    let ghost qi = queue_items(self.store.chunks(), self.traversal_queue@, self.args.max_depth);
                    match self.current_node_entries_queue.pop_front() {
                        Some((h, node, i, code)) => {
                            self.current_node_entries_queue.push_back((h, node, i + 1, code));
                        },
                        None => {},
                    }
                    proof {
                        let t = self.current_node_entries_queue@[0];
                        let nc = entry_items(self.store.chunks(), t.0@, t.1@, t.2 as nat);
                        assert(nc =~= cur.drop_first());
                        assert(self.current_items() == nc);
                        assert(pre == cur + qi);
                        assert(self.remaining() =~= pre.drop_first());
                    }
                    return Ok(Some(item));
                } else {
                    let ghost cur = self.current_items();
                    assert(cur =~= Seq::<HierarchyItemModel>::empty());
                    self.current_node_entries_queue.pop_front();
                    assert(self.current_items() =~= Seq::<HierarchyItemModel>::empty());
                    assert(self.remaining() =~= old(self).remaining());
                    continue;
                }
            }
            let ghost chunks = self.store.chunks();
            let ghost md = self.args.max_depth;
            let ghost q0 = self.traversal_queue@;
            assert(self.current_items() =~= Seq::<HierarchyItemModel>::empty());
            let (node_hash, depth, path) = match self.traversal_queue.pop_front() {
                Some(t) => t,
                None => {
                    return Ok(None);
                },
            };
            proof {
                assert(q0 =~= seq![q0[0]] + self.traversal_queue@);
                lemma_queue_items_cons(chunks, q0[0], self.traversal_queue@, md);
                assert(queued_ok(chunks, q0[0]));
                assert forall|k: int| 0 <= k < self.traversal_queue@.len() implies queued_ok(
                    chunks,
                    #[trigger] self.traversal_queue@[k],
                ) by {
                    assert(self.traversal_queue@[k] == q0[k + 1]);
                }
            }
            if let Some(m) = self.args.max_depth {
                if depth > m {
                    assert(self.remaining() =~= old(self).remaining());
                    continue;
                }
            }
            let node = match load_node(self.store, &node_hash) {
                Ok(n) => n,
                Err(e) => return Err(e),
            };
            let ghost rest_q = self.traversal_queue@;
            let is_leaf = match &node {
                Node::Leaf { .. } => true,
                Node::Internal { .. } => false,
            };
            let num_entries = node.num_entries();
            let level = node.level();
            let go_down = match self.args.max_depth {
                Some(m) => depth < m,
                None => true,
            };
            proof {
                lemma_subtree_level(chunks, node_hash@, level as nat);
            }
            if let Node::Internal { children, .. } = &node {
                if go_down {
                    proof {
                        lemma_children_flat_char(chunks, node@->children, (level - 1) as nat);
                    }
                    push_children(&mut self.traversal_queue, self.store, children, level, depth, &path, Ghost(md));
                }
            }
            let ghost new_q = self.traversal_queue@;
            let ghost pth = path@;
            let item = HierarchyItem::Node {
                hash: node_hash,
                level,
                is_leaf,
                num_entries,
                path_indices: path,
            };
            let ghost n = node@;
            if num_entries > 0 {
                let code: usize = if is_leaf {
                    1
                } else {
                    0
                };
                self.current_node_entries_queue.push_back((node_hash, node, 0, code));
            }
            proof {
                lemma_node_step(chunks, node_hash@, n, depth as nat, pth, md, rest_q, new_q);
                if num_entries > 0 {
                    assert(self.current_items() == entry_items(chunks, node_hash@, n, 0));
                } else {
                    assert(self.current_items() =~= entry_items(chunks, node_hash@, n, 0));
                }
                assert(item@ == node_item(node_hash@, n, pth));
                assert(self.remaining() =~= old(self).remaining().drop_first());
            }
            return Ok(Some(item));
        }
    }
}

// ---------------- what a full walk lists ----------------

/// The keys of the leaf-entry items, in order.
pub open spec fn leaf_keys(items: Seq<HierarchyItemModel>) -> Seq<Seq<u8>>
    decreases items.len(),
{
    if items.len() == 0 {
        Seq::empty()
    } else {
        let rest = leaf_keys(items.drop_last());
        match items.last() {
            HierarchyItemModel::LeafEntry { key, .. } => rest.push(key),
            _ => rest,
        }
    }
}

/// The keys of a list of entries.
pub open spec fn keys_of(es: Seq<EntryModel>) -> Seq<Seq<u8>> {
    es.map_values(|e: EntryModel| e.key)
}

proof fn lemma_leaf_keys_add(a: Seq<HierarchyItemModel>, b: Seq<HierarchyItemModel>)
    ensures
        leaf_keys(a + b) == leaf_keys(a) + leaf_keys(b),
    decreases b.len(),
{
    if b.len() == 0 {
        assert(a + b =~= a);
        assert(leaf_keys(a) + leaf_keys(b) =~= leaf_keys(a));
    } else {
        assert((a + b).drop_last() =~= a + b.drop_last());
        assert((a + b).last() == b.last());
        lemma_leaf_keys_add(a, b.drop_last());
        assert(leaf_keys(a) + leaf_keys(b.drop_last()).push(b.last()->LeafEntry_key) =~= (leaf_keys(a)
            + leaf_keys(b.drop_last())).push(b.last()->LeafEntry_key));
    }
}

/// The entry items of a leaf list its keys; those of an internal node none.
proof fn lemma_entry_items_keys(chunks: Map<Seq<u8>, Seq<u8>>, h: Seq<u8>, n: NodeModel, k: nat)
    requires
        k <= n.num_entries(),
    ensures
        leaf_keys(entry_items(chunks, h, n, 0).take(k as int)) == match n {
            NodeModel::Leaf { entries, .. } => keys_of(entries.take(k as int)),
            NodeModel::Internal { .. } => Seq::<Seq<u8>>::empty(),
        },
    decreases k,
{
    let s = entry_items(chunks, h, n, 0);
    if k == 0 {
        assert(s.take(0) =~= Seq::<HierarchyItemModel>::empty());
        match n {
            NodeModel::Leaf { entries, .. } => {
                assert(keys_of(entries.take(0)) =~= Seq::<Seq<u8>>::empty());
            },
            _ => {},
        }
    } else {
        lemma_entry_items_keys(chunks, h, n, (k - 1) as nat);
        assert(s.take(k as int).drop_last() =~= s.take(k - 1));
        assert(s.take(k as int).last() == entry_item(chunks, h, n, (k - 1) as nat));
        match n {
            NodeModel::Leaf { entries, .. } => {
                assert(keys_of(entries.take(k as int)) =~= keys_of(entries.take(k - 1)).push(
                    entries[k - 1].key,
                ));
            },
            _ => {},
        }
    }
}

proof fn lemma_hier_node_keys(
    chunks: Map<Seq<u8>, Seq<u8>>,
    h: Seq<u8>,
    level: nat,
    depth: nat,
    path: Seq<usize>,
)
    requires
        subtree(chunks, h, level) is Some,
    ensures
        leaf_keys(hier_node(chunks, h, level, depth, path, None)) == keys_of(
            subtree(chunks, h, level).unwrap(),
        ),
    decreases level, 0nat, 0nat,
{
    let n = node_at(chunks, h).unwrap();
    let s = entry_items(chunks, h, n, 0);
    lemma_entry_items_keys(chunks, h, n, n.num_entries());
    assert(s.take(n.num_entries() as int) =~= s);
    let head = seq![node_item(h, n, path)];
    assert(leaf_keys(head) =~= Seq::<Seq<u8>>::empty()) by {
        assert(head.drop_last() =~= Seq::<HierarchyItemModel>::empty());
        assert(leaf_keys(head.drop_last()) =~= Seq::<Seq<u8>>::empty());
        assert(head.last() is Node);
    }
    lemma_leaf_keys_add(head, s);
    match n {
        NodeModel::Leaf { entries, .. } => {
            assert(entries.take(entries.len() as int) =~= entries);
            let e = Seq::<HierarchyItemModel>::empty();
            assert(hier_node(chunks, h, level, depth, path, None) == head + s + e);
            lemma_leaf_keys_add(head + s, e);
            assert(leaf_keys(head + s) + leaf_keys(e) =~= leaf_keys(head + s));
            assert(leaf_keys(head) + leaf_keys(s) =~= leaf_keys(s));
        },
        NodeModel::Internal { children, .. } => {
            let lv = (level - 1) as nat;
            lemma_children_flat_char(chunks, children, lv);
            let c = hier_children(chunks, children, 0, lv, depth + 1, path, None);
            lemma_hier_children_keys(chunks, children, 0, lv, depth + 1, path);
            assert(children.subrange(0, children.len() as int) =~= children);
            assert(hier_node(chunks, h, level, depth, path, None) == head + s + c);
            lemma_leaf_keys_add(head + s, c);
            assert(leaf_keys(head) + leaf_keys(s) =~= Seq::<Seq<u8>>::empty());
            assert(Seq::<Seq<u8>>::empty() + leaf_keys(c) =~= leaf_keys(c));
        },
    }
}

proof fn lemma_hier_children_keys(
    chunks: Map<Seq<u8>, Seq<u8>>,
    cs: Seq<ChildModel>,
    from: nat,
    level: nat,
    depth: nat,
    path: Seq<usize>,
)
    requires
        children_ok(chunks, cs, level),
        from <= cs.len(),
    ensures
        leaf_keys(hier_children(chunks, cs, from, level, depth, path, None)) == keys_of(
            flat_concat(chunks, cs.subrange(from as int, cs.len() as int), level),
        ),
    decreases level, 1nat, cs.len() - from,
{
    if from == cs.len() {
        assert(cs.subrange(from as int, cs.len() as int) =~= Seq::<ChildModel>::empty());
        assert(keys_of(Seq::<EntryModel>::empty()) =~= Seq::<Seq<u8>>::empty());
    } else {
        let c = cs[from as int];
        let rest = cs.subrange(from + 1 as int, cs.len() as int);
        assert(cs.subrange(from as int, cs.len() as int) =~= seq![c] + rest);
        lemma_flat_concat_add(chunks, seq![c], rest, level);
        lemma_flat_concat_one(chunks, c, level);
        assert(child_ok(chunks, c, level));
        let hn = hier_node(chunks, c.hash, level, depth, path.push(from as usize), None);
        let hc = hier_children(chunks, cs, from + 1, level, depth, path, None);
        lemma_hier_node_keys(chunks, c.hash, level, depth, path.push(from as usize));
        lemma_hier_children_keys(chunks, cs, from + 1, level, depth, path);
        lemma_leaf_keys_add(hn, hc);
        let a = subtree(chunks, c.hash, level).unwrap();
        let b = flat_concat(chunks, rest, level);
        assert(keys_of(a + b) =~= keys_of(a) + keys_of(b));
    }
}

/// A walk over a well-formed tree without a depth limit lists every key of
/// the tree, in order, as its leaf-entry items.
pub proof fn law_hierarchy_lists_keys(chunks: Map<Seq<u8>, Seq<u8>>, root: Option<Seq<u8>>)
    requires
        tree_entries(chunks, root) is Some,
    ensures
        leaf_keys(hierarchy_items(chunks, root, None)) == keys_of(tree_entries(chunks, root).unwrap()),
{
    match root {
        Some(h) => {
            let n = node_at(chunks, h).unwrap();
            lemma_hier_node_keys(chunks, h, n.level() as nat, 0, Seq::empty());
        },
        None => {
            assert(keys_of(Seq::<EntryModel>::empty()) =~= Seq::<Seq<u8>>::empty());
        },
    }
}

} // verus!

verus! {

// ---------------- what a walk reports ----------------

/// The size a walk reports for a leaf entry is the length of the value the
/// store gives back for it. (A value in several chunks is reported by its
/// recorded total, which the walk does not check: the law covers such a
/// value when that total is its length.)
pub proof fn law_entry_size_is_value_length(
    chunks: Map<Seq<u8>, Seq<u8>>,
    h: Seq<u8>,
    level: u8,
    es: Seq<EntryModel>,
    i: nat,
)
    requires
        i < es.len(),
        super::io::resolve_value(chunks, es[i as int].value) is Some,
        super::io::resolve_value(chunks, es[i as int].value).unwrap().len() <= u64::MAX,
        es[i as int].value matches ValueModel::ChunkedSequence { total_size, .. } ==> total_size
            == super::io::resolve_value(chunks, es[i as int].value).unwrap().len(),
    ensures
        entry_item(chunks, h, NodeModel::Leaf { level, entries: es }, i) matches HierarchyItemModel::LeafEntry {
            value_size,
            ..
        } && value_size == super::io::resolve_value(chunks, es[i as int].value).unwrap().len(),
{
}

/// The node reached from the node under `h` by following the child
/// indices `p`, one level down per index (`None` when `p` leaves the tree).
pub open spec fn node_path(chunks: Map<Seq<u8>, Seq<u8>>, h: Seq<u8>, p: Seq<usize>) -> Option<Seq<u8>>
    decreases p.len(),
{
    match node_at(chunks, h) {
        None => None,
        Some(n) => if p.len() == 0 {
            Some(h)
        } else {
            match n {
                NodeModel::Internal { children, .. } => if p[0] < children.len() {
                    node_path(chunks, children[p[0] as int].hash, p.drop_first())
                } else {
                    None
                },
                NodeModel::Leaf { .. } => None,
            }
        },
    }
}

proof fn lemma_hier_children_contains(
    chunks: Map<Seq<u8>, Seq<u8>>,
    cs: Seq<ChildModel>,
    from: nat,
    c: nat,
    level: nat,
    depth: nat,
    path: Seq<usize>,
    max_depth: Option<usize>,
    x: HierarchyItemModel,
)
    requires
        from <= c < cs.len(),
        hier_node(chunks, cs[c as int].hash, level, depth, path.push(c as usize), max_depth).contains(x),
    ensures
        hier_children(chunks, cs, from, level, depth, path, max_depth).contains(x),
    decreases c - from,
{
    let hn = hier_node(chunks, cs[from as int].hash, level, depth, path.push(from as usize), max_depth);
    let hc = hier_children(chunks, cs, from + 1, level, depth, path, max_depth);
    if from == c {
        let k = choose|k: int| 0 <= k < hn.len() && hn[k] == x;
        assert((hn + hc)[k] == x);
    } else {
        lemma_hier_children_contains(chunks, cs, from + 1, c, level, depth, path, max_depth, x);
        let k = choose|k: int| 0 <= k < hc.len() && hc[k] == x;
        assert((hn + hc)[hn.len() + k] == x);
    }
}

proof fn lemma_hier_node_visits(
    chunks: Map<Seq<u8>, Seq<u8>>,
    h: Seq<u8>,
    level: nat,
    depth: nat,
    path: Seq<usize>,
    max_depth: Option<usize>,
    p: Seq<usize>,
)
    requires
        subtree(chunks, h, level) is Some,
        node_path(chunks, h, p) is Some,
        max_depth matches Some(m) ==> depth + p.len() <= m,
    ensures
        hier_node(chunks, h, level, depth, path, max_depth).contains(
            node_item(node_path(chunks, h, p).unwrap(), node_at(chunks, node_path(chunks, h, p).unwrap()).unwrap(), path + p),
        ),
    decreases p.len(),
{
    let n = node_at(chunks, h).unwrap();
    let all = hier_node(chunks, h, level, depth, path, max_depth);
    if p.len() == 0 {
        assert(path + p =~= path);
        assert(all[0] == node_item(h, n, path));
    } else {
        let children = n->Internal_children;
        let c = p[0];
        let lv = (level - 1) as nat;
        lemma_children_flat_char(chunks, children, lv);
        assert(child_ok(chunks, children[c as int], lv));
        let q = p.drop_first();
        lemma_hier_node_visits(chunks, children[c as int].hash, lv, depth + 1, path.push(c), max_depth, q);
        assert(path.push(c) + q =~= path + p);
        assert((c as nat) as usize == c);
        let target = node_path(chunks, h, p).unwrap();
        let x = node_item(target, node_at(chunks, target).unwrap(), path + p);
        lemma_hier_children_contains(chunks, children, 0, c as nat, lv, depth + 1, path, max_depth, x);
        let head = seq![node_item(h, n, path)] + entry_items(chunks, h, n, 0);
        let tail = hier_children(chunks, children, 0, lv, depth + 1, path, max_depth);
        assert(all == head + tail);
        let k = choose|k: int| 0 <= k < tail.len() && tail[k] == x;
        assert((head + tail)[head.len() + k] == x);
    }
}

/// A walk limited to `max_depth` visits every node of the tree at most
/// that many levels below the root (the root at depth 0): the node
/// reached through the child indices `p` is listed, with `p` as its path.
pub proof fn law_hierarchy_visits_to_depth(
    chunks: Map<Seq<u8>, Seq<u8>>,
    root: Seq<u8>,
    max_depth: Option<usize>,
    p: Seq<usize>,
)
    requires
        tree_entries(chunks, Some(root)) is Some,
        node_path(chunks, root, p) is Some,
        max_depth matches Some(m) ==> p.len() <= m,
    ensures
        hierarchy_items(chunks, Some(root), max_depth).contains(
            node_item(node_path(chunks, root, p).unwrap(), node_at(chunks, node_path(chunks, root, p).unwrap()).unwrap(), p),
        ),
{
    let n = node_at(chunks, root).unwrap();
    lemma_hier_node_visits(chunks, root, n.level() as nat, 0, Seq::empty(), max_depth, p);
    assert(Seq::<usize>::empty() + p =~= p);
}

} // verus!

verus! {

/// An item of the walks of the children `cs[from..]` comes from the walk
/// of one of them.
proof fn lemma_hier_children_locate(
    chunks: Map<Seq<u8>, Seq<u8>>,
    cs: Seq<ChildModel>,
    from: nat,
    level: nat,
    depth: nat,
    path: Seq<usize>,
    max_depth: Option<usize>,
    x: HierarchyItemModel,
)
    requires
        hier_children(chunks, cs, from, level, depth, path, max_depth).contains(x),
    ensures
        exists|c: nat|
            from <= c < cs.len() && #[trigger] hier_node(chunks, cs[c as int].hash, level, depth, path.push(c as usize), max_depth).contains(x),
    decreases cs.len() - from,
{
    let hn = hier_node(chunks, cs[from as int].hash, level, depth, path.push(from as usize), max_depth);
    let hc = hier_children(chunks, cs, from + 1, level, depth, path, max_depth);
    let k = choose|k: int| 0 <= k < (hn + hc).len() && (hn + hc)[k] == x;
    if k < hn.len() {
        assert(hn[k] == x);
        assert(hn.contains(x));
    } else {
        assert(hc[k - hn.len()] == x);
        lemma_hier_children_locate(chunks, cs, from + 1, level, depth, path, max_depth, x);
    }
}

proof fn lemma_hier_node_depth(
    chunks: Map<Seq<u8>, Seq<u8>>,
    h: Seq<u8>,
    level: nat,
    depth: nat,
    path: Seq<usize>,
    max_depth: Option<usize>,
    x: HierarchyItemModel,
)
    requires
        hier_node(chunks, h, level, depth, path, max_depth).contains(x),
    ensures
        x matches HierarchyItemModel::Node { path_indices, .. } ==> path_indices.len() >= path.len() && (
        max_depth matches Some(m) ==> depth + path_indices.len() - path.len() <= m),
    decreases level,
{
    let n = node_at(chunks, h).unwrap();
    let head = seq![node_item(h, n, path)];
    let es = entry_items(chunks, h, n, 0);
    let all = hier_node(chunks, h, level, depth, path, max_depth);
    let k = choose|k: int| 0 <= k < all.len() && all[k] == x;
    if k == 0 {
    } else if k < 1 + es.len() {
        assert(all[k] == es[k - 1]);
    } else {
        let children = n->Internal_children;
        let tail = hier_children(chunks, children, 0, (level - 1) as nat, depth + 1, path, max_depth);
        assert(all == head + es + tail);
        assert(tail[k - 1 - es.len()] == x);
        assert(tail.contains(x));
        lemma_hier_children_locate(chunks, children, 0, (level - 1) as nat, depth + 1, path, max_depth, x);
        let c = choose|c: nat|
            0 <= c < children.len() && #[trigger] hier_node(chunks, children[c as int].hash, (level - 1) as nat, depth + 1, path.push(c as usize), max_depth).contains(x);
        lemma_hier_node_depth(chunks, children[c as int].hash, (level - 1) as nat, depth + 1, path.push(c as usize), max_depth, x);
    }
}

/// A walk limited to `max_depth` lists no node deeper than that: every
/// node item's path from the root has at most `max_depth` indices.
pub proof fn law_hierarchy_depth_limit(
    chunks: Map<Seq<u8>, Seq<u8>>,
    root: Option<Seq<u8>>,
    m: usize,
    x: HierarchyItemModel,
)
    requires
        hierarchy_items(chunks, root, Some(m)).contains(x),
    ensures
        x matches HierarchyItemModel::Node { path_indices, .. } ==> path_indices.len() <= m,
{
    let h = root.unwrap();
    let n = node_at(chunks, h).unwrap();
    lemma_hier_node_depth(chunks, h, n.level() as nat, 0, Seq::empty(), Some(m), x);
}

} // verus!
