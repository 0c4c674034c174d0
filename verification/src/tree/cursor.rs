//! Cursors: a path of nodes from the root to a leaf and a position in
//! that leaf, walking the tree's entries forward or backward.
use vstd::prelude::*;
use crate::error::{ProllyError, Result};
use crate::node::definition::{children_view, ChildModel, EntryModel, Node, NodeModel};
use crate::store::ChunkStore;
use super::io::load_node;
use crate::common::{Key, TreeConfig};
use crate::keys::{compare_keys, lex_lt, KeyOrder};
use crate::node::definition::{entries_view, ValueRepr};
use crate::common::Value;
use crate::codec::copy_range;
use super::io::{load_value_repr, resolve_value};
use super::prolly_tree::ProllyTree;
use super::search::search_entries;
use super::types::ScanArgs;
use super::view::values_resolve;
use super::model::{
    child_ok, children_ok, flat_concat, lemma_children_flat_char, lemma_children_split,
    lemma_flat_concat_add, lemma_subtree_level, lemma_subtree_node_content, node_at,
    sorted_entries, subtree, is_lower_bound,
};

verus! {

/// A step of a path: a node's hash, the node, and its index in its parent.
pub type FrameModel = (Seq<u8>, NodeModel, usize);

pub open spec fn node_children(n: NodeModel) -> Seq<ChildModel> {
    match n {
        NodeModel::Internal { children, .. } => children,
        _ => Seq::empty(),
    }
}

/// The entries below a step of a path.
pub open spec fn frame_sub(chunks: Map<Seq<u8>, Seq<u8>>, f: FrameModel) -> Seq<EntryModel> {
    subtree(chunks, f.0, f.1.level() as nat).unwrap()
}

/// `child` is the child of `parent` at the index it records.
pub open spec fn link_ok(parent: FrameModel, child: FrameModel) -> bool {
    &&& parent.1 is Internal
    &&& child.2 < node_children(parent.1).len()
    &&& node_children(parent.1)[child.2 as int].hash == child.0
    &&& child.1.level() + 1 == parent.1.level()
}

/// Each step is a stored, well-formed subtree, and each is the child of
/// the one before at the index it records.
pub open spec fn frames_ok(chunks: Map<Seq<u8>, Seq<u8>>, p: Seq<FrameModel>) -> bool {
    &&& forall|j: int|
        0 <= j < p.len() ==> node_at(chunks, (#[trigger] p[j]).0) == Some(p[j].1) && subtree(
            chunks,
            p[j].0,
            p[j].1.level() as nat,
        ) is Some
    &&& forall|j: int| 0 < j < p.len() ==> link_ok(p[j - 1], #[trigger] p[j])
}

/// Where the entries below step `j` begin among the entries below step 0.
pub open spec fn frame_offset(chunks: Map<Seq<u8>, Seq<u8>>, p: Seq<FrameModel>, j: int) -> int
    decreases j,
{
    if j <= 0 {
        0
    } else {
        frame_offset(chunks, p, j - 1) + flat_concat(
            chunks,
            node_children(p[j - 1].1).take(p[j].2 as int),
            (p[j - 1].1.level() - 1) as nat,
        ).len()
    }
}

/// Where the entries below step `j` end among the entries below step 0.
pub open spec fn frame_end(chunks: Map<Seq<u8>, Seq<u8>>, p: Seq<FrameModel>, j: int) -> int {
    frame_offset(chunks, p, j) + frame_sub(chunks, p[j]).len()
}

/// The entries below a parent step, split around its child at `i`.
proof fn lemma_parent_split(chunks: Map<Seq<u8>, Seq<u8>>, parent: FrameModel, child: FrameModel)
    requires
        node_at(chunks, parent.0) == Some(parent.1),
        subtree(chunks, parent.0, parent.1.level() as nat) is Some,
        link_ok(parent, child),
    ensures
        ({
            let cs = node_children(parent.1);
            let lc = (parent.1.level() - 1) as nat;
            let i = child.2 as int;
            &&& children_ok(chunks, cs, lc)
            &&& sorted_entries(flat_concat(chunks, cs, lc))
            &&& frame_sub(chunks, parent) == flat_concat(chunks, cs, lc)
            &&& frame_sub(chunks, parent) == flat_concat(chunks, cs.take(i), lc) + subtree(
                chunks,
                child.0,
                lc,
            ).unwrap() + flat_concat(chunks, cs.skip(i + 1), lc)
            &&& subtree(chunks, child.0, lc) is Some
        }),
{
    let cs = node_children(parent.1);
    let lc = (parent.1.level() - 1) as nat;
    lemma_subtree_node_content(chunks, parent.0, parent.1.level() as nat);
    lemma_children_flat_char(chunks, cs, lc);
    lemma_children_split(chunks, cs, lc, child.2 as int);
    assert(child_ok(chunks, cs[child.2 as int], lc));
}

/// The entries below each step are a slice of the entries below step 0.
pub proof fn lemma_frame_slice(chunks: Map<Seq<u8>, Seq<u8>>, p: Seq<FrameModel>, j: int)
    requires
        frames_ok(chunks, p),
        0 <= j < p.len(),
    ensures
        0 <= frame_offset(chunks, p, j),
        frame_end(chunks, p, j) <= frame_sub(chunks, p[0]).len(),
        frame_sub(chunks, p[j]) == frame_sub(chunks, p[0]).subrange(frame_offset(chunks, p, j), frame_end(chunks, p, j)),
    decreases j,
{
    if j == 0 {
        assert(frame_sub(chunks, p[0]).subrange(0, frame_sub(chunks, p[0]).len() as int) =~= frame_sub(chunks, p[0]));
    } else {
        lemma_frame_slice(chunks, p, j - 1);
        assert(link_ok(p[j - 1], p[j]));
        assert(node_at(chunks, p[j - 1].0) == Some(p[j - 1].1));
        lemma_parent_split(chunks, p[j - 1], p[j]);
        let cs = node_children(p[j - 1].1);
        let lc = (p[j - 1].1.level() - 1) as nat;
        let pre = flat_concat(chunks, cs.take(p[j].2 as int), lc);
        let x = subtree(chunks, p[j].0, lc).unwrap();
        let suf = flat_concat(chunks, cs.skip(p[j].2 + 1), lc);
        assert(frame_sub(chunks, p[j]) == x);
        let s0 = frame_sub(chunks, p[0]);
        let a = frame_offset(chunks, p, j - 1);
        assert(frame_sub(chunks, p[j - 1]) == s0.subrange(a, a + (pre + x + suf).len()));
        assert(x =~= (pre + x + suf).subrange(pre.len() as int, (pre.len() + x.len()) as int));
        assert(s0.subrange(a + pre.len(), a + pre.len() + x.len()) =~= (pre + x + suf).subrange(
            pre.len() as int,
            (pre.len() + x.len()) as int,
        ));
    }
}

/// Offsets depend only on the steps up to the one asked about.
pub proof fn lemma_offset_prefix(chunks: Map<Seq<u8>, Seq<u8>>, p: Seq<FrameModel>, q: Seq<FrameModel>, j: int)
    requires
        0 <= j < p.len(),
        j < q.len(),
        forall|k: int| 0 <= k <= j ==> p[k] == q[k],
    ensures
        frame_offset(chunks, p, j) == frame_offset(chunks, q, j),
    decreases j,
{
    if j > 0 {
        lemma_offset_prefix(chunks, p, q, j - 1);
    }
}

/// A last child ends where its parent ends.
pub proof fn lemma_last_child_end(chunks: Map<Seq<u8>, Seq<u8>>, p: Seq<FrameModel>, j: int)
    requires
        frames_ok(chunks, p),
        0 < j < p.len(),
        p[j].2 + 1 == node_children(p[j - 1].1).len(),
    ensures
        frame_end(chunks, p, j) == frame_end(chunks, p, j - 1),
{
    assert(link_ok(p[j - 1], p[j]));
    assert(node_at(chunks, p[j - 1].0) == Some(p[j - 1].1));
    lemma_parent_split(chunks, p[j - 1], p[j]);
    let cs = node_children(p[j - 1].1);
    assert(cs.skip(p[j].2 + 1) =~= Seq::<ChildModel>::empty());
    assert(flat_concat(chunks, Seq::<ChildModel>::empty(), (p[j - 1].1.level() - 1) as nat) =~= Seq::<EntryModel>::empty());
}

/// A first child begins where its parent begins.
pub proof fn lemma_first_child_offset(chunks: Map<Seq<u8>, Seq<u8>>, p: Seq<FrameModel>, j: int)
    requires
        0 < j < p.len(),
        p[j].2 == 0,
    ensures
        frame_offset(chunks, p, j) == frame_offset(chunks, p, j - 1),
{
    assert(node_children(p[j - 1].1).take(0) =~= Seq::<ChildModel>::empty());
}

/// The next sibling of step `j` begins where step `j` ends.
pub proof fn lemma_next_sibling_offset(chunks: Map<Seq<u8>, Seq<u8>>, p: Seq<FrameModel>, j: int, f: FrameModel)
    requires
        frames_ok(chunks, p),
        0 < j < p.len(),
        f.2 == p[j].2 + 1,
        link_ok(p[j - 1], f),
    ensures
        frame_offset(chunks, p.take(j).push(f), j) == frame_end(chunks, p, j),
{
    let q = p.take(j).push(f);
    lemma_offset_prefix(chunks, p, q, j - 1);
    assert(link_ok(p[j - 1], p[j]));
    assert(node_at(chunks, p[j - 1].0) == Some(p[j - 1].1));
    lemma_parent_split(chunks, p[j - 1], p[j]);
    let cs = node_children(p[j - 1].1);
    let lc = (p[j - 1].1.level() - 1) as nat;
    let i = p[j].2 as int;
    assert(cs.take(i + 1) =~= cs.take(i) + seq![cs[i]]);
    lemma_flat_concat_add(chunks, cs.take(i), seq![cs[i]], lc);
    crate::tree::model::lemma_flat_concat_one(chunks, cs[i], lc);
    assert(q[j - 1] == p[j - 1]);
    assert(q[j] == f);
}

/// The previous sibling of step `j` ends where step `j` begins.
pub proof fn lemma_prev_sibling_end(chunks: Map<Seq<u8>, Seq<u8>>, p: Seq<FrameModel>, j: int, f: FrameModel)
    requires
        frames_ok(chunks, p),
        0 < j < p.len(),
        f.2 + 1 == p[j].2,
        link_ok(p[j - 1], f),
        node_at(chunks, f.0) == Some(f.1),
    ensures
        frame_offset(chunks, p.take(j).push(f), j) + frame_sub(chunks, f).len() == frame_offset(chunks, p, j),
{
    let q = p.take(j).push(f);
    lemma_offset_prefix(chunks, p, q, j - 1);
    assert(link_ok(p[j - 1], p[j]));
    assert(node_at(chunks, p[j - 1].0) == Some(p[j - 1].1));
    lemma_parent_split(chunks, p[j - 1], f);
    let cs = node_children(p[j - 1].1);
    let lc = (p[j - 1].1.level() - 1) as nat;
    let i = f.2 as int;
    assert(cs.take(i + 1) =~= cs.take(i) + seq![cs[i]]);
    lemma_flat_concat_add(chunks, cs.take(i), seq![cs[i]], lc);
    crate::tree::model::lemma_flat_concat_one(chunks, cs[i], lc);
    assert(q[j - 1] == p[j - 1]);
    assert(q[j] == f);
    assert(frame_sub(chunks, f) == subtree(chunks, f.0, lc).unwrap());
}

} // verus!

verus! {

/// A path of exec steps, as models.
pub open spec fn path_view(p: Seq<(crate::common::Hash, Node, usize)>) -> Seq<FrameModel> {
    p.map_values(|f: (crate::common::Hash, Node, usize)| (f.0@, f.1@, f.2))
}

/// The path's last step is a leaf.
pub open spec fn ends_in_leaf(p: Seq<FrameModel>) -> bool {
    p.len() > 0 && p.last().1 is Leaf
}

proof fn lemma_path_view_push(p: Seq<(crate::common::Hash, Node, usize)>, f: (crate::common::Hash, Node, usize))
    ensures
        path_view(p.push(f)) == path_view(p).push((f.0@, f.1@, f.2)),
{
    assert(path_view(p.push(f)) =~= path_view(p).push((f.0@, f.1@, f.2)));
}

/// A stored node that is a well-formed subtree at its own level: the step
/// about to be pushed.
pub open spec fn pending_ok(
    chunks: Map<Seq<u8>, Seq<u8>>,
    pv: Seq<FrameModel>,
    h: Seq<u8>,
    idx: usize,
) -> bool {
    &&& node_at(chunks, h) is Some
    &&& frames_ok(chunks, pv.push((h, node_at(chunks, h).unwrap(), idx)))
}

/// A frame list stays well formed when a child of its last step is added.
proof fn lemma_push_child(chunks: Map<Seq<u8>, Seq<u8>>, pv: Seq<FrameModel>, i: usize)
    requires
        frames_ok(chunks, pv),
        pv.len() > 0,
        pv.last().1 is Internal,
        i < node_children(pv.last().1).len(),
    ensures
        ({
            let h = node_children(pv.last().1)[i as int].hash;
            &&& pending_ok(chunks, pv, h, i)
            &&& node_at(chunks, h).unwrap().level() + 1 == pv.last().1.level()
        }),
{
    let parent = pv.last();
    let cs = node_children(parent.1);
    let lc = (parent.1.level() - 1) as nat;
    assert(node_at(chunks, pv[pv.len() - 1].0) == Some(parent.1));
    lemma_subtree_node_content(chunks, parent.0, parent.1.level() as nat);
    lemma_children_flat_char(chunks, cs, lc);
    assert(child_ok(chunks, cs[i as int], lc));
    lemma_subtree_level(chunks, cs[i as int].hash, lc);
    let f = (cs[i as int].hash, node_at(chunks, cs[i as int].hash).unwrap(), i);
    let q = pv.push(f);
    assert forall|j: int| 0 <= j < q.len() implies node_at(chunks, (#[trigger] q[j]).0) == Some(q[j].1) && subtree(
        chunks,
        q[j].0,
        q[j].1.level() as nat,
    ) is Some by {
        if j < pv.len() {
            assert(q[j] == pv[j]);
        }
    }
    assert forall|j: int| 0 < j < q.len() implies link_ok(q[j - 1], #[trigger] q[j]) by {
        if j < pv.len() {
            assert(q[j] == pv[j] && q[j - 1] == pv[j - 1]);
        } else {
            assert(q[j - 1] == parent);
        }
    }
}

/// Going down to child `i` of the pending step keeps the descent's facts.
proof fn lemma_descend_step(chunks: Map<Seq<u8>, Seq<u8>>, pv: Seq<FrameModel>, f: FrameModel, p0: Seq<FrameModel>, i: usize)
    requires
        frames_ok(chunks, pv.push(f)),
        pv.len() + 1 >= p0.len(),
        pv.push(f).take(p0.len() as int) == p0,
        f.1 is Internal,
        i < node_children(f.1).len(),
    ensures
        ({
            let pv1 = pv.push(f);
            let h = node_children(f.1)[i as int].hash;
            let g = (h, node_at(chunks, h).unwrap(), i);
            &&& pending_ok(chunks, pv1, h, i)
            &&& node_at(chunks, h).unwrap().level() < f.1.level()
            &&& pv1.len() + 1 >= p0.len()
            &&& pv1.push(g).take(p0.len() as int) == p0
            &&& (i == 0 ==> frame_offset(chunks, pv1.push(g), pv1.len() as int) == frame_offset(chunks, pv1, pv.len() as int))
            &&& (i + 1 == node_children(f.1).len() ==> frame_end(chunks, pv1.push(g), pv1.len() as int) == frame_end(
                chunks,
                pv1,
                pv.len() as int,
            ))
        }),
{
    let pv1 = pv.push(f);
    assert(pv1.last() == f);
    lemma_push_child(chunks, pv1, i);
    let h = node_children(f.1)[i as int].hash;
    let g = (h, node_at(chunks, h).unwrap(), i);
    assert(pv1.push(g).take(p0.len() as int) =~= pv1.take(p0.len() as int));
    lemma_offset_prefix(chunks, pv1.push(g), pv1, pv.len() as int);
    assert(pv1.push(g)[pv.len() as int] == pv1[pv.len() as int]);
    if i == 0 {
        lemma_first_child_offset(chunks, pv1.push(g), pv1.len() as int);
    }
    if i + 1 == node_children(f.1).len() {
        assert(frames_ok(chunks, pv1.push(g)));
        lemma_last_child_end(chunks, pv1.push(g), pv1.len() as int);
    }
}

/// Pushes steps from `hash` down to its leftmost leaf. The leaf begins
/// where `hash`'s entries begin.
pub fn descend_leftmost<S: ChunkStore>(
    store: &S,
    path: &mut Vec<(crate::common::Hash, Node, usize)>,
    hash: crate::common::Hash,
    idx_in_parent: usize,
) -> (r: Result<()>)
    requires
        store.inv(),
        pending_ok(store.chunks(), path_view(old(path)@), hash@, idx_in_parent),
    ensures
        r is Ok ==> {
            let p0 = path_view(old(path)@).push((hash@, node_at(store.chunks(), hash@).unwrap(), idx_in_parent));
            let p = path_view(final(path)@);
            &&& frames_ok(store.chunks(), p)
            &&& ends_in_leaf(p)
            &&& p.len() >= p0.len()
            &&& p.take(p0.len() as int) == p0
            &&& frame_offset(store.chunks(), p, p.len() - 1) == frame_offset(store.chunks(), p0, p0.len() - 1)
        },
        store.reliable() ==> r is Ok,
{
    let ghost chunks = store.chunks();
    let ghost p0 = path_view(path@).push((hash@, node_at(chunks, hash@).unwrap(), idx_in_parent));
    let mut current_hash = hash;
    let mut current_idx = idx_in_parent;
    proof {
        assert(p0.take(p0.len() as int) =~= p0);
    }
    loop
        invariant
            store.inv(),
            chunks == store.chunks(),
            p0 == path_view(old(path)@).push((hash@, node_at(chunks, hash@).unwrap(), idx_in_parent)),
            pending_ok(chunks, path_view(path@), current_hash@, current_idx),
            path_view(path@).len() + 1 >= p0.len(),
            path_view(path@).push((current_hash@, node_at(chunks, current_hash@).unwrap(), current_idx)).take(
                p0.len() as int,
            ) == p0,
            frame_offset(
                chunks,
                path_view(path@).push((current_hash@, node_at(chunks, current_hash@).unwrap(), current_idx)),
                path_view(path@).len() as int,
            ) == frame_offset(chunks, p0, p0.len() - 1),
        decreases node_at(chunks, current_hash@).unwrap().level(),
    {
        let ghost pv = path_view(path@);
        let ghost f = (current_hash@, node_at(chunks, current_hash@).unwrap(), current_idx);
        let ghost old_path = path@;
        let current_node = match load_node(store, &current_hash) {
            Ok(n) => n,
            Err(e) => return Err(e),
        };
        proof {
            assert(pv.push(f)[pv.len() as int] == f);
            lemma_subtree_node_content(chunks, current_hash@, f.1.level() as nat);
        }
        let first_child = match &current_node {
            Node::Leaf { .. } => None,
            Node::Internal { children, .. } => {
                if children.len() == 0 {
                    return Err(ProllyError::InternalError("Empty internal node found during cursor init".to_string()));
                }
                Some(children[0].child_hash)
            },
        };
        path.push((current_hash, current_node, current_idx));
        proof {
            lemma_path_view_push(old_path, (current_hash, current_node, current_idx));
        }
        let child_hash = match first_child {
            None => {
                proof {
                    assert(path_view(path@) == pv.push(f));
                    assert(pv.push(f).take(p0.len() as int) == p0);
                }
                return Ok(());
            },
            Some(h) => h,
        };
        proof {
            lemma_descend_step(chunks, pv, f, p0, 0);
        }
        current_hash = child_hash;
        current_idx = 0;
    }
}

/// Pushes steps from `hash` down to its rightmost leaf. The leaf ends
/// where `hash`'s entries end.
pub fn descend_rightmost<S: ChunkStore>(
    store: &S,
    path: &mut Vec<(crate::common::Hash, Node, usize)>,
    hash: crate::common::Hash,
    idx_in_parent: usize,
) -> (r: Result<()>)
    requires
        store.inv(),
        pending_ok(store.chunks(), path_view(old(path)@), hash@, idx_in_parent),
    ensures
        r is Ok ==> {
            let p0 = path_view(old(path)@).push((hash@, node_at(store.chunks(), hash@).unwrap(), idx_in_parent));
            let p = path_view(final(path)@);
            &&& frames_ok(store.chunks(), p)
            &&& ends_in_leaf(p)
            &&& p.len() >= p0.len()
            &&& p.take(p0.len() as int) == p0
            &&& frame_end(store.chunks(), p, p.len() - 1) == frame_end(store.chunks(), p0, p0.len() - 1)
        },
        store.reliable() ==> r is Ok,
{
    let ghost chunks = store.chunks();
    let ghost p0 = path_view(path@).push((hash@, node_at(chunks, hash@).unwrap(), idx_in_parent));
    let mut current_hash = hash;
    let mut current_idx = idx_in_parent;
    proof {
        assert(p0.take(p0.len() as int) =~= p0);
    }
    loop
        invariant
            store.inv(),
            chunks == store.chunks(),
            p0 == path_view(old(path)@).push((hash@, node_at(chunks, hash@).unwrap(), idx_in_parent)),
            pending_ok(chunks, path_view(path@), current_hash@, current_idx),
            path_view(path@).len() + 1 >= p0.len(),
            path_view(path@).push((current_hash@, node_at(chunks, current_hash@).unwrap(), current_idx)).take(
                p0.len() as int,
            ) == p0,
            frame_end(
                chunks,
                path_view(path@).push((current_hash@, node_at(chunks, current_hash@).unwrap(), current_idx)),
                path_view(path@).len() as int,
            ) == frame_end(chunks, p0, p0.len() - 1),
        decreases node_at(chunks, current_hash@).unwrap().level(),
    {
        let ghost pv = path_view(path@);
        let ghost f = (current_hash@, node_at(chunks, current_hash@).unwrap(), current_idx);
        let ghost old_path = path@;
        let current_node = match load_node(store, &current_hash) {
            Ok(n) => n,
            Err(e) => return Err(e),
        };
        proof {
            assert(pv.push(f)[pv.len() as int] == f);
            lemma_subtree_node_content(chunks, current_hash@, f.1.level() as nat);
        }
        let last_child = match &current_node {
            Node::Leaf { .. } => None,
            Node::Internal { children, .. } => {
                if children.len() == 0 {
                    return Err(ProllyError::InternalError("Empty internal node during prev_leaf advance".to_string()));
                }
                Some((children[children.len() - 1].child_hash, children.len() - 1))
            },
        };
        path.push((current_hash, current_node, current_idx));
        proof {
            lemma_path_view_push(old_path, (current_hash, current_node, current_idx));
        }
        let (child_hash, child_idx) = match last_child {
            None => {
                proof {
                    assert(path_view(path@) == pv.push(f));
                    assert(pv.push(f).take(p0.len() as int) == p0);
                }
                return Ok(());
            },
            Some(x) => x,
        };
        proof {
            lemma_descend_step(chunks, pv, f, p0, child_idx);
        }
        current_hash = child_hash;
        current_idx = child_idx;
    }
}

// ---------------- routing a key down the tree ----------------

/// Child `i` is where a search for `key` goes: every boundary before it is
/// below `key`, and it is the last child or its boundary is not below `key`.
pub open spec fn is_route(cs: Seq<ChildModel>, key: Seq<u8>, i: int) -> bool {
    &&& 0 <= i < cs.len()
    &&& forall|j: int| 0 <= j < i ==> crate::keys::lex_lt(#[trigger] cs[j].boundary, key)
    &&& i + 1 < cs.len() ==> !crate::keys::lex_lt(cs[i].boundary, key)
}

pub proof fn lemma_route_unique(cs: Seq<ChildModel>, key: Seq<u8>, i: int, j: int)
    requires
        is_route(cs, key, i),
        is_route(cs, key, j),
    ensures
        i == j,
{
    if i < j {
        assert(crate::keys::lex_lt(cs[i].boundary, key));
    } else if j < i {
        assert(crate::keys::lex_lt(cs[j].boundary, key));
    }
}

/// Where, among the entries below `h`, the leaf that a search for `key`
/// reaches begins.
pub open spec fn route_leaf_start(chunks: Map<Seq<u8>, Seq<u8>>, h: Seq<u8>, level: nat, key: Seq<u8>) -> int
    decreases level,
{
    match node_at(chunks, h) {
        Some(NodeModel::Internal { children, .. }) => if level > 0 && children.len() > 0 {
            let i = choose|i: int| is_route(children, key, i);
            flat_concat(chunks, children.take(i), (level - 1) as nat).len() + route_leaf_start(
                chunks,
                children[i].hash,
                (level - 1) as nat,
                key,
            )
        } else {
            0
        },
        _ => 0,
    }
}

/// Every entry before position `lo` is below `key`, every one from `hi` on above it.
pub open spec fn brackets(es: Seq<EntryModel>, lo: int, hi: int, key: Seq<u8>) -> bool {
    &&& forall|t: int| 0 <= t < lo && t < es.len() ==> crate::keys::lex_lt(#[trigger] es[t].key, key)
    &&& forall|t: int| hi <= t < es.len() && 0 <= t ==> crate::keys::lex_lt(key, #[trigger] es[t].key)
}

/// Going down to the routed child keeps the brackets around `key` and the
/// start of the leaf the route reaches.
proof fn lemma_key_step(chunks: Map<Seq<u8>, Seq<u8>>, pv: Seq<FrameModel>, f: FrameModel, key: Seq<u8>, i: usize)
    requires
        frames_ok(chunks, pv.push(f)),
        f.1 is Internal,
        is_route(node_children(f.1), key, i as int),
        brackets(
            frame_sub(chunks, pv.push(f)[0]),
            frame_offset(chunks, pv.push(f), pv.len() as int),
            frame_end(chunks, pv.push(f), pv.len() as int),
            key,
        ),
    ensures
        ({
            let pv1 = pv.push(f);
            let h = node_children(f.1)[i as int].hash;
            let q = pv1.push((h, node_at(chunks, h).unwrap(), i));
            &&& q[0] == pv1[0]
            &&& brackets(frame_sub(chunks, q[0]), frame_offset(chunks, q, pv1.len() as int), frame_end(chunks, q, pv1.len() as int), key)
            &&& frame_offset(chunks, q, pv1.len() as int) + route_leaf_start(chunks, h, node_at(chunks, h).unwrap().level() as nat, key)
                == frame_offset(chunks, pv1, pv.len() as int) + route_leaf_start(chunks, f.0, f.1.level() as nat, key)
        }),
{
    let pv1 = pv.push(f);
    let cs = node_children(f.1);
    let lc = (f.1.level() - 1) as nat;
    let h = cs[i as int].hash;
    let g = (h, node_at(chunks, h).unwrap(), i);
    let q = pv1.push(g);
    assert(pv1.last() == f);
    lemma_push_child(chunks, pv1, i);
    assert(q[pv1.len() - 1] == f);
    assert(q[pv1.len() as int] == g);
    assert(q[0] == pv1[0]);
    assert(node_at(chunks, pv1[pv.len() as int].0) == Some(f.1));
    assert(link_ok(f, g));
    lemma_parent_split(chunks, f, g);
    lemma_offset_prefix(chunks, q, pv1, pv.len() as int);
    let a = frame_offset(chunks, pv1, pv.len() as int);
    let pre = flat_concat(chunks, cs.take(i as int), lc);
    let x = subtree(chunks, h, lc).unwrap();
    let suf = flat_concat(chunks, cs.skip(i + 1), lc);
    let s0 = frame_sub(chunks, q[0]);
    assert(frame_offset(chunks, q, pv1.len() as int) == a + pre.len());
    assert(frame_sub(chunks, g) == x);
    lemma_frame_slice(chunks, pv1, pv.len() as int);
    assert(frame_sub(chunks, pv1[pv.len() as int]) == frame_sub(chunks, f));
    if i > 0 {
        assert(crate::keys::lex_lt(cs[i - 1].boundary, key));
    }
    if i + 1 < cs.len() {
        crate::keys::lemma_lex_trichotomy(cs[i as int].boundary, key);
    }
    super::model::lemma_route(chunks, cs, lc, i as int, key);
    let fs = frame_sub(chunks, f);
    assert forall|t: int| 0 <= t < a + pre.len() && t < s0.len() implies crate::keys::lex_lt(#[trigger] s0[t].key, key) by {
        if t >= a {
            assert(s0[t] == fs[t - a]);
            assert(fs[t - a] == pre[t - a]);
        }
    }
    assert forall|t: int| a + pre.len() + x.len() <= t < s0.len() && 0 <= t implies crate::keys::lex_lt(key, #[trigger] s0[t].key) by {
        if t < a + fs.len() {
            assert(s0[t] == fs[t - a]);
            assert(fs[t - a] == suf[t - a - pre.len() - x.len()]);
        }
    }
    let j = choose|j: int| is_route(cs, key, j);
    lemma_route_unique(cs, key, i as int, j);
    crate::tree::model::lemma_subtree_level(chunks, h, lc);
}

/// Pushes steps from the root `hash` down to the leaf that a search for
/// `key` reaches: at each internal node the first child whose boundary is
/// not below `key`, else the last child (found by binary search when
/// `binary`, else by a scan from the left).
pub fn descend_by_key<S: ChunkStore>(
    store: &S,
    path: &mut Vec<(crate::common::Hash, Node, usize)>,
    hash: crate::common::Hash,
    key: &[u8],
    binary: bool,
) -> (r: Result<()>)
    requires
        store.inv(),
        old(path)@.len() == 0,
        pending_ok(store.chunks(), Seq::empty(), hash@, usize::MAX),
    ensures
        r is Ok ==> {
            let root = (hash@, node_at(store.chunks(), hash@).unwrap(), usize::MAX);
            let p = path_view(final(path)@);
            let s0 = frame_sub(store.chunks(), root);
            &&& frames_ok(store.chunks(), p)
            &&& ends_in_leaf(p)
            &&& p[0] == root
            &&& brackets(s0, frame_offset(store.chunks(), p, p.len() - 1), frame_end(store.chunks(), p, p.len() - 1), key@)
            &&& frame_offset(store.chunks(), p, p.len() - 1) == route_leaf_start(
                store.chunks(),
                hash@,
                root.1.level() as nat,
                key@,
            )
        },
        store.reliable() ==> r is Ok,
{
    let ghost chunks = store.chunks();
    let ghost root = (hash@, node_at(chunks, hash@).unwrap(), usize::MAX);
    let ghost s0 = frame_sub(chunks, root);
    let mut current_hash = hash;
    let mut current_idx = usize::MAX;
    proof {
        assert(path_view(path@) =~= Seq::<FrameModel>::empty());
        assert(Seq::<FrameModel>::empty().push(root)[0] == root);
    }
    loop
        invariant
            store.inv(),
            chunks == store.chunks(),
            root == (hash@, node_at(chunks, hash@).unwrap(), usize::MAX),
            s0 == frame_sub(chunks, root),
            pending_ok(chunks, path_view(path@), current_hash@, current_idx),
            path_view(path@).push((current_hash@, node_at(chunks, current_hash@).unwrap(), current_idx))[0] == root,
            brackets(
                s0,
                frame_offset(
                    chunks,
                    path_view(path@).push((current_hash@, node_at(chunks, current_hash@).unwrap(), current_idx)),
                    path_view(path@).len() as int,
                ),
                frame_end(
                    chunks,
                    path_view(path@).push((current_hash@, node_at(chunks, current_hash@).unwrap(), current_idx)),
                    path_view(path@).len() as int,
                ),
                key@,
            ),
            frame_offset(
                chunks,
                path_view(path@).push((current_hash@, node_at(chunks, current_hash@).unwrap(), current_idx)),
                path_view(path@).len() as int,
            ) + route_leaf_start(
                chunks,
                current_hash@,
                node_at(chunks, current_hash@).unwrap().level() as nat,
                key@,
            ) == route_leaf_start(chunks, hash@, root.1.level() as nat, key@),
        decreases node_at(chunks, current_hash@).unwrap().level(),
    {
        let ghost pv = path_view(path@);
        let ghost f = (current_hash@, node_at(chunks, current_hash@).unwrap(), current_idx);
        let ghost old_path = path@;
        let current_node = match load_node(store, &current_hash) {
            Ok(n) => n,
            Err(e) => return Err(e),
        };
        proof {
            assert(pv.push(f)[pv.len() as int] == f);
            lemma_subtree_node_content(chunks, current_hash@, f.1.level() as nat);
        }
        let next = match &current_node {
            Node::Leaf { .. } => None,
            Node::Internal { children, .. } => {
                if children.len() == 0 {
                    return Err(ProllyError::InternalError("Empty internal node found during cursor seek".to_string()));
                }
                let ghost cs = crate::node::definition::children_view(children@);
                let ghost lc = (f.1.level() - 1) as nat;
                proof {
                    lemma_children_flat_char(chunks, cs, lc);
                }
                let i = if binary {
                    proof {
                        assert forall|a: int, b: int| 0 <= a < b < cs.len() implies crate::keys::lex_lt(
                            cs[a].boundary,
                            cs[b].boundary,
                        ) by {
                            super::model::lemma_boundaries_sorted(chunks, cs, lc, a, b);
                        }
                    }
                    let r = super::search::search_boundaries(children, key);
                    if r < children.len() {
                        r
                    } else {
                        children.len() - 1
                    }
                } else {
                    let r = super::search::route_child(children, key);
                    proof {
                        if r + 1 < cs.len() {
                            if crate::keys::lex_lt(cs[r as int].boundary, key@) {
                                crate::keys::lemma_lex_lt_asymmetric(cs[r as int].boundary, key@);
                                crate::keys::lemma_lex_lt_irreflexive(key@);
                            }
                        }
                    }
                    r
                };
                proof {
                    assert(is_route(cs, key@, i as int));
                }
                Some((children[i].child_hash, i))
            },
        };
        path.push((current_hash, current_node, current_idx));
        proof {
            lemma_path_view_push(old_path, (current_hash, current_node, current_idx));
        }
        let (child_hash, child_idx) = match next {
            None => {
                proof {
                    assert(path_view(path@) == pv.push(f));
                    assert(route_leaf_start(chunks, current_hash@, f.1.level() as nat, key@) == 0);
                }
                return Ok(());
            },
            Some(x) => x,
        };
        proof {
            lemma_push_child(chunks, pv.push(f), child_idx);
            lemma_key_step(chunks, pv, f, key@, child_idx);
        }
        current_hash = child_hash;
        current_idx = child_idx;
    }
}

} // verus!

verus! {

// ---------------- moving between leaves ----------------

proof fn lemma_path_view_pop(p: Seq<(crate::common::Hash, Node, usize)>)
    requires
        p.len() > 0,
    ensures
        path_view(p.drop_last()) == path_view(p).drop_last(),
        path_view(p).last() == (p.last().0@, p.last().1@, p.last().2),
{
    assert(path_view(p.drop_last()) =~= path_view(p).drop_last());
}

/// A prefix of a well-formed path is well formed.
pub proof fn lemma_frames_take(chunks: Map<Seq<u8>, Seq<u8>>, p: Seq<FrameModel>, n: int)
    requires
        frames_ok(chunks, p),
        0 <= n <= p.len(),
    ensures
        frames_ok(chunks, p.take(n)),
{
    let q = p.take(n);
    assert forall|j: int| 0 <= j < q.len() implies node_at(chunks, (#[trigger] q[j]).0) == Some(q[j].1) && subtree(
        chunks,
        q[j].0,
        q[j].1.level() as nat,
    ) is Some by {
        assert(q[j] == p[j]);
    }
    assert forall|j: int| 0 < j < q.len() implies link_ok(q[j - 1], #[trigger] q[j]) by {
        assert(q[j] == p[j] && q[j - 1] == p[j - 1]);
    }
}

/// The end of the last step is the same in a path and in its prefix.
proof fn lemma_end_prefix(chunks: Map<Seq<u8>, Seq<u8>>, p: Seq<FrameModel>, n: int)
    requires
        0 < n <= p.len(),
    ensures
        frame_end(chunks, p.take(n), n - 1) == frame_end(chunks, p, n - 1),
        frame_offset(chunks, p.take(n), n - 1) == frame_offset(chunks, p, n - 1),
        p.take(n)[0] == p[0],
{
    lemma_offset_prefix(chunks, p.take(n), p, n - 1);
}

/// Facts about popping the last of the first `n` steps of a path.
proof fn lemma_pop_step(chunks: Map<Seq<u8>, Seq<u8>>, p0: Seq<FrameModel>, n: int)
    requires
        frames_ok(chunks, p0),
        2 <= n <= p0.len(),
    ensures
        frames_ok(chunks, p0.take(n)),
        frames_ok(chunks, p0.take(n - 1)),
        link_ok(p0[n - 2], p0[n - 1]),
        p0.take(n).take(n - 1) == p0.take(n - 1),
        p0.take(n - 1).last() == p0[n - 2],
        p0.take(n)[n - 1] == p0[n - 1],
        p0.take(n)[n - 2] == p0[n - 2],
        p0.take(n - 1)[0] == p0[0],
        p0[n - 2].1 is Internal,
        p0[n - 1].2 < node_children(p0[n - 2].1).len(),
{
    lemma_frames_take(chunks, p0, n);
    lemma_frames_take(chunks, p0, n - 1);
    assert(link_ok(p0[n - 2], p0[n - 1]));
    assert(p0.take(n).take(n - 1) =~= p0.take(n - 1));
}

/// The sibling of the child at `idx` of an internal node: the next one when
/// `forward`, else the previous one; `None` when there is none.
fn sibling(parent: &Node, idx: usize, forward: bool) -> (r: Result<Option<(crate::common::Hash, usize)>>)
    requires
        parent@ is Internal,
        idx < node_children(parent@).len(),
    ensures
        r matches Ok(o) && match o {
            Some((h, i)) => {
                &&& i < node_children(parent@).len()
                &&& h@ == node_children(parent@)[i as int].hash
                &&& forward ==> i == idx + 1
                &&& !forward ==> i + 1 == idx
            },
            None => if forward { idx + 1 == node_children(parent@).len() } else { idx == 0 },
        },
{
    match parent {
        Node::Internal { children, .. } => {
            proof {
                assert(children_view(children@) == node_children(parent@));
                assert(children_view(children@).len() == children@.len());
            }
            let n_children = children.len();
            if forward {
                let next_sibling_idx_in_parent = idx + 1;
                if next_sibling_idx_in_parent < children.len() {
                    proof {
                        assert(children_view(children@)[next_sibling_idx_in_parent as int].hash
                            == children@[next_sibling_idx_in_parent as int].child_hash@);
                    }
                    Ok(Some((children[next_sibling_idx_in_parent].child_hash, next_sibling_idx_in_parent)))
                } else {
                    Ok(None)
                }
            } else {
                if idx == usize::MAX {
                    return Ok(None);
                }
                match idx.checked_sub(1) {
                    Some(prev_idx) => {
                        proof {
                            assert(children_view(children@)[prev_idx as int].hash == children@[prev_idx as int].child_hash@);
                        }
                        Ok(Some((children[prev_idx].child_hash, prev_idx)))
                    },
                    None => Ok(None),
                }
            }
        },
        Node::Leaf { .. } => Err(ProllyError::InternalError("Cursor path parent not internal during static advance".to_string())),
    }
}

/// After popping step `n - 1` of `p0`: goes down the next sibling of the
/// popped step to its leftmost leaf, if there is one (`Ok(Some(()))`), and
/// leaves the path alone if the popped step was the last child (`Ok(None)`).
fn step_to_next_sibling<S: ChunkStore>(
    path: &mut Vec<(crate::common::Hash, Node, usize)>,
    store: &S,
    Ghost(p0): Ghost<Seq<FrameModel>>,
    Ghost(n): Ghost<int>,
    popped_idx: usize,
) -> (r: Result<Option<()>>)
    requires
        store.inv(),
        frames_ok(store.chunks(), p0),
        2 <= n <= p0.len(),
        path_view(old(path)@) == p0.take(n - 1),
        popped_idx == p0[n - 1].2,
    ensures
        ({
            let chunks = store.chunks();
            let p = path_view(final(path)@);
            &&& r matches Ok(Some(_)) ==> {
                &&& frames_ok(chunks, p)
                &&& ends_in_leaf(p)
                &&& p[0] == p0[0]
                &&& frame_offset(chunks, p, p.len() - 1) == frame_end(chunks, p0.take(n), n - 1)
            }
            &&& r matches Ok(None) ==> {
                &&& final(path)@ == old(path)@
                &&& frame_end(chunks, p0.take(n - 1), n - 2) == frame_end(chunks, p0.take(n), n - 1)
            }
        }),
    store.reliable() ==> r is Ok,
{
    let ghost chunks = store.chunks();
    proof {
        lemma_pop_step(chunks, p0, n);
        assert(path_view(path@)[n - 2] == p0[n - 2]);
    }
    let next = match sibling(&path[path.len() - 1].1, popped_idx, true) {
        Ok(o) => o,
        Err(e) => return Err(e),
    };
    match next {
        Some((h, i)) => {
            let ghost pt = path_view(path@);
            let ghost f = (h@, node_at(chunks, h@).unwrap(), i);
            proof {
                lemma_push_child(chunks, pt, i);
                lemma_next_sibling_offset(chunks, p0.take(n), n - 1, f);
            }
            match descend_leftmost(store, path, h, i) {
                Ok(()) => {
                    proof {
                        let p = path_view(path@);
                        assert(p[0] == p.take(n)[0]);
                        assert(pt.push(f)[0] == pt[0]);
                    }
                    Ok(Some(()))
                },
                Err(e) => Err(e),
            }
        },
        None => {
            proof {
                lemma_last_child_end(chunks, p0.take(n), n - 1);
                lemma_end_prefix(chunks, p0.take(n), n - 1);
            }
            Ok(None)
        },
    }
}

/// After popping step `n - 1` of `p0`: goes down the previous sibling of
/// the popped step to its rightmost leaf, if there is one (`Ok(Some(()))`),
/// and leaves the path alone if the popped step was the first child (`Ok(None)`).
fn step_to_prev_sibling<S: ChunkStore>(
    path: &mut Vec<(crate::common::Hash, Node, usize)>,
    store: &S,
    Ghost(p0): Ghost<Seq<FrameModel>>,
    Ghost(n): Ghost<int>,
    popped_idx: usize,
) -> (r: Result<Option<()>>)
    requires
        store.inv(),
        frames_ok(store.chunks(), p0),
        2 <= n <= p0.len(),
        path_view(old(path)@) == p0.take(n - 1),
        popped_idx == p0[n - 1].2,
    ensures
        ({
            let chunks = store.chunks();
            let p = path_view(final(path)@);
            &&& r matches Ok(Some(_)) ==> {
                &&& frames_ok(chunks, p)
                &&& ends_in_leaf(p)
                &&& p[0] == p0[0]
                &&& frame_end(chunks, p, p.len() - 1) == frame_offset(chunks, p0.take(n), n - 1)
            }
            &&& r matches Ok(None) ==> {
                &&& final(path)@ == old(path)@
                &&& frame_offset(chunks, p0.take(n - 1), n - 2) == frame_offset(chunks, p0.take(n), n - 1)
            }
        }),
    store.reliable() ==> r is Ok,
{
    let ghost chunks = store.chunks();
    proof {
        lemma_pop_step(chunks, p0, n);
        assert(path_view(path@)[n - 2] == p0[n - 2]);
    }
    let prev = match sibling(&path[path.len() - 1].1, popped_idx, false) {
        Ok(o) => o,
        Err(e) => return Err(e),
    };
    match prev {
        Some((h, i)) => {
            let ghost pt = path_view(path@);
            let ghost f = (h@, node_at(chunks, h@).unwrap(), i);
            proof {
                lemma_push_child(chunks, pt, i);
                lemma_prev_sibling_end(chunks, p0.take(n), n - 1, f);
                assert(p0.take(n).take(n - 1).push(f) == pt.push(f));
            }
            match descend_rightmost(store, path, h, i) {
                Ok(()) => {
                    proof {
                        let p = path_view(path@);
                        assert(p[0] == p.take(n)[0]);
                        assert(pt.push(f)[0] == pt[0]);
                    }
                    Ok(Some(()))
                },
                Err(e) => Err(e),
            }
        },
        None => {
            proof {
                lemma_first_child_offset(chunks, p0.take(n), n - 1);
                lemma_end_prefix(chunks, p0.take(n), n - 1);
            }
            Ok(None)
        },
    }
}

/// Replaces the path's leaf by the next leaf in key order. `Ok(true)`: the
/// new leaf begins where the old one ended. `Ok(false)`: the old leaf was
/// the last one, and the path is now empty.
pub fn advance_cursor_path_to_next_leaf_static<S: ChunkStore>(
    path: &mut Vec<(crate::common::Hash, Node, usize)>,
    store: &S,
) -> (r: Result<bool>)
    requires
        store.inv(),
        old(path)@.len() > 0 ==> frames_ok(store.chunks(), path_view(old(path)@)),
    ensures
        ({
            let p0 = path_view(old(path)@);
            let p = path_view(final(path)@);
            let chunks = store.chunks();
            &&& (r matches Ok(b) && b) ==> {
                &&& p0.len() > 0
                &&& frames_ok(chunks, p)
                &&& ends_in_leaf(p)
                &&& p[0] == p0[0]
                &&& frame_offset(chunks, p, p.len() - 1) == frame_end(chunks, p0, p0.len() - 1)
            }
            &&& (r matches Ok(b) && !b) ==> {
                &&& p.len() == 0
                &&& p0.len() > 0 ==> frame_end(chunks, p0, p0.len() - 1) == frame_sub(chunks, p0[0]).len()
            }
        }),
    store.reliable() ==> r is Ok,
{
    let ghost chunks = store.chunks();
    let ghost p0 = path_view(path@);
    if path.len() == 0 {
        return Ok(false);
    }
    proof {
        assert(p0.take(p0.len() as int) =~= p0);
    }
    loop
        invariant
            store.inv(),
            chunks == store.chunks(),
            p0 == path_view(old(path)@),
            p0.len() > 0,
            frames_ok(chunks, p0),
            0 < path@.len() <= p0.len(),
            path_view(path@) == p0.take(path@.len() as int),
            frame_end(chunks, p0.take(path@.len() as int), path@.len() - 1) == frame_end(chunks, p0, p0.len() - 1),
        decreases path@.len(),
    {
        let ghost n = path@.len() as int;
        let popped_idx_in_parent = path[path.len() - 1].2;
        proof {
            lemma_path_view_pop(path@);
            assert(p0.take(n)[n - 1] == p0[n - 1]);
            if n == 1 {
                assert(p0.take(1)[0] == p0[0]);
                assert(frame_offset(chunks, p0.take(1), 0) == 0);
            }
        }
        path.pop();
        if path.len() == 0 {
            return Ok(false);
        }
        proof {
            assert(p0.take(n).drop_last() =~= p0.take(n - 1));
        }
        match step_to_next_sibling(path, store, Ghost(p0), Ghost(n), popped_idx_in_parent) {
            Ok(Some(())) => return Ok(true),
            Ok(None) => {},
            Err(e) => return Err(e),
        }
    }
}

/// Replaces the path's leaf by the previous leaf in key order. `Ok(true)`:
/// the new leaf ends where the old one began. `Ok(false)`: the old leaf was
/// the first one, and the path is now empty.
pub fn advance_cursor_path_to_prev_leaf_static<S: ChunkStore>(
    path: &mut Vec<(crate::common::Hash, Node, usize)>,
    store: &S,
) -> (r: Result<bool>)
    requires
        store.inv(),
        old(path)@.len() > 0 ==> frames_ok(store.chunks(), path_view(old(path)@)),
    ensures
        ({
            let p0 = path_view(old(path)@);
            let p = path_view(final(path)@);
            let chunks = store.chunks();
            &&& (r matches Ok(b) && b) ==> {
                &&& p0.len() > 0
                &&& frames_ok(chunks, p)
                &&& ends_in_leaf(p)
                &&& p[0] == p0[0]
                &&& frame_end(chunks, p, p.len() - 1) == frame_offset(chunks, p0, p0.len() - 1)
            }
            &&& (r matches Ok(b) && !b) ==> {
                &&& p.len() == 0
                &&& p0.len() > 0 ==> frame_offset(chunks, p0, p0.len() - 1) == 0
            }
        }),
    store.reliable() ==> r is Ok,
{
    let ghost chunks = store.chunks();
    let ghost p0 = path_view(path@);
    if path.len() == 0 {
        return Ok(false);
    }
    proof {
        assert(p0.take(p0.len() as int) =~= p0);
    }
    loop
        invariant
            store.inv(),
            chunks == store.chunks(),
            p0 == path_view(old(path)@),
            p0.len() > 0,
            frames_ok(chunks, p0),
            0 < path@.len() <= p0.len(),
            path_view(path@) == p0.take(path@.len() as int),
            frame_offset(chunks, p0.take(path@.len() as int), path@.len() - 1) == frame_offset(chunks, p0, p0.len() - 1),
        decreases path@.len(),
    {
        let ghost n = path@.len() as int;
        let popped_idx_in_parent = path[path.len() - 1].2;
        proof {
            lemma_path_view_pop(path@);
            assert(p0.take(n)[n - 1] == p0[n - 1]);
            if n == 1 {
                assert(frame_offset(chunks, p0.take(1), 0) == 0);
            }
        }
        path.pop();
        if path.len() == 0 {
            return Ok(false);
        }
        proof {
            assert(p0.take(n).drop_last() =~= p0.take(n - 1));
        }
        match step_to_prev_sibling(path, store, Ghost(p0), Ghost(n), popped_idx_in_parent) {
            Ok(Some(())) => return Ok(true),
            Ok(None) => {},
            Err(e) => return Err(e),
        }
    }
}

} // verus!

verus! {

// ---------------- the cursor ----------------

/// The entries of a leaf node.
pub open spec fn leaf_entries(n: NodeModel) -> Seq<EntryModel> {
    match n {
        NodeModel::Leaf { entries, .. } => entries,
        _ => Seq::empty(),
    }
}

/// The entries below a path's leaf are the leaf's own entries, a nonempty
/// slice of the entries below the path's first step.
pub proof fn lemma_leaf_slice(chunks: Map<Seq<u8>, Seq<u8>>, pv: Seq<FrameModel>)
    requires
        frames_ok(chunks, pv),
        ends_in_leaf(pv),
    ensures
        ({
            let leaf = leaf_entries(pv.last().1);
            let off = frame_offset(chunks, pv, pv.len() - 1);
            let all = frame_sub(chunks, pv[0]);
            &&& frame_sub(chunks, pv.last()) == leaf
            &&& leaf.len() > 0
            &&& 0 <= off
            &&& off + leaf.len() <= all.len()
            &&& frame_end(chunks, pv, pv.len() - 1) == off + leaf.len()
            &&& forall|t: int| 0 <= t < leaf.len() ==> #[trigger] leaf[t] == all[off + t]
            &&& leaf == all.subrange(off, off + leaf.len())
        }),
{
    let j = pv.len() - 1;
    assert(pv[j] == pv.last());
    assert(node_at(chunks, pv[j].0) == Some(pv[j].1));
    lemma_frame_slice(chunks, pv, j);
}

/// The place of `key` in a leaf that a search for `key` reached, shifted by
/// the leaf's offset, is its place among all the entries.
proof fn lemma_key_position(chunks: Map<Seq<u8>, Seq<u8>>, p: Seq<FrameModel>, key: Seq<u8>, idx: int)
    requires
        frames_ok(chunks, p),
        ends_in_leaf(p),
        brackets(frame_sub(chunks, p[0]), frame_offset(chunks, p, p.len() - 1), frame_end(chunks, p, p.len() - 1), key),
        is_lower_bound(leaf_entries(p.last().1), key, idx),
    ensures
        is_lower_bound(frame_sub(chunks, p[0]), key, frame_offset(chunks, p, p.len() - 1) + idx),
{
    lemma_leaf_slice(chunks, p);
    lemma_bracketed_lower_bound(
        frame_sub(chunks, p[0]),
        frame_offset(chunks, p, p.len() - 1),
        frame_end(chunks, p, p.len() - 1),
        key,
        idx,
    );
}

/// The tree's root as the first step of a path.
pub proof fn lemma_root_frame(chunks: Map<Seq<u8>, Seq<u8>>, h: Seq<u8>)
    requires
        crate::tree::model::tree_entries(chunks, Some(h)) is Some,
    ensures
        pending_ok(chunks, Seq::empty(), h, usize::MAX),
        frame_sub(chunks, (h, node_at(chunks, h).unwrap(), usize::MAX)) == crate::tree::model::tree_entries(
            chunks,
            Some(h),
        ).unwrap(),
{
    let f = (h, node_at(chunks, h).unwrap(), usize::MAX);
    let p = Seq::<FrameModel>::empty().push(f);
    assert(p[0] == f);
}

/// A walk over the entries of a tree in key order: the path from the root
/// to the current leaf, and the index in that leaf of the next entry.
pub struct Cursor<'a, S: ChunkStore> {
    store: &'a S,
    config: TreeConfig,
    path: Vec<(crate::common::Hash, Node, usize)>,
    current_leaf_entry_idx: usize,
    tree_entries: Ghost<Seq<EntryModel>>,
}

impl<'a, S: ChunkStore> Cursor<'a, S> {
    /// The entries of the tree walked.
    pub closed spec fn entries(&self) -> Seq<EntryModel> {
        self.tree_entries@
    }

    /// The chunks of the store read.
    pub closed spec fn chunks(&self) -> Map<Seq<u8>, Seq<u8>> {
        self.store.chunks()
    }

    /// The store read never fails on its own account.
    pub closed spec fn reliable(&self) -> bool {
        self.store.reliable()
    }

    closed spec fn path_model(&self) -> Seq<FrameModel> {
        path_view(self.path@)
    }

    /// The walk stands in a leaf (it is not over).
    pub closed spec fn has_leaf(&self) -> bool {
        self.path@.len() > 0
    }

    /// Where the current leaf's entries begin among the tree's entries.
    pub closed spec fn leaf_offset(&self) -> int {
        frame_offset(self.chunks(), self.path_model(), self.path_model().len() - 1)
    }

    /// How many entries the current leaf holds.
    pub closed spec fn leaf_len(&self) -> int {
        leaf_entries(self.path_model().last().1).len() as int
    }

    /// The path runs from the root to a leaf of the tree walked.
    pub closed spec fn path_ok(&self) -> bool {
        &&& self.store.inv()
        &&& self.path@.len() > 0 ==> {
            &&& frames_ok(self.chunks(), self.path_model())
            &&& ends_in_leaf(self.path_model())
            &&& self.entries() == frame_sub(self.chunks(), self.path_model()[0])
        }
    }

    /// Well formed for a forward walk: the index is at most the leaf's size.
    pub closed spec fn inv_fwd(&self) -> bool {
        &&& self.path_ok()
        &&& self.path@.len() > 0 ==> self.current_leaf_entry_idx <= self.leaf_len()
    }

    /// Well formed for a backward walk: the index is in the leaf, or
    /// `usize::MAX` for "before the leaf's first entry".
    pub closed spec fn inv_rev(&self) -> bool {
        &&& self.path_ok()
        &&& self.path@.len() > 0 ==> (self.current_leaf_entry_idx < self.leaf_len()
            || self.current_leaf_entry_idx == usize::MAX)
    }

    /// The position among the tree's entries of the next entry a forward
    /// walk returns; the number of entries once the walk is over.
    pub closed spec fn fwd_pos(&self) -> int {
        if self.path@.len() == 0 {
            self.entries().len() as int
        } else {
            self.leaf_offset() + self.current_leaf_entry_idx
        }
    }

    /// The position among the tree's entries of the next entry a backward
    /// walk returns; -1 once the walk is over.
    pub closed spec fn rev_pos(&self) -> int {
        if self.path@.len() == 0 {
            -1
        } else if self.current_leaf_entry_idx == usize::MAX {
            self.leaf_offset() - 1
        } else {
            self.leaf_offset() + self.current_leaf_entry_idx
        }
    }

    proof fn lemma_leaf(&self)
        requires
            self.path_ok(),
            self.path@.len() > 0,
        ensures
            self.leaf_len() > 0,
            0 <= self.leaf_offset(),
            self.leaf_offset() + self.leaf_len() <= self.entries().len(),
            forall|t: int|
                0 <= t < self.leaf_len() ==> #[trigger] leaf_entries(self.path_model().last().1)[t]
                    == self.entries()[self.leaf_offset() + t],
            frame_end(self.chunks(), self.path_model(), self.path_model().len() - 1) == self.leaf_offset()
                + self.leaf_len(),
            self.leaf_len() <= usize::MAX,
    {
        lemma_leaf_slice(self.chunks(), self.path_model());
        lemma_path_view_pop(self.path@);
        match self.path@.last().1 {
            Node::Leaf { entries, .. } => {
                assert(entries_view(entries@).len() == entries@.len());
                assert(entries.len() == entries@.len());
            },
            _ => {},
        }
    }

    /// A cursor before the first entry of `tree`.
    pub fn new_at_start(tree: &'a ProllyTree<S>) -> (r: Result<Self>)
        requires
            tree.wf(),
        ensures
            r matches Ok(c) ==> {
                &&& c.inv_fwd()
                &&& c.entries() == tree.entries().unwrap()
                &&& c.chunks() == tree.store.chunks()
                &&& c.fwd_pos() == 0
                &&& c.reliable() == tree.store.reliable()
            },
            tree.root_hash is None ==> r is Ok,
            tree.store.reliable() ==> r is Ok,
    {
        let store = &tree.store;
        let config = tree.config;
        let mut path: Vec<(crate::common::Hash, Node, usize)> = Vec::new();
        let current_leaf_entry_idx: usize = 0;
        let ghost es = tree.entries().unwrap();
        if let Some(root_hash) = tree.root_hash {
            proof {
                lemma_root_frame(store.chunks(), root_hash@);
                assert(path_view(path@) =~= Seq::<FrameModel>::empty());
            }
            match descend_leftmost(store, &mut path, root_hash, usize::MAX) {
                Ok(()) => {},
                Err(e) => return Err(e),
            }
            proof {
                let p = path_view(path@);
                let p0 = Seq::<FrameModel>::empty().push((root_hash@, node_at(store.chunks(), root_hash@).unwrap(), usize::MAX));
                assert(p[0] == p.take(1)[0]);
                assert(frame_offset(store.chunks(), p0, 0) == 0);
            }
        }
        Ok(Cursor { store, config, path, current_leaf_entry_idx, tree_entries: Ghost(es) })
    }

    /// A cursor at the first entry whose key is not below `start_key`: at
    /// each internal node the first child whose boundary is not below it,
    /// else the last child, then the key's place in that leaf.
    pub fn new_at_key(tree: &'a ProllyTree<S>, start_key: &Key) -> (r: Result<Self>)
        requires
            tree.wf(),
        ensures
            r matches Ok(c) ==> {
                &&& c.inv_fwd()
                &&& c.entries() == tree.entries().unwrap()
                &&& c.chunks() == tree.store.chunks()
                &&& is_lower_bound(c.entries(), start_key@, c.fwd_pos())
                &&& c.reliable() == tree.store.reliable()
            },
            tree.root_hash is None ==> r is Ok,
            tree.store.reliable() ==> r is Ok,
    {
        let store = &tree.store;
        let config = tree.config;
        let mut path: Vec<(crate::common::Hash, Node, usize)> = Vec::new();
        let mut current_leaf_entry_idx: usize = 0;
        let ghost es = tree.entries().unwrap();
        let ghost chunks = store.chunks();
        if let Some(root_hash) = tree.root_hash {
            proof {
                lemma_root_frame(chunks, root_hash@);
                assert(path_view(path@) =~= Seq::<FrameModel>::empty());
            }
            match descend_by_key(store, &mut path, root_hash, start_key.as_slice(), false) {
                Ok(()) => {},
                Err(e) => return Err(e),
            }
            let ghost p = path_view(path@);
            proof {
                lemma_leaf_slice(chunks, p);
                lemma_path_view_pop(path@);
            }
            let last = path.len() - 1;
            match &path[last].1 {
                Node::Leaf { entries, .. } => {
                    proof {
                        assert(entries_view(entries@) == leaf_entries(p.last().1));
                        assert(sorted_entries(subtree(chunks, p.last().0, 0).unwrap()));
                    }
                    let (_, idx) = search_entries(entries, start_key.as_slice());
                    proof {
                        lemma_key_position(chunks, p, start_key@, idx as int);
                    }
                    current_leaf_entry_idx = idx;
                },
                Node::Internal { .. } => {},
            }
        }
        Ok(Cursor { store, config, path, current_leaf_entry_idx, tree_entries: Ghost(es) })
    }
}

impl<'a, S: ChunkStore> Cursor<'a, S> {
    /// Reads the bytes a stored value stands for.
    fn load_value_repr_from_store(&self, value_repr: &ValueRepr) -> (r: Result<Vec<u8>>)
        requires
            self.store.inv(),
        ensures
            r matches Ok(b) ==> resolve_value(self.chunks(), value_repr@) == Some(b@),
            resolve_value(self.chunks(), value_repr@) is None ==> r is Err,
        self.store.reliable() && resolve_value(self.chunks(), value_repr@) is Some ==> r is Ok,
    {
        load_value_repr(self.store, value_repr)
    }

    /// The key and value at index `idx` of the current leaf, when there is
    /// such an entry.
    fn read_leaf_entry(&self, idx: usize) -> (r: Result<Option<(Key, Result<Value>)>>)
        requires
            self.path_ok(),
            self.path@.len() > 0,
        ensures
            r matches Ok(o) && match o {
                Some((k, v)) => {
                    let e = self.entries()[self.leaf_offset() + idx];
                    &&& idx < self.leaf_len()
                    &&& idx < usize::MAX
                    &&& k@ == e.key
                    &&& (v matches Ok(b) ==> resolve_value(self.chunks(), e.value) == Some(b@))
                    &&& (resolve_value(self.chunks(), e.value) is None ==> v is Err)
                },
                None => idx >= self.leaf_len(),
            },
        r matches Ok(Some((k, v))) ==> (self.store.reliable() && resolve_value(self.chunks(), self.entries()[self.leaf_offset() + idx].value) is Some ==> v is Ok),
    {
        proof {
            self.lemma_leaf();
            lemma_path_view_pop(self.path@);
        }
        let n = self.path.len();
        match &self.path[n - 1].1 {
            Node::Leaf { entries, .. } => {
                proof {
                    assert(entries_view(entries@) == leaf_entries(self.path_model().last().1));
                }
                if idx < entries.len() {
                    let e = &entries[idx];
                    proof {
                        assert(entries_view(entries@)[idx as int] == e@);
                    }
                    let key = copy_range(e.key.as_slice(), 0, e.key.len());
                    proof {
                        assert(key@ =~= e.key@);
                    }
                    Ok(Some((key, self.load_value_repr_from_store(&e.value))))
                } else {
                    Ok(None)
                }
            },
            Node::Internal { .. } => Err(ProllyError::InternalError("Cursor path did not end in a leaf node".to_string())),
        }
    }

    /// The number of entries in the current leaf.
    fn current_leaf_len(&self) -> (r: Result<usize>)
        requires
            self.path_ok(),
            self.path@.len() > 0,
        ensures
            r matches Ok(n) ==> n == self.leaf_len(),
        r is Ok,
    {
        proof {
            lemma_path_view_pop(self.path@);
        }
        let n = self.path.len();
        match &self.path[n - 1].1 {
            Node::Leaf { entries, .. } => {
                proof {
                    assert(entries_view(entries@).len() == entries@.len());
                }
                Ok(entries.len())
            },
            Node::Internal { .. } => Err(ProllyError::InternalError("Cursor path did not end in a leaf node".to_string())),
        }
    }

    /// Returns the next entry and moves past it; `Ok(None)` once every
    /// entry has been returned.
    pub fn next(&mut self) -> (r: Result<Option<(Key, Value)>>)
        requires
            old(self).inv_fwd(),
        ensures
            final(self).entries() == old(self).entries(),
            final(self).chunks() == old(self).chunks(),
            final(self).reliable() == old(self).reliable(),
            r is Ok ==> final(self).inv_fwd(),
            r matches Ok(res) ==> ({
                let p = old(self).fwd_pos();
                let es = old(self).entries();
                if p < es.len() {
                    &&& res matches Some(kv) && kv.0@ == es[p].key && resolve_value(old(self).chunks(), es[p].value)
                        == Some(kv.1@)
                    &&& final(self).fwd_pos() == p + 1
                } else {
                    &&& res is None
                    &&& final(self).fwd_pos() == p
                }
            }),
            old(self).fwd_pos() < old(self).entries().len() && resolve_value(
                old(self).chunks(),
                old(self).entries()[old(self).fwd_pos()].value,
            ) is None ==> r is Err,
        old(self).reliable() && (old(self).fwd_pos() < old(self).entries().len() ==> resolve_value(old(self).chunks(), old(self).entries()[old(self).fwd_pos()].value) is Some) ==> r is Ok,
    {
        proof {
            if self.path@.len() > 0 {
                self.lemma_leaf();
            }
        }
        loop
            invariant
                self.inv_fwd(),
                self.entries() == old(self).entries(),
                self.chunks() == old(self).chunks(),
                self.store == old(self).store,
                self.fwd_pos() == old(self).fwd_pos(),
                self.fwd_pos() <= self.entries().len(),
            decreases (if self.path@.len() > 0 && self.current_leaf_entry_idx >= self.leaf_len() {
                1int
            } else {
                0int
            }),
        {
            if self.path.len() == 0 {
                return Ok(None);
            }
            proof {
                self.lemma_leaf();
            }
            let idx = self.current_leaf_entry_idx;
            let found = match self.read_leaf_entry(idx) {
                Ok(o) => o,
                Err(e) => return Err(e),
            };
            match found {
                Some((key, value)) => {
                    self.current_leaf_entry_idx = idx + 1;
                    return match value {
                        Ok(v) => Ok(Some((key, v))),
                        Err(e) => Err(e),
                    };
                },
                None => {
                    let ghost old_self = *self;
                    match advance_cursor_path_to_next_leaf_static(&mut self.path, self.store) {
                        Ok(true) => {
                            self.current_leaf_entry_idx = 0;
                            proof {
                                self.lemma_leaf();
                            }
                        },
                        Ok(false) => return Ok(None),
                        Err(e) => return Err(e),
                    }
                },
            }
        }
    }

    /// Moves to the first entry of the next leaf. `Ok(false)`: there is no
    /// next leaf, and the walk is over.
    pub fn advance_to_next_leaf(&mut self) -> (r: Result<bool>)
        requires
            old(self).path_ok(),
        ensures
            final(self).entries() == old(self).entries(),
            final(self).chunks() == old(self).chunks(),
            r is Ok ==> final(self).inv_fwd(),
            r matches Ok(b) && b ==> {
                &&& old(self).has_leaf()
                &&& final(self).fwd_pos() == old(self).leaf_offset() + old(self).leaf_len()
                &&& final(self).has_leaf()
                &&& final(self).leaf_index() == 0
            },
            r matches Ok(b) && !b ==> {
                &&& !final(self).has_leaf()
                &&& final(self).fwd_pos() == final(self).entries().len()
                &&& old(self).has_leaf() ==> old(self).leaf_offset() + old(self).leaf_len()
                    == old(self).entries().len()
            },
        old(self).reliable() ==> r is Ok,
        final(self).reliable() == old(self).reliable(),
    {
        proof {
            if self.path@.len() > 0 {
                self.lemma_leaf();
            }
        }
        let advanced = match advance_cursor_path_to_next_leaf_static(&mut self.path, self.store) {
            Ok(b) => b,
            Err(e) => return Err(e),
        };
        if advanced {
            self.current_leaf_entry_idx = 0;
        }
        Ok(advanced)
    }

    /// Moves to the last entry of the previous leaf. `Ok(false)`: there is
    /// no previous leaf, and the walk is over.
    pub fn advance_to_prev_leaf(&mut self) -> (r: Result<bool>)
        requires
            old(self).path_ok(),
        ensures
            final(self).entries() == old(self).entries(),
            final(self).chunks() == old(self).chunks(),
            r is Ok ==> final(self).inv_rev(),
            r matches Ok(b) && b ==> {
                &&& old(self).has_leaf()
                &&& final(self).rev_pos() == old(self).leaf_offset() - 1
                &&& final(self).has_leaf()
                &&& final(self).leaf_index() == final(self).leaf_len() - 1
                &&& final(self).leaf_index() < usize::MAX
            },
            r matches Ok(b) && !b ==> {
                &&& !final(self).has_leaf()
                &&& final(self).rev_pos() == -1
                &&& old(self).has_leaf() ==> old(self).leaf_offset() == 0
            },
        old(self).reliable() ==> r is Ok,
        final(self).reliable() == old(self).reliable(),
    {
        let advanced = match advance_cursor_path_to_prev_leaf_static(&mut self.path, self.store) {
            Ok(b) => b,
            Err(e) => return Err(e),
        };
        if advanced {
            proof {
                self.lemma_leaf();
            }
            let n = match self.current_leaf_len() {
                Ok(n) => n,
                Err(e) => return Err(e),
            };
            self.current_leaf_entry_idx = n - 1;
            if n == 0 {
                self.current_leaf_entry_idx = usize::MAX;
            }
        }
        Ok(advanced)
    }
}

/// A place found in a slice whose keys are bracketed around `key` is the
/// key's place in the whole list.
pub proof fn lemma_bracketed_lower_bound(es: Seq<EntryModel>, lo: int, hi: int, key: Seq<u8>, p: int)
    requires
        0 <= lo <= hi <= es.len(),
        brackets(es, lo, hi, key),
        is_lower_bound(es.subrange(lo, hi), key, p),
    ensures
        is_lower_bound(es, key, lo + p),
{
    let sub = es.subrange(lo, hi);
    assert forall|i: int| 0 <= i < lo + p implies lex_lt(#[trigger] es[i].key, key) by {
        if i >= lo {
            assert(es[i] == sub[i - lo]);
        }
    }
    assert forall|i: int| lo + p <= i < es.len() implies !lex_lt(#[trigger] es[i].key, key) by {
        if i < hi {
            assert(es[i] == sub[i - lo]);
        } else {
            crate::keys::lemma_lex_lt_asymmetric(key, es[i].key);
        }
    }
}

} // verus!

verus! {

// ---------------- where a scan starts ----------------

/// An optional key as bytes.
pub open spec fn opt_key(o: Option<Key>) -> Option<Seq<u8>> {
    match o {
        Some(k) => Some(k@),
        None => None,
    }
}

/// How many of the entries have a key below `k`.
pub open spec fn count_below(es: Seq<EntryModel>, k: Seq<u8>) -> int
    decreases es.len(),
{
    if es.len() == 0 {
        0
    } else {
        count_below(es.drop_last(), k) + if lex_lt(es.last().key, k) {
            1int
        } else {
            0int
        }
    }
}

/// In a sorted list, the number of keys below `k` is where `k` belongs.
pub proof fn lemma_count_below(es: Seq<EntryModel>, k: Seq<u8>)
    requires
        sorted_entries(es),
    ensures
        is_lower_bound(es, k, count_below(es, k)),
    decreases es.len(),
{
    if es.len() > 0 {
        let init = es.drop_last();
        assert forall|i: int, j: int| 0 <= i < j < init.len() implies lex_lt(init[i].key, init[j].key) by {
            assert(init[i] == es[i] && init[j] == es[j]);
        }
        lemma_count_below(init, k);
        let c0 = count_below(init, k);
        if lex_lt(es.last().key, k) {
            assert forall|i: int| 0 <= i < es.len() implies lex_lt(#[trigger] es[i].key, k) by {
                if i < es.len() - 1 {
                    crate::keys::lemma_lex_lt_transitive(es[i].key, es.last().key, k);
                }
            }
            if c0 < init.len() {
                assert(init[c0] == es[c0]);
            }
        } else {
            assert forall|i: int| 0 <= i < c0 implies lex_lt(#[trigger] es[i].key, k) by {
                assert(es[i] == init[i]);
            }
            assert forall|i: int| c0 <= i < es.len() implies !lex_lt(#[trigger] es[i].key, k) by {
                if i < es.len() - 1 {
                    assert(es[i] == init[i]);
                }
            }
        }
    }
}

/// A key has one place in a list.
pub proof fn lemma_lower_bound_unique(es: Seq<EntryModel>, k: Seq<u8>, p: int, q: int)
    requires
        is_lower_bound(es, k, p),
        is_lower_bound(es, k, q),
    ensures
        p == q,
{
    if p < q {
        assert(lex_lt(es[p].key, k));
    } else if q < p {
        assert(lex_lt(es[q].key, k));
    }
}

/// Where a search for `k` from the root `root` reaches a leaf: the position
/// among the tree's entries where that leaf begins.
pub open spec fn tree_route_start(chunks: Map<Seq<u8>, Seq<u8>>, root: Option<Seq<u8>>, k: Seq<u8>) -> int {
    match root {
        Some(h) => route_leaf_start(chunks, h, node_at(chunks, h).unwrap().level() as nat, k),
        None => 0,
    }
}

/// A forward scan's first position before its offset: the first key not
/// below the start bound.
pub open spec fn seek_fwd(es: Seq<EntryModel>, sb: Option<Seq<u8>>) -> int {
    match sb {
        Some(k) => count_below(es, k),
        None => 0,
    }
}

/// A backward scan's first position before its offset: the start bound's
/// own entry; else the last key below it, except where the search for it
/// reached a leaf whose first key is above it (`rs` is where that leaf
/// begins): then that first key. Without a start bound, the last entry.
pub open spec fn seek_rev(es: Seq<EntryModel>, sb: Option<Seq<u8>>, rs: int) -> int {
    if es.len() == 0 {
        -1
    } else {
        match sb {
            None => es.len() - 1,
            Some(k) => {
                let lb = count_below(es, k);
                if lb < es.len() && es[lb].key == k {
                    lb
                } else if lb == rs {
                    rs
                } else {
                    lb - 1
                }
            },
        }
    }
}

/// Moving `offset` entries forward, stopping at the end `n`.
pub open spec fn skip_fwd(p: int, n: int, offset: int) -> int {
    if p + offset < n {
        p + offset
    } else {
        n
    }
}

/// Moving `offset` entries backward, stopping before the start.
pub open spec fn skip_rev(p: int, offset: int) -> int {
    if p - offset >= 0 {
        p - offset
    } else {
        -1
    }
}

/// Stepping over the start bound's own entry when the bound is exclusive.
pub open spec fn exclude_fwd(es: Seq<EntryModel>, p: int, sb: Option<Seq<u8>>, incl: bool) -> int {
    match sb {
        Some(k) => if !incl && 0 <= p < es.len() && es[p].key == k {
            p + 1
        } else {
            p
        },
        None => p,
    }
}

/// Stepping back over the start bound's own entry when the bound is exclusive.
pub open spec fn exclude_rev(es: Seq<EntryModel>, p: int, sb: Option<Seq<u8>>, incl: bool) -> int {
    match sb {
        Some(k) => if !incl && 0 <= p < es.len() && es[p].key == k {
            p - 1
        } else {
            p
        },
        None => p,
    }
}

/// The position of the first entry a scan looks at: found from the start
/// bound, moved by the offset, then past the start bound's own entry when
/// the bound is exclusive. `rs` is where the leaf reached by the search for
/// the start bound begins.
pub open spec fn scan_start(es: Seq<EntryModel>, args: ScanArgs, rs: int) -> int {
    let sb = opt_key(args.start_bound);
    if !args.reverse {
        exclude_fwd(es, skip_fwd(seek_fwd(es, sb), es.len() as int, args.offset as int), sb, args.start_inclusive)
    } else {
        exclude_rev(es, skip_rev(seek_rev(es, sb, rs), args.offset as int), sb, args.start_inclusive)
    }
}

/// `key` is within the bound `b` from below: above it, or equal and inclusive.
pub open spec fn above_bound(key: Seq<u8>, b: Option<Seq<u8>>, incl: bool) -> bool {
    match b {
        Some(x) => lex_lt(x, key) || (key == x && incl),
        None => true,
    }
}

/// `key` is within the bound `b` from above: below it, or equal and inclusive.
pub open spec fn below_bound(key: Seq<u8>, b: Option<Seq<u8>>, incl: bool) -> bool {
    match b {
        Some(x) => lex_lt(key, x) || (key == x && incl),
        None => true,
    }
}

/// A scan returns the entry at position `i`: it exists and is within the
/// bounds that the scan checks as it goes (the end bound going forward;
/// both bounds going backward).
pub open spec fn scan_ok(es: Seq<EntryModel>, i: int, args: ScanArgs) -> bool {
    &&& 0 <= i < es.len()
    &&& if !args.reverse {
        below_bound(es[i].key, opt_key(args.end_bound), args.end_inclusive)
    } else {
        &&& below_bound(es[i].key, opt_key(args.start_bound), args.start_inclusive)
        &&& above_bound(es[i].key, opt_key(args.end_bound), args.end_inclusive)
    }
}

/// The position after `p` in the scan's direction.
pub open spec fn scan_step(p: int, reverse: bool) -> int {
    if reverse {
        p - 1
    } else {
        p + 1
    }
}

/// The leaf entries of a path's last step, with the place of `key` among
/// them.
fn search_last_leaf(path: &Vec<(crate::common::Hash, Node, usize)>, key: &[u8]) -> (r: (bool, usize, usize))
    requires
        ends_in_leaf(path_view(path@)),
        sorted_entries(leaf_entries(path_view(path@).last().1)),
    ensures
        ({
            let leaf = leaf_entries(path_view(path@).last().1);
            &&& r.2 == leaf.len()
            &&& is_lower_bound(leaf, key@, r.1 as int)
            &&& r.0 == (r.1 < leaf.len() && leaf[r.1 as int].key == key@)
        }),
{
    proof {
        lemma_path_view_pop(path@);
    }
    let n = path.len();
    match &path[n - 1].1 {
        Node::Leaf { entries, .. } => {
            proof {
                assert(entries_view(entries@) == leaf_entries(path_view(path@).last().1));
                assert(entries_view(entries@).len() == entries@.len());
            }
            let (found, idx) = search_entries(entries, key);
            (found, idx, entries.len())
        },
        Node::Internal { .. } => (false, 0, 0),
    }
}

} // verus!

verus! {

impl<'a, S: ChunkStore> Cursor<'a, S> {
    /// The index in the current leaf.
    pub closed spec fn leaf_index(&self) -> int {
        self.current_leaf_entry_idx as int
    }

    /// Forward, at or past the end of the leaf only where the entry there
    /// is above the start bound.
    pub closed spec fn fwd_stop_ok(&self, sb: Option<Seq<u8>>) -> bool {
        self.has_leaf() && self.leaf_index() >= self.leaf_len() && self.fwd_pos() < self.entries().len() ==> (
        sb matches Some(k) && lex_lt(k, self.entries()[self.fwd_pos()].key))
    }

    /// The cursor that a scan starts from before its offset is applied.
    fn seek_for_scan(tree: &'a ProllyTree<S>, args: &ScanArgs) -> (r: Result<Self>)
        requires
            tree.wf(),
        ensures
            r matches Ok(c) ==> {
                let es = tree.entries().unwrap();
                let sb = opt_key(args.start_bound);
                &&& c.entries() == es
                &&& c.chunks() == tree.store.chunks()
                &&& !args.reverse ==> {
                    &&& c.inv_fwd()
                    &&& c.fwd_pos() == seek_fwd(es, sb)
                    &&& c.fwd_stop_ok(sb)
                }
                &&& args.reverse ==> {
                    &&& c.inv_rev()
                    &&& c.rev_pos() == seek_rev(es, sb, tree_route_start(c.chunks(), tree.root_view(), sb.unwrap()))
                    &&& c.has_leaf() ==> c.leaf_index() < c.leaf_len()
                }
            },
            tree.root_hash is None ==> (r matches Ok(c) && !c.has_leaf()),
        tree.store.reliable() ==> (r matches Ok(c) && c.reliable()),
    {
        let store = &tree.store;
        let config = tree.config;
        let mut path: Vec<(crate::common::Hash, Node, usize)> = Vec::new();
        let ghost es = tree.entries().unwrap();
        let ghost chunks = store.chunks();
        let idx0: usize = if args.reverse {
            usize::MAX
        } else {
            0
        };
        let root_hash = match tree.root_hash {
            Some(h) => h,
            None => {
                return Ok(Cursor { store, config, path, current_leaf_entry_idx: idx0, tree_entries: Ghost(es) });
            },
        };
        let ghost root = (root_hash@, node_at(chunks, root_hash@).unwrap(), usize::MAX);
        proof {
            lemma_root_frame(chunks, root_hash@);
            assert(path_view(path@) =~= Seq::<FrameModel>::empty());
            assert(Seq::<FrameModel>::empty().push(root)[0] == root);
            assert(frame_offset(chunks, Seq::<FrameModel>::empty().push(root), 0) == 0);
            assert(sorted_entries(es));
        }
        let mut current_leaf_entry_idx = idx0;
        match &args.start_bound {
            Some(key) => {
                match descend_by_key(store, &mut path, root_hash, key.as_slice(), true) {
                    Ok(()) => {},
                    Err(e) => return Err(e),
                }
                let ghost p = path_view(path@);
                proof {
                    lemma_leaf_slice(chunks, p);
                    assert(sorted_entries(subtree(chunks, p.last().0, 0).unwrap()));
                    lemma_count_below(es, key@);
                }
                let (found, lb, len) = search_last_leaf(&path, key.as_slice());
                proof {
                    lemma_key_position(chunks, p, key@, lb as int);
                    lemma_lower_bound_unique(es, key@, count_below(es, key@), frame_offset(chunks, p, p.len() - 1) + lb);
                    let off = frame_offset(chunks, p, p.len() - 1);
                    let leaf = leaf_entries(p.last().1);
                    if lb == len && off + lb < es.len() {
                        assert(lex_lt(key@, es[off + lb].key));
                        crate::keys::lemma_lex_lt_irreflexive(key@);
                    }
                    if lb < len {
                        assert(leaf[lb as int] == es[off + lb]);
                    }
                }
                if !args.reverse {
                    current_leaf_entry_idx = lb;
                } else {
                    current_leaf_entry_idx = if found {
                        lb
                    } else {
                        lb.saturating_sub(1)
                    };
                    if len == 0 {
                        current_leaf_entry_idx = usize::MAX;
                    } else if current_leaf_entry_idx >= len {
                        current_leaf_entry_idx = len - 1;
                    }
                }
            },
            None => {
                if !args.reverse {
                    match descend_leftmost(store, &mut path, root_hash, usize::MAX) {
                        Ok(()) => {},
                        Err(e) => return Err(e),
                    }
                    proof {
                        let p = path_view(path@);
                        assert(p[0] == p.take(1)[0]);
                    }
                } else {
                    match descend_rightmost(store, &mut path, root_hash, usize::MAX) {
                        Ok(()) => {},
                        Err(e) => return Err(e),
                    }
                    let ghost p = path_view(path@);
                    proof {
                        assert(p[0] == p.take(1)[0]);
                        lemma_leaf_slice(chunks, p);
                    }
                    let (_, _, len) = search_last_leaf(&path, &[]);
                    current_leaf_entry_idx = len.saturating_sub(1);
                    if len == 0 {
                        current_leaf_entry_idx = usize::MAX;
                    }
                }
            },
        }
        let c = Cursor { store, config, path, current_leaf_entry_idx, tree_entries: Ghost(es) };
        proof {
            c.lemma_leaf();
        }
        Ok(c)
    }
}

} // verus!

verus! {

impl<'a, S: ChunkStore> Cursor<'a, S> {
    /// Moves a forward walk `offset` entries on, stopping at the end.
    fn skip_forward(&mut self, offset: u64) -> (r: Result<()>)
        requires
            old(self).inv_fwd(),
        ensures
            final(self).entries() == old(self).entries(),
            final(self).chunks() == old(self).chunks(),
            r is Ok ==> {
                &&& final(self).inv_fwd()
                &&& final(self).fwd_pos() == skip_fwd(
                    old(self).fwd_pos(),
                    old(self).entries().len() as int,
                    offset as int,
                )
                &&& offset == 0 ==> *final(self) == *old(self)
                &&& offset > 0 && final(self).has_leaf() ==> final(self).leaf_index() < final(self).leaf_len()
            },
            !old(self).has_leaf() ==> r is Ok && !final(self).has_leaf(),
        old(self).reliable() ==> r is Ok,
        final(self).reliable() == old(self).reliable(),
    {
        proof {
            if self.path@.len() > 0 {
                self.lemma_leaf();
            }
        }
        if offset == 0 {
            return Ok(());
        }
        let ghost p0 = self.fwd_pos();
        let ghost n = self.entries().len() as int;
        proof {
            if self.path@.len() > 0 {
                self.lemma_leaf();
            }
        }
        let mut remaining_offset: u64 = offset;
        while remaining_offset > 0 && self.path.len() > 0
            invariant
                self.inv_fwd(),
                self.entries() == old(self).entries(),
                self.chunks() == old(self).chunks(),
                self.store == old(self).store,
                n == self.entries().len(),
                p0 == old(self).fwd_pos(),
                p0 <= n,
                offset > 0,
                !old(self).has_leaf() ==> !self.has_leaf(),
                remaining_offset <= offset,
                self.fwd_pos() == skip_fwd(p0, n, offset - remaining_offset),
                self.has_leaf() && self.leaf_index() >= self.leaf_len() ==> remaining_offset == offset,
            decreases remaining_offset, (if self.path@.len() > 0 && self.current_leaf_entry_idx >= self.leaf_len() {
                1int
            } else {
                0int
            }),
        {
            proof {
                self.lemma_leaf();
            }
            let entries_in_current_leaf = match self.current_leaf_len() {
                Ok(len) => len,
                Err(e) => return Err(e),
            };
            if self.current_leaf_entry_idx >= entries_in_current_leaf {
                match advance_cursor_path_to_next_leaf_static(&mut self.path, self.store) {
                    Ok(true) => {
                        self.current_leaf_entry_idx = 0;
                        proof {
                            self.lemma_leaf();
                        }
                    },
                    Ok(false) => {
                        remaining_offset = 0;
                        self.current_leaf_entry_idx = entries_in_current_leaf;
                    },
                    Err(e) => return Err(e),
                }
            } else {
                let remaining_in_leaf = entries_in_current_leaf - self.current_leaf_entry_idx;
                if remaining_offset < remaining_in_leaf as u64 {
                    self.current_leaf_entry_idx = self.current_leaf_entry_idx + remaining_offset as usize;
                    remaining_offset = 0;
                } else {
                    remaining_offset = remaining_offset - remaining_in_leaf as u64;
                    self.current_leaf_entry_idx = entries_in_current_leaf;
                    match advance_cursor_path_to_next_leaf_static(&mut self.path, self.store) {
                        Ok(true) => {
                            self.current_leaf_entry_idx = 0;
                            proof {
                                self.lemma_leaf();
                            }
                        },
                        Ok(false) => {
                            remaining_offset = 0;
                        },
                        Err(e) => return Err(e),
                    }
                }
            }
        }
        if remaining_offset > 0 && self.path.len() > 0 {
            match self.current_leaf_len() {
                Ok(len) => {
                    self.current_leaf_entry_idx = len;
                },
                Err(e) => return Err(e),
            }
        }
        Ok(())
    }

    /// One step of a backward skip with `remaining` entries left to skip:
    /// within the leaf if it holds enough, else to the previous leaf's last
    /// entry. Returns what is left to skip.
    fn skip_backward_step(&mut self, remaining_offset: u64) -> (r: Result<u64>)
        requires
            old(self).inv_rev(),
            old(self).has_leaf(),
            old(self).leaf_index() < old(self).leaf_len(),
            remaining_offset > 0,
        ensures
            final(self).entries() == old(self).entries(),
            final(self).chunks() == old(self).chunks(),
            r matches Ok(rest) ==> {
                &&& final(self).inv_rev()
                &&& rest < remaining_offset
                &&& final(self).rev_pos() == skip_rev(old(self).rev_pos(), remaining_offset - rest)
                &&& final(self).has_leaf() ==> final(self).leaf_index() < final(self).leaf_len()
                &&& rest > 0 ==> final(self).has_leaf()
            },
        old(self).reliable() ==> r is Ok,
        final(self).reliable() == old(self).reliable(),
    {
        proof {
            self.lemma_leaf();
        }
        let len = match self.current_leaf_len() {
            Ok(len) => len,
            Err(e) => return Err(e),
        };
        let available_to_move_back_in_leaf = self.current_leaf_entry_idx + 1;
        if remaining_offset < available_to_move_back_in_leaf as u64 {
            self.current_leaf_entry_idx = self.current_leaf_entry_idx - remaining_offset as usize;
            Ok(0)
        } else {
            let rest = remaining_offset - available_to_move_back_in_leaf as u64;
            let ghost off = self.leaf_offset();
            proof {
                assert(remaining_offset - rest == self.leaf_index() + 1);
            }
            match self.advance_to_prev_leaf() {
                Ok(true) => {
                    proof {
                        self.lemma_leaf();
                    }
                    Ok(rest)
                },
                Ok(false) => {
                    self.current_leaf_entry_idx = usize::MAX;
                    Ok(0)
                },
                Err(e) => Err(e),
            }
        }
    }

    /// Moves a backward walk `offset` entries back, stopping before the start.
    fn skip_backward(&mut self, offset: u64) -> (r: Result<()>)
        requires
            old(self).inv_rev(),
            old(self).has_leaf() ==> old(self).leaf_index() < old(self).leaf_len(),
        ensures
            final(self).entries() == old(self).entries(),
            final(self).chunks() == old(self).chunks(),
            r is Ok ==> {
                &&& final(self).inv_rev()
                &&& final(self).rev_pos() == skip_rev(old(self).rev_pos(), offset as int)
                &&& final(self).has_leaf() ==> final(self).leaf_index() < final(self).leaf_len()
            },
            !old(self).has_leaf() ==> r is Ok && !final(self).has_leaf(),
        old(self).reliable() ==> r is Ok,
        final(self).reliable() == old(self).reliable(),
    {
        let ghost r0 = self.rev_pos();
        proof {
            if self.path@.len() > 0 {
                self.lemma_leaf();
            }
        }
        let mut remaining_offset: u64 = offset;
        while remaining_offset > 0 && self.path.len() > 0
            invariant
                self.inv_rev(),
                self.entries() == old(self).entries(),
                self.chunks() == old(self).chunks(),
                r0 == old(self).rev_pos(),
                remaining_offset <= offset,
                !old(self).has_leaf() ==> !self.has_leaf(),
                self.reliable() == old(self).reliable(),
                self.rev_pos() == skip_rev(r0, offset - remaining_offset),
                self.has_leaf() ==> self.leaf_index() < self.leaf_len(),
            decreases remaining_offset,
        {
            proof {
                self.lemma_leaf();
            }
            let ghost before = self.rev_pos();
            let rest = match self.skip_backward_step(remaining_offset) {
                Ok(rest) => rest,
                Err(e) => return Err(e),
            };
            remaining_offset = rest;
        }
        if remaining_offset > 0 && self.path.len() > 0 {
            self.current_leaf_entry_idx = usize::MAX;
        }
        Ok(())
    }
}

} // verus!

verus! {

impl<'a, S: ChunkStore> Cursor<'a, S> {
    /// Whether entry `idx` of the current leaf exists and has key `key`.
    fn leaf_key_equals(&self, idx: usize, key: &[u8]) -> (r: Result<bool>)
        requires
            self.path_ok(),
            self.has_leaf(),
        ensures
            r matches Ok(b) ==> b == (idx < self.leaf_len() && self.entries()[self.leaf_offset() + idx].key == key@),
        r is Ok,
    {
        proof {
            self.lemma_leaf();
            lemma_path_view_pop(self.path@);
        }
        let n = self.path.len();
        match &self.path[n - 1].1 {
            Node::Leaf { entries, .. } => {
                proof {
                    assert(entries_view(entries@) == leaf_entries(self.path_model().last().1));
                }
                if idx < entries.len() {
                    proof {
                        assert(entries_view(entries@)[idx as int] == entries@[idx as int]@);
                    }
                    match compare_keys(entries[idx].key.as_slice(), key) {
                        KeyOrder::Equal => Ok(true),
                        _ => Ok(false),
                    }
                } else {
                    Ok(false)
                }
            },
            Node::Internal { .. } => Err(ProllyError::InternalError("Cursor path did not end in a leaf node".to_string())),
        }
    }

    /// A cursor for a scan: at the first entry the scan looks at, found
    /// from the start bound, moved by the offset, and moved past the start
    /// bound's own entry when that bound is exclusive. Going backward, the
    /// search for the start bound takes at each internal node the first
    /// child whose boundary is not below it, else the last child.
    pub fn new_for_scan(tree: &'a ProllyTree<S>, args: &ScanArgs) -> (r: Result<Self>)
        requires
            tree.wf(),
        ensures
            r matches Ok(c) ==> {
                let es = tree.entries().unwrap();
                let rs = tree_route_start(tree.store.chunks(), tree.root_view(), opt_key(args.start_bound).unwrap());
                &&& c.entries() == es
                &&& c.chunks() == tree.store.chunks()
                &&& !args.reverse ==> c.inv_fwd() && c.fwd_pos() == scan_start(es, *args, rs)
                &&& args.reverse ==> c.inv_rev() && c.rev_pos() == scan_start(es, *args, rs)
                &&& c.scan_inv(args.reverse)
                &&& c.scan_pos(args.reverse) == scan_start(es, *args, rs)
            },
            tree.root_hash is None ==> (r matches Ok(c) && !c.has_leaf()),
        tree.store.reliable() ==> (r matches Ok(c) && c.reliable()),
    {
        let mut c = match Self::seek_for_scan(tree, args) {
            Ok(c) => c,
            Err(e) => return Err(e),
        };
        let ghost es = c.entries();
        let ghost sb = opt_key(args.start_bound);
        if !args.reverse {
            let ghost c1 = c;
            match c.skip_forward(args.offset) {
                Ok(()) => {},
                Err(e) => return Err(e),
            }
            proof {
                if c.path@.len() > 0 {
                    c.lemma_leaf();
                }
            }
            if c.path.len() > 0 {
                if let Some(sb_val) = &args.start_bound {
                    let idx = c.current_leaf_entry_idx;
                    let eq = match c.leaf_key_equals(idx, sb_val.as_slice()) {
                        Ok(b) => b,
                        Err(e) => return Err(e),
                    };
                    proof {
                        if idx >= c.leaf_len() && c.fwd_pos() < es.len() {
                            assert(args.offset == 0);
                            assert(c1.fwd_stop_ok(sb));
                            crate::keys::lemma_lex_lt_irreflexive(sb_val@);
                        }
                    }
                    if eq && !args.start_inclusive {
                        c.current_leaf_entry_idx = c.current_leaf_entry_idx.saturating_add(1);
                    }
                }
            }
        } else {
            match c.skip_backward(args.offset) {
                Ok(()) => {},
                Err(e) => return Err(e),
            }
            proof {
                if c.path@.len() > 0 {
                    c.lemma_leaf();
                }
            }
            if c.path.len() > 0 {
                if let Some(sb_val) = &args.start_bound {
                    let idx = c.current_leaf_entry_idx;
                    let eq = match c.leaf_key_equals(idx, sb_val.as_slice()) {
                        Ok(b) => b,
                        Err(e) => return Err(e),
                    };
                    if idx != usize::MAX && eq && !args.start_inclusive {
                        if idx == 0 {
                            c.current_leaf_entry_idx = usize::MAX;
                        } else {
                            c.current_leaf_entry_idx = idx - 1;
                        }
                    }
                }
            }
        }
        Ok(c)
    }

    /// The position of the next entry in the scan's direction.
    pub closed spec fn scan_pos(&self, reverse: bool) -> int {
        if reverse {
            self.rev_pos()
        } else {
            self.fwd_pos()
        }
    }

    /// Well formed for a walk in the scan's direction.
    pub closed spec fn scan_inv(&self, reverse: bool) -> bool {
        if reverse {
            self.inv_rev()
        } else {
            self.inv_fwd()
        }
    }
}

} // verus!

verus! {

impl<'a, S: ChunkStore> Cursor<'a, S> {
    /// The key of entry `idx` of the current leaf, when there is one.
    fn leaf_entry_key(&self, idx: usize) -> (r: Result<Option<Key>>)
        requires
            self.path_ok(),
            self.has_leaf(),
        ensures
            r matches Ok(o) && match o {
                Some(k) => idx < self.leaf_len() && k@ == self.entries()[self.leaf_offset() + idx].key,
                None => idx >= self.leaf_len(),
            },
    {
        proof {
            self.lemma_leaf();
            lemma_path_view_pop(self.path@);
        }
        let n = self.path.len();
        match &self.path[n - 1].1 {
            Node::Leaf { entries, .. } => {
                proof {
                    assert(entries_view(entries@) == leaf_entries(self.path_model().last().1));
                }
                if idx < entries.len() {
                    let e = &entries[idx];
                    proof {
                        assert(entries_view(entries@)[idx as int] == e@);
                    }
                    let key = copy_range(e.key.as_slice(), 0, e.key.len());
                    proof {
                        assert(key@ =~= e.key@);
                    }
                    Ok(Some(key))
                } else {
                    Ok(None)
                }
            },
            Node::Internal { .. } => Err(ProllyError::InternalError("Cursor path top was not a LeafNode during next_in_scan".to_string())),
        }
    }

    /// The value of entry `idx` of the current leaf.
    fn leaf_entry_value(&self, idx: usize) -> (r: Result<Value>)
        requires
            self.path_ok(),
            self.has_leaf(),
            idx < self.leaf_len(),
        ensures
            ({
                let v = self.entries()[self.leaf_offset() + idx].value;
                &&& r matches Ok(b) ==> resolve_value(self.chunks(), v) == Some(b@)
                &&& resolve_value(self.chunks(), v) is None ==> r is Err
            }),
        self.store.reliable() && resolve_value(self.chunks(), self.entries()[self.leaf_offset() + idx].value) is Some ==> r is Ok,
    {
        proof {
            self.lemma_leaf();
            lemma_path_view_pop(self.path@);
        }
        let n = self.path.len();
        match &self.path[n - 1].1 {
            Node::Leaf { entries, .. } => {
                proof {
                    assert(entries_view(entries@) == leaf_entries(self.path_model().last().1));
                    assert(entries_view(entries@)[idx as int] == entries@[idx as int]@);
                }
                self.load_value_repr_from_store(&entries[idx].value)
            },
            Node::Internal { .. } => Err(ProllyError::InternalError("Cursor path top was not a LeafNode during next_in_scan".to_string())),
        }
    }

    /// Whether a key read by a scan is within the bounds the scan checks.
    fn within_scan_bounds(key: &[u8], args: &ScanArgs) -> (r: bool)
        ensures
            r == if !args.reverse {
                below_bound(key@, opt_key(args.end_bound), args.end_inclusive)
            } else {
                &&& below_bound(key@, opt_key(args.start_bound), args.start_inclusive)
                &&& above_bound(key@, opt_key(args.end_bound), args.end_inclusive)
            },
    {
        if !args.reverse {
            if let Some(eb) = &args.end_bound {
                match compare_keys(key, eb.as_slice()) {
                    KeyOrder::Greater => {
                        proof {
                            crate::keys::lemma_lex_lt_asymmetric(eb@, key@);
                            crate::keys::lemma_lex_lt_irreflexive(key@);
                        }
                        return false;
                    },
                    KeyOrder::Equal => {
                        if !args.end_inclusive {
                            proof {
                                crate::keys::lemma_lex_lt_irreflexive(key@);
                            }
                            return false;
                        }
                    },
                    KeyOrder::Less => {},
                }
            }
        } else {
            if let Some(sb) = &args.start_bound {
                match compare_keys(key, sb.as_slice()) {
                    KeyOrder::Greater => {
                        proof {
                            crate::keys::lemma_lex_lt_asymmetric(sb@, key@);
                            crate::keys::lemma_lex_lt_irreflexive(key@);
                        }
                        return false;
                    },
                    KeyOrder::Equal => {
                        if !args.start_inclusive {
                            proof {
                                crate::keys::lemma_lex_lt_irreflexive(key@);
                            }
                            return false;
                        }
                    },
                    KeyOrder::Less => {},
                }
            }
            if let Some(eb) = &args.end_bound {
                match compare_keys(key, eb.as_slice()) {
                    KeyOrder::Less => {
                        proof {
                            crate::keys::lemma_lex_lt_asymmetric(key@, eb@);
                            crate::keys::lemma_lex_lt_irreflexive(key@);
                        }
                        return false;
                    },
                    KeyOrder::Equal => {
                        if !args.end_inclusive {
                            proof {
                                crate::keys::lemma_lex_lt_irreflexive(key@);
                            }
                            return false;
                        }
                    },
                    KeyOrder::Greater => {},
                }
            }
        }
        true
    }

    /// Returns the next entry of the scan and moves past it, going forward
    /// or backward as `args.reverse` says. `Ok(None)` when the walk is over
    /// or the next entry is past a bound the scan checks (the end bound
    /// forward; both bounds backward); the cursor then stays where it is.
    pub fn next_in_scan(&mut self, args: &ScanArgs) -> (r: Result<Option<(Key, Value)>>)
        requires
            old(self).scan_inv(args.reverse),
        ensures
            final(self).entries() == old(self).entries(),
            final(self).chunks() == old(self).chunks(),
            r is Ok ==> final(self).scan_inv(args.reverse),
            r matches Ok(res) ==> ({
                let p = old(self).scan_pos(args.reverse);
                let es = old(self).entries();
                if scan_ok(es, p, *args) {
                    &&& res matches Some(kv) && kv.0@ == es[p].key && resolve_value(old(self).chunks(), es[p].value)
                        == Some(kv.1@)
                    &&& final(self).scan_pos(args.reverse) == scan_step(p, args.reverse)
                } else {
                    &&& res is None
                    &&& final(self).scan_pos(args.reverse) == p
                }
            }),
            scan_ok(old(self).entries(), old(self).scan_pos(args.reverse), *args) && resolve_value(
                old(self).chunks(),
                old(self).entries()[old(self).scan_pos(args.reverse)].value,
            ) is None ==> r is Err,
            !old(self).has_leaf() ==> (r matches Ok(None) && *final(self) == *old(self)),
        final(self).reliable() == old(self).reliable(),
        old(self).reliable() && values_resolve(old(self).chunks(), old(self).entries()) ==> r is Ok,
    {
        proof {
            if self.path@.len() > 0 {
                self.lemma_leaf();
            }
        }
        if self.path.len() == 0 {
            return Ok(None);
        }
        loop
            invariant
                old(self).has_leaf(),
                self.scan_inv(args.reverse),
                self.entries() == old(self).entries(),
                self.chunks() == old(self).chunks(),
                self.store == old(self).store,
                self.scan_pos(args.reverse) == old(self).scan_pos(args.reverse),
                -1 <= self.scan_pos(args.reverse) <= self.entries().len(),
                args.reverse ==> self.rev_pos() < self.entries().len(),
            decreases (if self.path@.len() > 0 && (if args.reverse {
                self.current_leaf_entry_idx == usize::MAX
            } else {
                self.current_leaf_entry_idx >= self.leaf_len()
            }) {
                1int
            } else {
                0int
            }),
        {
            if self.path.len() == 0 {
                return Ok(None);
            }
            proof {
                self.lemma_leaf();
            }
            let idx = self.current_leaf_entry_idx;
            let key_opt = if !args.reverse || idx != usize::MAX {
                match self.leaf_entry_key(idx) {
                    Ok(o) => o,
                    Err(e) => return Err(e),
                }
            } else {
                None
            };
            match key_opt {
                Some(key) => {
                    if !Self::within_scan_bounds(key.as_slice(), args) {
                        return Ok(None);
                    }
                    let value = match self.leaf_entry_value(idx) {
                        Ok(v) => v,
                        Err(e) => return Err(e),
                    };
                    if !args.reverse {
                        self.current_leaf_entry_idx = idx + 1;
                    } else {
                        if idx == 0 {
                            self.current_leaf_entry_idx = usize::MAX;
                        } else {
                            self.current_leaf_entry_idx = idx - 1;
                        }
                    }
                    return Ok(Some((key, value)));
                },
                None => {
                    let advanced = if !args.reverse {
                        match advance_cursor_path_to_next_leaf_static(&mut self.path, self.store) {
                            Ok(b) => b,
                            Err(e) => return Err(e),
                        }
                    } else {
                        match advance_cursor_path_to_prev_leaf_static(&mut self.path, self.store) {
                            Ok(b) => b,
                            Err(e) => return Err(e),
                        }
                    };
                    if !advanced {
                        return Ok(None);
                    }
                    proof {
                        self.lemma_leaf();
                    }
                    let new_len = match self.current_leaf_len() {
                        Ok(n) => n,
                        Err(e) => return Err(e),
                    };
                    self.current_leaf_entry_idx = if !args.reverse {
                        0
                    } else {
                        new_len.saturating_sub(1)
                    };
                    if args.reverse && new_len == 0 {
                        self.current_leaf_entry_idx = usize::MAX;
                    }
                },
            }
        }
    }
}

} // verus!
