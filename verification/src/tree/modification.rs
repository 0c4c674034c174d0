//! Rebalancing after a delete: borrowing from a sibling, or merging with one.
use vstd::prelude::*;
use crate::error::{ProllyError, Result};
use crate::node::definition::{
    children_view, entries_view, ChildModel, EntryModel, InternalEntry, Node, NodeModel,
};
use crate::store::ChunkStore;
use super::core_logic::sum_item_counts;
use super::io::{load_node, store_grew, store_node_and_get_key_hash_pair};
use super::model::{
    child_ok, children_ok, flat_concat, lemma_child_ok_mono, lemma_children_flat_char,
    lemma_children_ok_add, lemma_children_ok_sub, lemma_flat_concat_add, lemma_flat_concat_one,
    lemma_flat_concat_two, lemma_flat_last, lemma_node_content_mono, lemma_pair_context,
    lemma_replace_pair, lemma_sorted_split, lemma_subtree_node_content, lemma_subtree_shape,
    lemma_sum_counts_len, lemma_submap_trans, node_content, sorted_entries, subtree, sum_counts,
    lemma_node_at_mono, node_at,
};

verus! {

/// The number of items below a node: its entries for a leaf, the sum of
/// its children's sizes for an internal node (`None` if that overflows).
pub fn node_item_count(node: &Node) -> (r: Option<u64>)
    ensures
        match node@ {
            NodeModel::Leaf { entries, .. } => r == Some(entries.len() as u64) && entries.len()
                <= u64::MAX,
            NodeModel::Internal { children, .. } => match r {
                Some(t) => t == sum_counts(children),
                None => sum_counts(children) > u64::MAX,
            },
        },
{
    match node {
        Node::Leaf { entries, .. } => Some(entries.len() as u64),
        Node::Internal { children, .. } => sum_item_counts(children),
    }
}

/// The size a node's item count stands for is the number of its entries.
pub proof fn lemma_node_count(chunks: Map<Seq<u8>, Seq<u8>>, n: NodeModel, level: nat)
    requires
        node_content(chunks, n, level) is Some,
    ensures
        node_content(chunks, n, level).unwrap().len() == match n {
            NodeModel::Leaf { entries, .. } => entries.len(),
            NodeModel::Internal { children, .. } => sum_counts(children),
        },
{
    match n {
        NodeModel::Internal { children, .. } => {
            lemma_children_flat_char(chunks, children, (level - 1) as nat);
            lemma_sum_counts_len(chunks, children, (level - 1) as nat);
        },
        _ => {},
    }
}

/// An internal node's content is the concatenation of well-formed children
/// whose entries are sorted.
pub proof fn lemma_internal_content(chunks: Map<Seq<u8>, Seq<u8>>, l: u8, cs: Seq<ChildModel>, level: nat)
    ensures
        node_content(chunks, NodeModel::Internal { level: l, children: cs }, level) == if level > 0
            && l == level && cs.len() > 0 && children_ok(chunks, cs, (level - 1) as nat) && sorted_entries(
            flat_concat(chunks, cs, (level - 1) as nat),
        ) {
            Some(flat_concat(chunks, cs, (level - 1) as nat))
        } else {
            None::<Seq<EntryModel>>
        },
{
    lemma_children_flat_char(chunks, cs, (level - 1) as nat);
}

/// Stores a node that belongs at `level` and returns the parent's entry
/// for it, with `count` as its size.
pub fn store_child_node<S: ChunkStore>(
    store: &mut S,
    node: &Node,
    count: u64,
    Ghost(c_ref): Ghost<Map<Seq<u8>, Seq<u8>>>,
    Ghost(level): Ghost<nat>,
) -> (r: Result<InternalEntry>)
    requires
        old(store).inv(),
        c_ref.submap_of(old(store).chunks()),
        node@.num_entries() > 0 ==> (node_content(c_ref, node@, level) matches Some(es) && es.len()
            == count),
    ensures
        final(store).inv(),
        store_grew(old(store).chunks(), final(store).chunks()),
        r matches Ok(e) ==> {
            &&& node_content(c_ref, node@, level) is Some
            &&& child_ok(final(store).chunks(), e@, level)
            &&& subtree(final(store).chunks(), e@.hash, level) == node_content(c_ref, node@, level)
            &&& node_at(final(store).chunks(), e@.hash) == Some(node@)
        },
    final(store).refusals() >= old(store).refusals(),
    final(store).reliable() == old(store).reliable(),
    old(store).reliable() && r is Err ==> final(store).refusals() > old(store).refusals() || node@.num_entries() == 0,
{
    let ghost c0 = store.chunks();
    let (k, h) = match store_node_and_get_key_hash_pair(store, node) {
        Ok(x) => x,
        Err(e) => return Err(e),
    };
    let e = InternalEntry { boundary_key: k, child_hash: h, num_items_subtree: count };
    proof {
        let c1 = store.chunks();
        lemma_submap_trans(c_ref, c0, c1);
        lemma_node_content_mono(c_ref, c1, node@, level);
        lemma_subtree_node_content(c1, h@, level);
        lemma_subtree_shape(c1, h@, level);
        match node@ {
            NodeModel::Internal { level: l, children } => {
                lemma_internal_content(c1, l, children, level);
                lemma_flat_last(c1, children, (level - 1) as nat);
            },
            _ => {},
        }
    }
    Ok(e)
}

// ---------------- moving entries between neighbours ----------------

/// A leaf's last entry moved to the front of its right neighbour.
proof fn lemma_move_last_leaf(
    chunks: Map<Seq<u8>, Seq<u8>>,
    level: nat,
    ll: u8,
    le: Seq<EntryModel>,
    ul: u8,
    ue: Seq<EntryModel>,
)
    requires
        node_content(chunks, NodeModel::Leaf { level: ll, entries: le }, level) is Some,
        node_content(chunks, NodeModel::Leaf { level: ul, entries: ue }, level) is Some,
        sorted_entries(le + ue),
    ensures
        le.drop_last().len() > 0 ==> node_content(
            chunks,
            NodeModel::Leaf { level: ll, entries: le.drop_last() },
            level,
        ) == Some(le.drop_last()),
        node_content(chunks, NodeModel::Leaf { level: ul, entries: seq![le.last()] + ue }, level) == Some(
            seq![le.last()] + ue,
        ),
        le.drop_last() + (seq![le.last()] + ue) == le + ue,
{
    assert(le =~= le.drop_last() + seq![le.last()]);
    assert(le + ue =~= le.drop_last() + (seq![le.last()] + ue));
    lemma_sorted_split(le.drop_last(), seq![le.last()] + ue);
}

/// A leaf's first entry moved to the end of its left neighbour.
proof fn lemma_move_first_leaf(
    chunks: Map<Seq<u8>, Seq<u8>>,
    level: nat,
    ul: u8,
    ue: Seq<EntryModel>,
    rl: u8,
    re: Seq<EntryModel>,
)
    requires
        node_content(chunks, NodeModel::Leaf { level: ul, entries: ue }, level) is Some,
        node_content(chunks, NodeModel::Leaf { level: rl, entries: re }, level) is Some,
        sorted_entries(ue + re),
    ensures
        node_content(chunks, NodeModel::Leaf { level: ul, entries: ue.push(re[0]) }, level) == Some(
            ue.push(re[0]),
        ),
        re.drop_first().len() > 0 ==> node_content(
            chunks,
            NodeModel::Leaf { level: rl, entries: re.drop_first() },
            level,
        ) == Some(re.drop_first()),
        ue.push(re[0]) + re.drop_first() == ue + re,
{
    assert(re =~= seq![re[0]] + re.drop_first());
    assert(ue + re =~= ue.push(re[0]) + re.drop_first());
    lemma_sorted_split(ue.push(re[0]), re.drop_first());
}

/// An internal node's last child moved to the front of its right neighbour.
proof fn lemma_move_last_child(
    chunks: Map<Seq<u8>, Seq<u8>>,
    level: nat,
    ll: u8,
    lc: Seq<ChildModel>,
    ul: u8,
    uc: Seq<ChildModel>,
)
    requires
        node_content(chunks, NodeModel::Internal { level: ll, children: lc }, level) is Some,
        node_content(chunks, NodeModel::Internal { level: ul, children: uc }, level) is Some,
        sorted_entries(
            node_content(chunks, NodeModel::Internal { level: ll, children: lc }, level).unwrap()
                + node_content(chunks, NodeModel::Internal { level: ul, children: uc }, level).unwrap(),
        ),
    ensures
        ({
            let a = node_content(chunks, NodeModel::Internal { level: ll, children: lc }, level).unwrap();
            let b = node_content(chunks, NodeModel::Internal { level: ul, children: uc }, level).unwrap();
            let nu = node_content(
                chunks,
                NodeModel::Internal { level: ul, children: seq![lc.last()] + uc },
                level,
            );
            let nl = node_content(chunks, NodeModel::Internal { level: ll, children: lc.drop_last() }, level);
            &&& nu is Some
            &&& lc.drop_last().len() > 0 ==> (nl is Some && nl.unwrap() + nu.unwrap() == a + b)
        }),
{
    let lv = (level - 1) as nat;
    lemma_internal_content(chunks, ll, lc, level);
    lemma_internal_content(chunks, ul, uc, level);
    let dl = lc.drop_last();
    let nuc = seq![lc.last()] + uc;
    lemma_internal_content(chunks, ll, dl, level);
    lemma_internal_content(chunks, ul, nuc, level);
    let x = subtree(chunks, lc.last().hash, lv).unwrap();
    assert(child_ok(chunks, lc[lc.len() - 1], lv));
    lemma_children_ok_sub(chunks, lc, lc.len() - 1, lc.len() - 1, lv);
    assert(lc.take(lc.len() - 1) =~= dl);
    assert forall|i: int| 0 <= i < 1 implies child_ok(chunks, #[trigger] seq![lc.last()][i], lv) by {}
    lemma_children_ok_add(chunks, seq![lc.last()], uc, lv);
    lemma_flat_concat_add(chunks, seq![lc.last()], uc, lv);
    lemma_flat_concat_one(chunks, lc.last(), lv);
    let fd = flat_concat(chunks, dl, lv);
    let fu = flat_concat(chunks, uc, lv);
    assert(flat_concat(chunks, lc, lv) == fd + x);
    assert(fd + x + fu =~= fd + (x + fu));
    lemma_sorted_split(fd, x + fu);
}

/// An internal node's first child moved to the end of its left neighbour.
proof fn lemma_move_first_child(
    chunks: Map<Seq<u8>, Seq<u8>>,
    level: nat,
    ul: u8,
    uc: Seq<ChildModel>,
    rl: u8,
    rc: Seq<ChildModel>,
)
    requires
        node_content(chunks, NodeModel::Internal { level: ul, children: uc }, level) is Some,
        node_content(chunks, NodeModel::Internal { level: rl, children: rc }, level) is Some,
        sorted_entries(
            node_content(chunks, NodeModel::Internal { level: ul, children: uc }, level).unwrap()
                + node_content(chunks, NodeModel::Internal { level: rl, children: rc }, level).unwrap(),
        ),
    ensures
        ({
            let a = node_content(chunks, NodeModel::Internal { level: ul, children: uc }, level).unwrap();
            let b = node_content(chunks, NodeModel::Internal { level: rl, children: rc }, level).unwrap();
            let nu = node_content(chunks, NodeModel::Internal { level: ul, children: uc.push(rc[0]) }, level);
            let nr = node_content(chunks, NodeModel::Internal { level: rl, children: rc.drop_first() }, level);
            &&& nu is Some
            &&& rc.drop_first().len() > 0 ==> (nr is Some && nu.unwrap() + nr.unwrap() == a + b)
        }),
{
    let lv = (level - 1) as nat;
    lemma_internal_content(chunks, ul, uc, level);
    lemma_internal_content(chunks, rl, rc, level);
    let nuc = uc.push(rc[0]);
    let dr = rc.drop_first();
    lemma_internal_content(chunks, ul, nuc, level);
    lemma_internal_content(chunks, rl, dr, level);
    assert(child_ok(chunks, rc[0], lv));
    lemma_children_ok_sub(chunks, rc, 1, 1, lv);
    assert(rc.skip(1) =~= dr);
    assert forall|i: int| 0 <= i < 1 implies child_ok(chunks, #[trigger] seq![rc[0]][i], lv) by {}
    lemma_children_ok_add(chunks, uc, seq![rc[0]], lv);
    assert(uc + seq![rc[0]] =~= nuc);
    lemma_flat_concat_add(chunks, uc, seq![rc[0]], lv);
    lemma_flat_concat_one(chunks, rc[0], lv);
    assert(rc =~= seq![rc[0]] + dr);
    lemma_flat_concat_add(chunks, seq![rc[0]], dr, lv);
    let x = subtree(chunks, rc[0].hash, lv).unwrap();
    let fu = flat_concat(chunks, uc, lv);
    let fd = flat_concat(chunks, dr, lv);
    assert(fu + (x + fd) =~= (fu + x) + fd);
    lemma_sorted_split(fu + x, fd);
}

/// Two neighbouring internal nodes merged into one.
proof fn lemma_merge_children(
    chunks: Map<Seq<u8>, Seq<u8>>,
    level: nat,
    ll: u8,
    lc: Seq<ChildModel>,
    rl: u8,
    rc: Seq<ChildModel>,
)
    requires
        node_content(chunks, NodeModel::Internal { level: ll, children: lc }, level) is Some,
        node_content(chunks, NodeModel::Internal { level: rl, children: rc }, level) is Some,
        sorted_entries(
            node_content(chunks, NodeModel::Internal { level: ll, children: lc }, level).unwrap()
                + node_content(chunks, NodeModel::Internal { level: rl, children: rc }, level).unwrap(),
        ),
    ensures
        node_content(chunks, NodeModel::Internal { level: ll, children: lc + rc }, level) == Some(
            node_content(chunks, NodeModel::Internal { level: ll, children: lc }, level).unwrap()
                + node_content(chunks, NodeModel::Internal { level: rl, children: rc }, level).unwrap(),
        ),
{
    let lv = (level - 1) as nat;
    lemma_internal_content(chunks, ll, lc, level);
    lemma_internal_content(chunks, rl, rc, level);
    lemma_internal_content(chunks, ll, lc + rc, level);
    lemma_children_ok_add(chunks, lc, rc, lv);
    lemma_flat_concat_add(chunks, lc, rc, lv);
}

// ---------------- rewriting neighbours in the parent ----------------

/// The parent's children after a rewrite hold the same entries, well formed.
pub open spec fn same_children_entries(
    c0: Map<Seq<u8>, Seq<u8>>,
    cs0: Seq<ChildModel>,
    c1: Map<Seq<u8>, Seq<u8>>,
    cs1: Seq<ChildModel>,
    level: nat,
) -> bool {
    &&& children_ok(c1, cs1, level)
    &&& flat_concat(c1, cs1, level) == flat_concat(c0, cs0, level)
}

/// Two neighbouring children hold no more entries than all the children.
proof fn lemma_pair_len(chunks: Map<Seq<u8>, Seq<u8>>, cs: Seq<ChildModel>, level: nat, lo: int)
    requires
        children_ok(chunks, cs, level),
        0 <= lo,
        lo + 2 <= cs.len(),
    ensures
        subtree(chunks, cs[lo].hash, level).unwrap().len() + subtree(chunks, cs[lo + 1].hash, level).unwrap().len()
            <= flat_concat(chunks, cs, level).len(),
{
    crate::tree::model::lemma_children_split(chunks, cs, level, lo);
    assert(children_ok(chunks, cs.skip(lo + 1), level)) by {
        assert forall|i: int| 0 <= i < cs.skip(lo + 1).len() implies child_ok(chunks, #[trigger] cs.skip(lo + 1)[i], level) by {
            assert(cs.skip(lo + 1)[i] == cs[lo + 1 + i]);
        }
    }
    crate::tree::model::lemma_children_split(chunks, cs.skip(lo + 1), level, 0);
    assert(cs.skip(lo + 1)[0] == cs[lo + 1]);
}

/// Two stored nodes whose entries are those of children `lo` and `lo + 1`
/// can take their place in the parent.
proof fn lemma_pair_stored(
    c0: Map<Seq<u8>, Seq<u8>>,
    c1: Map<Seq<u8>, Seq<u8>>,
    c2: Map<Seq<u8>, Seq<u8>>,
    cs: Seq<ChildModel>,
    level: nat,
    lo: int,
    e1: ChildModel,
    e2: ChildModel,
)
    requires
        c0.submap_of(c2),
        c1.submap_of(c2),
        children_ok(c0, cs, level),
        0 <= lo,
        lo + 2 <= cs.len(),
        child_ok(c1, e1, level),
        child_ok(c2, e2, level),
        subtree(c1, e1.hash, level).unwrap() + subtree(c2, e2.hash, level).unwrap() == subtree(
            c0,
            cs[lo].hash,
            level,
        ).unwrap() + subtree(c0, cs[lo + 1].hash, level).unwrap(),
    ensures
        same_children_entries(c0, cs, c2, cs.take(lo) + seq![e1, e2] + cs.skip(lo + 2), level),
{
    lemma_child_ok_mono(c1, c2, e1, level);
    let n = seq![e1, e2];
    assert forall|i: int| 0 <= i < n.len() implies child_ok(c2, #[trigger] n[i], level) by {}
    lemma_flat_concat_two(c2, e1, e2, level);
    lemma_replace_pair(c0, c2, cs, level, lo, n);
}

/// Stores the rewritten neighbours `a` and `b` of children `li` and `li + 1`
/// and points the parent's entries at them.
#[verifier::rlimit(40)]
fn store_pair_in_parent<S: ChunkStore>(
    store: &mut S,
    parent_children_vec: &mut Vec<InternalEntry>,
    li: usize,
    a: Node,
    ac: u64,
    b: Node,
    bc: u64,
    Ghost(c0): Ghost<Map<Seq<u8>, Seq<u8>>>,
    Ghost(level): Ghost<nat>,
) -> (r: Result<()>)
    requires
        old(store).inv(),
        c0.submap_of(old(store).chunks()),
        li + 2 <= old(parent_children_vec)@.len(),
        children_ok(c0, children_view(old(parent_children_vec)@), level),
        a@.num_entries() > 0 ==> (node_content(c0, a@, level) matches Some(ea) && ea.len() == ac),
        b@.num_entries() > 0 ==> (node_content(c0, b@, level) matches Some(eb) && eb.len() == bc),
        a@.num_entries() > 0 && b@.num_entries() > 0 ==> node_content(c0, a@, level).unwrap()
            + node_content(c0, b@, level).unwrap() == subtree(
            c0,
            children_view(old(parent_children_vec)@)[li as int].hash,
            level,
        ).unwrap() + subtree(c0, children_view(old(parent_children_vec)@)[li + 1].hash, level).unwrap(),
    ensures
        final(store).inv(),
        store_grew(old(store).chunks(), final(store).chunks()),
        r is Ok ==> {
            &&& final(parent_children_vec)@.len() == old(parent_children_vec)@.len()
            &&& same_children_entries(
                c0,
                children_view(old(parent_children_vec)@),
                final(store).chunks(),
                children_view(final(parent_children_vec)@),
                level,
            )
            &&& forall|j: int|
                0 <= j < old(parent_children_vec)@.len() && j != li && j != li + 1
                    ==> #[trigger] final(parent_children_vec)@[j] == old(parent_children_vec)@[j]
            &&& node_at(final(store).chunks(), final(parent_children_vec)@[li as int].child_hash@)
                == Some(a@)
            &&& node_at(final(store).chunks(), final(parent_children_vec)@[li + 1].child_hash@)
                == Some(b@)
        },
        r is Err ==> final(parent_children_vec)@ == old(parent_children_vec)@,
        a@.num_entries() == 0 || b@.num_entries() == 0 ==> r is Err,
    final(store).refusals() >= old(store).refusals(),
    final(store).reliable() == old(store).reliable(),
    old(store).reliable() && r is Err ==> final(store).refusals() > old(store).refusals() || a@.num_entries() == 0 || b@.num_entries() == 0,
{
    let ghost cs = children_view(parent_children_vec@);
    let ghost cstart = store.chunks();
    let _n = parent_children_vec.len();
    let ri = li + 1;
    let e1 = match store_child_node(store, &a, ac, Ghost(c0), Ghost(level)) {
        Ok(e) => e,
        Err(e) => return Err(e),
    };
    let ghost c1 = store.chunks();
    proof {
        lemma_submap_trans(c0, cstart, c1);
    }
    let e2 = match store_child_node(store, &b, bc, Ghost(c0), Ghost(level)) {
        Ok(e) => e,
        Err(e) => {
            proof {
                lemma_submap_trans(cstart, c1, store.chunks());
            }
            return Err(e);
        },
    };
    proof {
        let c2 = store.chunks();
        lemma_submap_trans(cstart, c1, c2);
        lemma_submap_trans(c0, c1, c2);
        lemma_pair_stored(c0, c1, c2, cs, level, li as int, e1@, e2@);
        lemma_node_at_mono(c1, c2, e1@.hash);
    }
    parent_children_vec.set(li, e1);
    parent_children_vec.set(ri, e2);
    proof {
        assert(children_view(parent_children_vec@) =~= cs.take(li as int) + seq![e1@, e2@] + cs.skip(
            li + 2,
        ));
    }
    Ok(())
}

/// The two neighbours after the left one's last entry moved to the front of
/// the right one (nodes of different kinds stay as they are).
pub open spec fn borrow_last(l: NodeModel, u: NodeModel) -> (NodeModel, NodeModel) {
    match (l, u) {
        (NodeModel::Leaf { level: ll, entries: le }, NodeModel::Leaf { level: ul, entries: ue }) => (
            NodeModel::Leaf { level: ll, entries: le.drop_last() },
            NodeModel::Leaf { level: ul, entries: seq![le.last()] + ue },
        ),
        (
            NodeModel::Internal { level: ll, children: lc },
            NodeModel::Internal { level: ul, children: uc },
        ) => (
            NodeModel::Internal { level: ll, children: lc.drop_last() },
            NodeModel::Internal { level: ul, children: seq![lc.last()] + uc },
        ),
        _ => (l, u),
    }
}

/// The two neighbours after the right one's first entry moved to the end of
/// the left one (nodes of different kinds stay as they are).
pub open spec fn borrow_first(u: NodeModel, r: NodeModel) -> (NodeModel, NodeModel) {
    match (u, r) {
        (NodeModel::Leaf { level: ul, entries: ue }, NodeModel::Leaf { level: rl, entries: re }) => (
            NodeModel::Leaf { level: ul, entries: ue.push(re[0]) },
            NodeModel::Leaf { level: rl, entries: re.drop_first() },
        ),
        (
            NodeModel::Internal { level: ul, children: uc },
            NodeModel::Internal { level: rl, children: rc },
        ) => (
            NodeModel::Internal { level: ul, children: uc.push(rc[0]) },
            NodeModel::Internal { level: rl, children: rc.drop_first() },
        ),
        _ => (u, r),
    }
}

/// Moves the last entry of the left sibling to the front of the underflowing node.
fn rebalance_borrow_from_left<S: ChunkStore>(
    store: &mut S,
    parent_children_vec: &mut Vec<InternalEntry>,
    left_sibling_idx_in_parent: usize,
    underflow_node_idx_in_parent: usize,
    Ghost(level): Ghost<nat>,
) -> (r: Result<()>)
    requires
        old(store).inv(),
        left_sibling_idx_in_parent + 1 == underflow_node_idx_in_parent,
        underflow_node_idx_in_parent < old(parent_children_vec)@.len(),
        children_ok(old(store).chunks(), children_view(old(parent_children_vec)@), level),
        sorted_entries(flat_concat(old(store).chunks(), children_view(old(parent_children_vec)@), level)),
    ensures
        final(store).inv(),
        store_grew(old(store).chunks(), final(store).chunks()),
        r is Ok ==> {
            &&& final(parent_children_vec)@.len() == old(parent_children_vec)@.len()
            &&& same_children_entries(
                old(store).chunks(),
                children_view(old(parent_children_vec)@),
                final(store).chunks(),
                children_view(final(parent_children_vec)@),
                level,
            )
            &&& forall|j: int|
                0 <= j < old(parent_children_vec)@.len() && j != left_sibling_idx_in_parent && j != underflow_node_idx_in_parent
                    ==> #[trigger] final(parent_children_vec)@[j] == old(parent_children_vec)@[j]
            &&& (node_at(final(store).chunks(), final(parent_children_vec)@[left_sibling_idx_in_parent as int].child_hash@),
                node_at(final(store).chunks(), final(parent_children_vec)@[underflow_node_idx_in_parent as int].child_hash@)) == ({
                let p = borrow_last(
                    node_at(old(store).chunks(), old(parent_children_vec)@[left_sibling_idx_in_parent as int].child_hash@).unwrap(),
                    node_at(old(store).chunks(), old(parent_children_vec)@[underflow_node_idx_in_parent as int].child_hash@).unwrap(),
                );
                (Some(p.0), Some(p.1))
            })
        },
        r is Err ==> final(parent_children_vec)@ == old(parent_children_vec)@,
        node_at(old(store).chunks(), old(parent_children_vec)@[left_sibling_idx_in_parent as int].child_hash@).unwrap().num_entries()
            <= 1 ==> r is Err,
    final(store).refusals() >= old(store).refusals(),
    final(store).reliable() == old(store).reliable(),
    old(store).reliable() && r is Err ==> final(store).refusals() > old(store).refusals() || node_at(old(store).chunks(), old(parent_children_vec)@[left_sibling_idx_in_parent as int].child_hash@).unwrap().num_entries() <= 1 || subtree(old(store).chunks(), old(parent_children_vec)@[left_sibling_idx_in_parent as int].child_hash@, level).unwrap().len() + subtree(old(store).chunks(), old(parent_children_vec)@[underflow_node_idx_in_parent as int].child_hash@, level).unwrap().len() > u64::MAX,
{
    let ghost c0 = store.chunks();
    let ghost cs = children_view(parent_children_vec@);
    let li = left_sibling_idx_in_parent;
    let ui = underflow_node_idx_in_parent;
    proof {
        lemma_pair_context(c0, cs, level, li as int);
    }
    let left_node_obj = match load_node(store, &parent_children_vec[li].child_hash) {
        Ok(n) => n,
        Err(e) => return Err(e),
    };
    let underflow_node_obj = match load_node(store, &parent_children_vec[ui].child_hash) {
        Ok(n) => n,
        Err(e) => return Err(e),
    };
    proof {
        lemma_subtree_node_content(c0, cs[li as int].hash, level);
        lemma_subtree_node_content(c0, cs[ui as int].hash, level);
    }
    let (new_left, new_under) = match (left_node_obj, underflow_node_obj) {
        (Node::Leaf { level: ll, entries: mut left_entries }, Node::Leaf { level: ul, entries: mut underflow_entries }) => {
            let ghost lev = entries_view(left_entries@);
            let ghost uev = entries_view(underflow_entries@);
            let borrowed_entry = match left_entries.pop() {
                Some(e) => e,
                None => return Err(
                    ProllyError::InternalError("Attempted to borrow from empty left leaf sibling".to_string()),
                ),
            };
            underflow_entries.insert(0, borrowed_entry);
            proof {
                lemma_move_last_leaf(c0, level, ll, lev, ul, uev);
                assert(entries_view(left_entries@) =~= lev.drop_last());
                assert(entries_view(underflow_entries@) =~= seq![lev.last()] + uev);
            }
            (Node::Leaf { level: ll, entries: left_entries }, Node::Leaf { level: ul, entries: underflow_entries })
        },
        (Node::Internal { level: ll, children: mut left_children_entries }, Node::Internal { level: ul, children: mut underflow_children_entries }) => {
            let ghost lcv = children_view(left_children_entries@);
            let ghost ucv = children_view(underflow_children_entries@);
            let borrowed_child_internal_entry = match left_children_entries.pop() {
                Some(e) => e,
                None => return Err(
                    ProllyError::InternalError("Attempted to borrow from empty left internal sibling".to_string()),
                ),
            };
            underflow_children_entries.insert(0, borrowed_child_internal_entry);
            proof {
                lemma_move_last_child(c0, level, ll, lcv, ul, ucv);
                assert(children_view(left_children_entries@) =~= lcv.drop_last());
                assert(children_view(underflow_children_entries@) =~= seq![lcv.last()] + ucv);
            }
            (
                Node::Internal { level: ll, children: left_children_entries },
                Node::Internal { level: ul, children: underflow_children_entries },
            )
        },
        _ => return Err(
            ProllyError::InternalError("Mismatched node types during rebalance from left".to_string()),
        ),
    };
    let new_left_node_item_count = match node_item_count(&new_left) {
        Some(t) => t,
        None => {
            proof {
                lemma_node_count(c0, new_left@, level);
                lemma_node_count(c0, new_under@, level);
            }
            return Err(ProllyError::InternalError("item count overflow".to_string()));
        },
    };
    let new_underflow_node_item_count = match node_item_count(&new_under) {
        Some(t) => t,
        None => {
            proof {
                let a = subtree(c0, cs[li as int].hash, level).unwrap();
                let b = subtree(c0, cs[ui as int].hash, level).unwrap();
                assert(new_left@.num_entries() + 1 == node_at(c0, cs[li as int].hash).unwrap().num_entries());
                if new_left@.num_entries() > 0 {
                    lemma_node_count(c0, new_left@, level);
                    lemma_node_count(c0, new_under@, level);
                    let nl = node_content(c0, new_left@, level).unwrap();
                    let nu = node_content(c0, new_under@, level).unwrap();
                    assert(nl + nu == a + b);
                    assert(nu.len() > u64::MAX);
                    assert((nl + nu).len() == nl.len() + nu.len());
                    assert((a + b).len() == a.len() + b.len());
                }
            }
            return Err(ProllyError::InternalError("item count overflow".to_string()));
        },
    };
    proof {
        if new_left@.num_entries() > 0 {
            lemma_node_count(c0, new_left@, level);
        }
        lemma_node_count(c0, new_under@, level);
    }
    store_pair_in_parent(
        store,
        parent_children_vec,
        li,
        new_left,
        new_left_node_item_count,
        new_under,
        new_underflow_node_item_count,
        Ghost(c0),
        Ghost(level),
    )
}

/// Moves the first entry of the right sibling to the end of the underflowing node.
fn rebalance_borrow_from_right<S: ChunkStore>(
    store: &mut S,
    parent_children_vec: &mut Vec<InternalEntry>,
    underflow_node_idx_in_parent: usize,
    right_sibling_idx_in_parent: usize,
    Ghost(level): Ghost<nat>,
) -> (r: Result<()>)
    requires
        old(store).inv(),
        underflow_node_idx_in_parent + 1 == right_sibling_idx_in_parent,
        right_sibling_idx_in_parent < old(parent_children_vec)@.len(),
        children_ok(old(store).chunks(), children_view(old(parent_children_vec)@), level),
        sorted_entries(flat_concat(old(store).chunks(), children_view(old(parent_children_vec)@), level)),
    ensures
        final(store).inv(),
        store_grew(old(store).chunks(), final(store).chunks()),
        r is Ok ==> {
            &&& final(parent_children_vec)@.len() == old(parent_children_vec)@.len()
            &&& same_children_entries(
                old(store).chunks(),
                children_view(old(parent_children_vec)@),
                final(store).chunks(),
                children_view(final(parent_children_vec)@),
                level,
            )
            &&& forall|j: int|
                0 <= j < old(parent_children_vec)@.len() && j != underflow_node_idx_in_parent && j != right_sibling_idx_in_parent
                    ==> #[trigger] final(parent_children_vec)@[j] == old(parent_children_vec)@[j]
            &&& (node_at(final(store).chunks(), final(parent_children_vec)@[underflow_node_idx_in_parent as int].child_hash@),
                node_at(final(store).chunks(), final(parent_children_vec)@[right_sibling_idx_in_parent as int].child_hash@)) == ({
                let p = borrow_first(
                    node_at(old(store).chunks(), old(parent_children_vec)@[underflow_node_idx_in_parent as int].child_hash@).unwrap(),
                    node_at(old(store).chunks(), old(parent_children_vec)@[right_sibling_idx_in_parent as int].child_hash@).unwrap(),
                );
                (Some(p.0), Some(p.1))
            })
        },
        r is Err ==> final(parent_children_vec)@ == old(parent_children_vec)@,
        node_at(old(store).chunks(), old(parent_children_vec)@[right_sibling_idx_in_parent as int].child_hash@).unwrap().num_entries()
            <= 1 ==> r is Err,
    final(store).refusals() >= old(store).refusals(),
    final(store).reliable() == old(store).reliable(),
    old(store).reliable() && r is Err ==> final(store).refusals() > old(store).refusals() || node_at(old(store).chunks(), old(parent_children_vec)@[right_sibling_idx_in_parent as int].child_hash@).unwrap().num_entries() <= 1 || subtree(old(store).chunks(), old(parent_children_vec)@[underflow_node_idx_in_parent as int].child_hash@, level).unwrap().len() + subtree(old(store).chunks(), old(parent_children_vec)@[right_sibling_idx_in_parent as int].child_hash@, level).unwrap().len() > u64::MAX,
{
    let ghost c0 = store.chunks();
    let ghost cs = children_view(parent_children_vec@);
    let ui = underflow_node_idx_in_parent;
    let ri = right_sibling_idx_in_parent;
    proof {
        lemma_pair_context(c0, cs, level, ui as int);
    }
    let underflow_node_obj = match load_node(store, &parent_children_vec[ui].child_hash) {
        Ok(n) => n,
        Err(e) => return Err(e),
    };
    let right_node_obj = match load_node(store, &parent_children_vec[ri].child_hash) {
        Ok(n) => n,
        Err(e) => return Err(e),
    };
    proof {
        lemma_subtree_node_content(c0, cs[ui as int].hash, level);
        lemma_subtree_node_content(c0, cs[ri as int].hash, level);
    }
    let (new_under, new_right) = match (underflow_node_obj, right_node_obj) {
        (Node::Leaf { level: ul, entries: mut underflow_entries }, Node::Leaf { level: rl, entries: mut right_entries }) => {
            let ghost uev = entries_view(underflow_entries@);
            let ghost rev = entries_view(right_entries@);
            if right_entries.len() == 0 {
                return Err(
                    ProllyError::InternalError("Attempted to borrow from empty right leaf sibling".to_string()),
                );
            }
            let borrowed_entry = right_entries.remove(0);
            underflow_entries.push(borrowed_entry);
            proof {
                lemma_move_first_leaf(c0, level, ul, uev, rl, rev);
                assert(entries_view(underflow_entries@) =~= uev.push(rev[0]));
                assert(entries_view(right_entries@) =~= rev.drop_first());
            }
            (Node::Leaf { level: ul, entries: underflow_entries }, Node::Leaf { level: rl, entries: right_entries })
        },
        (Node::Internal { level: ul, children: mut underflow_children_entries }, Node::Internal { level: rl, children: mut right_children_entries }) => {
            let ghost ucv = children_view(underflow_children_entries@);
            let ghost rcv = children_view(right_children_entries@);
            if right_children_entries.len() == 0 {
                return Err(
                    ProllyError::InternalError("Attempted to borrow from empty right internal sibling".to_string()),
                );
            }
            let borrowed_child_internal_entry = right_children_entries.remove(0);
            underflow_children_entries.push(borrowed_child_internal_entry);
            proof {
                lemma_move_first_child(c0, level, ul, ucv, rl, rcv);
                assert(children_view(underflow_children_entries@) =~= ucv.push(rcv[0]));
                assert(children_view(right_children_entries@) =~= rcv.drop_first());
            }
            (
                Node::Internal { level: ul, children: underflow_children_entries },
                Node::Internal { level: rl, children: right_children_entries },
            )
        },
        _ => return Err(
            ProllyError::InternalError("Mismatched node types during rebalance from right".to_string()),
        ),
    };
    let new_underflow_node_item_count = match node_item_count(&new_under) {
        Some(t) => t,
        None => {
            proof {
                let a = subtree(c0, cs[ui as int].hash, level).unwrap();
                let b = subtree(c0, cs[ri as int].hash, level).unwrap();
                assert(new_right@.num_entries() + 1 == node_at(c0, cs[ri as int].hash).unwrap().num_entries());
                if new_right@.num_entries() > 0 {
                    lemma_node_count(c0, new_under@, level);
                    lemma_node_count(c0, new_right@, level);
                    let nu = node_content(c0, new_under@, level).unwrap();
                    let nr = node_content(c0, new_right@, level).unwrap();
                    assert(nu + nr == a + b);
                    assert((nu + nr).len() == nu.len() + nr.len());
                    assert((a + b).len() == a.len() + b.len());
                }
            }
            return Err(ProllyError::InternalError("item count overflow".to_string()));
        },
    };
    let new_right_node_item_count = match node_item_count(&new_right) {
        Some(t) => t,
        None => {
            proof {
                let a = subtree(c0, cs[ui as int].hash, level).unwrap();
                let b = subtree(c0, cs[ri as int].hash, level).unwrap();
                assert(new_right@.num_entries() + 1 == node_at(c0, cs[ri as int].hash).unwrap().num_entries());
                if new_right@.num_entries() > 0 {
                    lemma_node_count(c0, new_under@, level);
                    lemma_node_count(c0, new_right@, level);
                    let nu = node_content(c0, new_under@, level).unwrap();
                    let nr = node_content(c0, new_right@, level).unwrap();
                    assert(nu + nr == a + b);
                    assert((nu + nr).len() == nu.len() + nr.len());
                    assert((a + b).len() == a.len() + b.len());
                }
            }
            return Err(ProllyError::InternalError("item count overflow".to_string()));
        },
    };
    proof {
        lemma_node_count(c0, new_under@, level);
        if new_right@.num_entries() > 0 {
            lemma_node_count(c0, new_right@, level);
        }
    }
    store_pair_in_parent(
        store,
        parent_children_vec,
        ui,
        new_under,
        new_underflow_node_item_count,
        new_right,
        new_right_node_item_count,
        Ghost(c0),
        Ghost(level),
    )
}

/// A node with its right neighbour's entries appended (nodes of different
/// kinds: the left one unchanged).
pub open spec fn merge_nodes(l: NodeModel, r: NodeModel) -> NodeModel {
    match (l, r) {
        (NodeModel::Leaf { level: ll, entries: le }, NodeModel::Leaf { entries: re, .. }) =>
            NodeModel::Leaf { level: ll, entries: le + re },
        (NodeModel::Internal { level: ll, children: lc }, NodeModel::Internal { children: rc, .. }) =>
            NodeModel::Internal { level: ll, children: lc + rc },
        _ => l,
    }
}

/// Two neighbouring nodes of the same kind made into one: the left one's
/// entries followed by the right one's (`None` for nodes of different kinds).
fn merge_pair_nodes(l: Node, r: Node, Ghost(c0): Ghost<Map<Seq<u8>, Seq<u8>>>, Ghost(level): Ghost<nat>) -> (res: Option<Node>)
    requires
        node_content(c0, l@, level) is Some,
        node_content(c0, r@, level) is Some,
        sorted_entries(node_content(c0, l@, level).unwrap() + node_content(c0, r@, level).unwrap()),
    ensures
        res matches Some(m) ==> m@ == merge_nodes(l@, r@) && node_content(c0, m@, level) == Some(
            node_content(c0, l@, level).unwrap() + node_content(c0, r@, level).unwrap(),
        ),
        (l@ is Leaf) == (r@ is Leaf) ==> res is Some,
{
    match (l, r) {
        (Node::Leaf { level: ll, entries: mut left_entries }, Node::Leaf { entries: mut right_entries_to_append, .. }) => {
            let ghost lev = entries_view(left_entries@);
            let ghost rev = entries_view(right_entries_to_append@);
            left_entries.append(&mut right_entries_to_append);
            proof {
                assert(entries_view(left_entries@) =~= lev + rev);
            }
            Some(Node::Leaf { level: ll, entries: left_entries })
        },
        (Node::Internal { level: ll, children: mut left_children_entries }, Node::Internal { level: rl, children: mut right_children_to_append }) => {
            let ghost lcv = children_view(left_children_entries@);
            let ghost rcv = children_view(right_children_to_append@);
            left_children_entries.append(&mut right_children_to_append);
            proof {
                assert(children_view(left_children_entries@) =~= lcv + rcv);
                lemma_merge_children(c0, level, ll, lcv, rl, rcv);
            }
            Some(Node::Internal { level: ll, children: left_children_entries })
        },
        _ => None,
    }
}

/// Merges the node at `right_idx_in_parent` into the node at
/// `left_idx_in_parent`, which must be its left neighbour, and removes the
/// right one's entry from the parent.
#[verifier::spinoff_prover]
#[verifier::rlimit(100)]
fn merge_into_left_sibling_internal<S: ChunkStore>(
    store: &mut S,
    parent_children_vec: &mut Vec<InternalEntry>,
    left_idx_in_parent: usize,
    right_idx_in_parent: usize,
    Ghost(level): Ghost<nat>,
) -> (r: Result<()>)
    requires
        old(store).inv(),
        children_ok(old(store).chunks(), children_view(old(parent_children_vec)@), level),
        sorted_entries(flat_concat(old(store).chunks(), children_view(old(parent_children_vec)@), level)),
    ensures
        final(store).inv(),
        store_grew(old(store).chunks(), final(store).chunks()),
        r is Ok ==> {
            &&& final(parent_children_vec)@.len() + 1 == old(parent_children_vec)@.len()
            &&& same_children_entries(
                old(store).chunks(),
                children_view(old(parent_children_vec)@),
                final(store).chunks(),
                children_view(final(parent_children_vec)@),
                level,
            )
        },
        r is Ok ==> {
            &&& forall|j: int|
                0 <= j < left_idx_in_parent
                    ==> #[trigger] final(parent_children_vec)@[j] == old(parent_children_vec)@[j]
            &&& forall|j: int|
                right_idx_in_parent < j < old(parent_children_vec)@.len()
                    ==> final(parent_children_vec)@[j - 1] == #[trigger] old(parent_children_vec)@[j]
            &&& node_at(final(store).chunks(), final(parent_children_vec)@[left_idx_in_parent as int].child_hash@)
                == Some(
                merge_nodes(
                    node_at(old(store).chunks(), old(parent_children_vec)@[left_idx_in_parent as int].child_hash@).unwrap(),
                    node_at(old(store).chunks(), old(parent_children_vec)@[right_idx_in_parent as int].child_hash@).unwrap(),
                ),
            )
        },
        r is Err ==> final(parent_children_vec)@ == old(parent_children_vec)@,
        right_idx_in_parent == 0 || left_idx_in_parent != right_idx_in_parent - 1
            || right_idx_in_parent >= old(parent_children_vec)@.len() ==> r is Err,
    final(store).refusals() >= old(store).refusals(),
    final(store).reliable() == old(store).reliable(),
    old(store).reliable() && r is Err ==> final(store).refusals() > old(store).refusals() || right_idx_in_parent == 0 || left_idx_in_parent != right_idx_in_parent - 1 || right_idx_in_parent >= old(parent_children_vec)@.len() || subtree(old(store).chunks(), old(parent_children_vec)@[left_idx_in_parent as int].child_hash@, level).unwrap().len() + subtree(old(store).chunks(), old(parent_children_vec)@[right_idx_in_parent as int].child_hash@, level).unwrap().len() > u64::MAX,
{
    let ghost c0 = store.chunks();
    let ghost cs = children_view(parent_children_vec@);
    if right_idx_in_parent == 0 || left_idx_in_parent != right_idx_in_parent - 1 {
        return Err(ProllyError::InternalError("Attempted to merge non-adjacent siblings".to_string()));
    }
    if right_idx_in_parent >= parent_children_vec.len() {
        return Err(ProllyError::InternalError("Right sibling index is out of bounds".to_string()));
    }
    let li = left_idx_in_parent;
    let ri = right_idx_in_parent;
    proof {
        lemma_pair_context(c0, cs, level, li as int);
        assert(child_ok(c0, cs[li as int], level));
        assert(child_ok(c0, cs[ri as int], level));
    }
    let items_from_left_child_before_merge = parent_children_vec[li].num_items_subtree;
    let items_from_right_child_before_merge = parent_children_vec[ri].num_items_subtree;
    let left_node_obj = match load_node(store, &parent_children_vec[li].child_hash) {
        Ok(n) => n,
        Err(e) => return Err(e),
    };
    let right_node_to_merge_obj = match load_node(store, &parent_children_vec[ri].child_hash) {
        Ok(n) => n,
        Err(e) => return Err(e),
    };
    proof {
        lemma_subtree_node_content(c0, cs[li as int].hash, level);
        lemma_subtree_node_content(c0, cs[ri as int].hash, level);
    }
    let merged = match merge_pair_nodes(left_node_obj, right_node_to_merge_obj, Ghost(c0), Ghost(level)) {
        Some(n) => n,
        None => return Err(ProllyError::InternalError("Mismatched node types during merge".to_string())),
    };
    let total = match items_from_left_child_before_merge.checked_add(items_from_right_child_before_merge) {
        Some(t) => t,
        None => return Err(ProllyError::InternalError("item count overflow".to_string())),
    };
    let e = match store_child_node(store, &merged, total, Ghost(c0), Ghost(level)) {
        Ok(e) => e,
        Err(err) => return Err(err),
    };
    proof {
        let c1 = store.chunks();
        let n = seq![e@];
        assert forall|i: int| 0 <= i < n.len() implies child_ok(c1, #[trigger] n[i], level) by {}
        lemma_flat_concat_one(c1, e@, level);
        lemma_replace_pair(c0, c1, cs, level, li as int, n);
    }
    let ghost v0 = parent_children_vec@;
    parent_children_vec.set(li, e);
    parent_children_vec.remove(ri);
    proof {
        assert(children_view(parent_children_vec@) =~= cs.take(li as int) + seq![e@] + cs.skip(li + 2));
        assert(parent_children_vec@[li as int] == e);
        assert forall|j: int| ri < j < v0.len() implies parent_children_vec@[j - 1] == #[trigger] v0[j] by {}
    }
    Ok(())
}

/// Children `a` and `b = a + 1` of `v0` were replaced by the pair of nodes
/// `step` gives for their nodes; every other child is unchanged.
pub open spec fn pair_replaced(
    c0: Map<Seq<u8>, Seq<u8>>,
    v0: Seq<InternalEntry>,
    c1: Map<Seq<u8>, Seq<u8>>,
    v1: Seq<InternalEntry>,
    a: int,
    step: (NodeModel, NodeModel),
) -> bool {
    &&& v1.len() == v0.len()
    &&& forall|j: int| 0 <= j < v0.len() && j != a && j != a + 1 ==> #[trigger] v1[j] == v0[j]
    &&& node_at(c1, v1[a].child_hash@) == Some(step.0)
    &&& node_at(c1, v1[a + 1].child_hash@) == Some(step.1)
}

/// Children `a` and `a + 1` of `v0` were merged into one child at `a`.
pub open spec fn pair_merged(
    c0: Map<Seq<u8>, Seq<u8>>,
    v0: Seq<InternalEntry>,
    c1: Map<Seq<u8>, Seq<u8>>,
    v1: Seq<InternalEntry>,
    a: int,
) -> bool {
    &&& v1.len() + 1 == v0.len()
    &&& forall|j: int| 0 <= j < a ==> #[trigger] v1[j] == v0[j]
    &&& forall|j: int| a + 1 < j < v0.len() ==> v1[j - 1] == #[trigger] v0[j]
    &&& node_at(c1, v1[a].child_hash@) == Some(
        merge_nodes(node_at(c0, v0[a].child_hash@).unwrap(), node_at(c0, v0[a + 1].child_hash@).unwrap()),
    )
}

/// What fixing the underflowing child `u` does: borrow from the left
/// neighbour if it has more than `min_fanout` entries, else from the right
/// one if it has, else merge with the left neighbour, or with the right
/// one when `u` is the first child.
pub open spec fn underflow_fixed(
    c0: Map<Seq<u8>, Seq<u8>>,
    v0: Seq<InternalEntry>,
    c1: Map<Seq<u8>, Seq<u8>>,
    v1: Seq<InternalEntry>,
    u: int,
    min_fanout: usize,
) -> bool {
    let node = |i: int| node_at(c0, v0[i].child_hash@).unwrap();
    if u > 0 && node(u - 1).num_entries() > min_fanout {
        pair_replaced(c0, v0, c1, v1, u - 1, borrow_last(node(u - 1), node(u)))
    } else if u < v0.len() - 1 && node(u + 1).num_entries() > min_fanout {
        pair_replaced(c0, v0, c1, v1, u, borrow_first(node(u), node(u + 1)))
    } else if u > 0 {
        pair_merged(c0, v0, c1, v1, u - 1)
    } else {
        pair_merged(c0, v0, c1, v1, u)
    }
}

/// Fixes the underflowing child `underflow_child_idx`: borrows an entry
/// from a neighbour that can spare one (left first), else merges it with a
/// neighbour (left if there is one).
#[verifier::rlimit(40)]
pub fn handle_underflow_strategy<S: ChunkStore>(
    store: &mut S,
    config: &crate::common::TreeConfig,
    children: &mut Vec<InternalEntry>,
    underflow_child_idx: usize,
    Ghost(level): Ghost<nat>,
) -> (r: Result<()>)
    requires
        old(store).inv(),
        underflow_child_idx < old(children)@.len(),
        children_ok(old(store).chunks(), children_view(old(children)@), level),
        sorted_entries(flat_concat(old(store).chunks(), children_view(old(children)@), level)),
    ensures
        final(store).inv(),
        store_grew(old(store).chunks(), final(store).chunks()),
        r is Ok ==> {
            &&& final(children)@.len() > 0
            &&& final(children)@.len() == old(children)@.len() || final(children)@.len() + 1
                == old(children)@.len()
            &&& same_children_entries(
                old(store).chunks(),
                children_view(old(children)@),
                final(store).chunks(),
                children_view(final(children)@),
                level,
            )
        },
        r is Ok ==> underflow_fixed(
            old(store).chunks(),
            old(children)@,
            final(store).chunks(),
            final(children)@,
            underflow_child_idx as int,
            config.min_fanout,
        ),
        old(children)@.len() == 1 ==> r is Err,
    final(store).refusals() >= old(store).refusals(),
    final(store).reliable() == old(store).reliable(),
    old(store).reliable() && r is Err ==> final(store).refusals() > old(store).refusals() || old(children)@.len() == 1 || config.min_fanout == 0 || flat_concat(old(store).chunks(), children_view(old(children)@), level).len() > u64::MAX,
{
    let ghost cs = children_view(children@);
    let ghost c0 = store.chunks();
    proof {
        if underflow_child_idx > 0 {
            lemma_pair_len(c0, cs, level, underflow_child_idx - 1);
            assert(child_ok(c0, cs[underflow_child_idx - 1], level));
            crate::tree::model::lemma_subtree_level(c0, cs[underflow_child_idx - 1].hash, level);
        }
        if underflow_child_idx + 1 < cs.len() {
            lemma_pair_len(c0, cs, level, underflow_child_idx as int);
            assert(child_ok(c0, cs[underflow_child_idx + 1], level));
            crate::tree::model::lemma_subtree_level(c0, cs[underflow_child_idx + 1].hash, level);
        }
    }
    if underflow_child_idx > 0 {
        let left_sibling_idx = underflow_child_idx - 1;
        let left_sibling_node = match load_node(store, &children[left_sibling_idx].child_hash) {
            Ok(n) => n,
            Err(e) => return Err(e),
        };
        if left_sibling_node.num_entries() > config.min_fanout {
            return rebalance_borrow_from_left(store, children, left_sibling_idx, underflow_child_idx, Ghost(level));
        }
    }
    if underflow_child_idx < children.len() - 1 {
        let right_sibling_idx = underflow_child_idx + 1;
        let right_sibling_node = match load_node(store, &children[right_sibling_idx].child_hash) {
            Ok(n) => n,
            Err(e) => return Err(e),
        };
        if right_sibling_node.num_entries() > config.min_fanout {
            return rebalance_borrow_from_right(store, children, underflow_child_idx, right_sibling_idx, Ghost(level));
        }
    }
    if underflow_child_idx > 0 {
        let left_idx = underflow_child_idx - 1;
        let right_idx = underflow_child_idx;
        merge_into_left_sibling_internal(store, children, left_idx, right_idx, Ghost(level))
    } else {
        if children.len() <= 1 {
            return Err(ProllyError::InternalError("Underflow node has no sibling to merge with.".to_string()));
        }
        let left_idx = underflow_child_idx;
        let right_idx = underflow_child_idx + 1;
        merge_into_left_sibling_internal(store, children, left_idx, right_idx, Ghost(level))
    }
}

} // verus!
