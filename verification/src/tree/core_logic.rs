//! The recursive descents of get, insert and delete.
use vstd::prelude::*;
use crate::common::{Key, TreeConfig};
use crate::error::{ProllyError, Result};
use crate::keys::{lemma_lex_lt_asymmetric, lex_lt};
use crate::node::definition::{
    children_view, entries_view, ChildModel, EntryModel, InternalEntry, LeafEntry, Node, NodeModel,
    ValueRepr,
};
use crate::store::ChunkStore;
use super::io::{load_node, store_grew, store_node_and_get_key_hash_pair};
use super::model::{
    child_ok, children_ok, flat_concat, has_key, lemma_children_flat_char, lemma_flat_concat_one,
    lemma_flat_concat_two, lemma_leaf_node_ok, lemma_lookup_at, lemma_lookup_middle,
    lemma_lower_bound_absent, lemma_node_at_mono, lemma_route, lemma_seq_insert_after,
    lemma_seq_insert_at, lemma_seq_insert_before, lemma_seq_insert_sorted, lemma_sorted_split,
    lemma_splice_children, lemma_submap_trans, lemma_boundaries_sorted, lemma_children_halves,
    lemma_children_ok_mono, lemma_child_ok_mono, lemma_internal_node_ok, lookup, seq_insert,
    sorted_entries, subtree, sum_counts, lemma_has_key_outside, lemma_seq_remove_add,
    lemma_seq_remove_absent, lemma_seq_remove_at, lemma_seq_remove_sorted,
    lemma_subtree_node_content, lemma_flat_last, seq_remove, node_content, node_at,
    lemma_children_split, lemma_sum_counts_len,
};
use super::search::{route_child, search_boundaries, search_entries};
use super::modification::{
    handle_underflow_strategy, lemma_internal_content, lemma_node_count, store_child_node,
    underflow_fixed,
};
use super::types::{DeleteRecursionResult, ProcessedNodeUpdate};

verus! {

/// A copy of a value representation.
pub fn copy_value_repr(v: &ValueRepr) -> (r: ValueRepr)
    ensures
        r@ == v@,
{
    match v {
        ValueRepr::Inline(b) => ValueRepr::Inline(b.clone()),
        ValueRepr::Chunked(h) => ValueRepr::Chunked(*h),
        ValueRepr::ChunkedSequence { chunk_hashes, total_size } => {
            let mut hs: Vec<crate::common::Hash> = Vec::new();
            let mut i: usize = 0;
            while i < chunk_hashes.len()
                invariant
                    i <= chunk_hashes@.len(),
                    hs@ == chunk_hashes@.take(i as int),
                decreases chunk_hashes@.len() - i,
            {
                hs.push(chunk_hashes[i]);
                i = i + 1;
                assert(hs@ =~= chunk_hashes@.take(i as int));
            }
            assert(chunk_hashes@.take(i as int) =~= chunk_hashes@);
            ValueRepr::ChunkedSequence { chunk_hashes: hs, total_size: *total_size }
        },
    }
}

/// Finds the value representation stored for `key` below `node_hash`.
pub fn get_recursive_impl<S: ChunkStore>(
    store: &S,
    node_hash: crate::common::Hash,
    key: &Key,
    Ghost(level): Ghost<nat>,
) -> (r: Result<Option<ValueRepr>>)
    requires
        store.inv(),
        subtree(store.chunks(), node_hash@, level) is Some,
    ensures
        r matches Ok(o) ==> match o {
            Some(v) => lookup(subtree(store.chunks(), node_hash@, level).unwrap(), key@) == Some(v@),
            None => !has_key(subtree(store.chunks(), node_hash@, level).unwrap(), key@),
        },
        store.reliable() ==> r is Ok,
    decreases level,
{
    let ghost chunks = store.chunks();
    let ghost es = subtree(chunks, node_hash@, level).unwrap();
    let node = match load_node(store, &node_hash) {
        Ok(n) => n,
        Err(e) => return Err(e),
    };
    match node {
        Node::Leaf { entries, .. } => {
            let (found, idx) = search_entries(&entries, key.as_slice());
            if found {
                proof {
                    lemma_lookup_at(es, idx as int);
                }
                Ok(Some(copy_value_repr(&entries[idx].value)))
            } else {
                proof {
                    lemma_lower_bound_absent(es, key@, idx as int);
                }
                Ok(None)
            }
        },
        Node::Internal { children, .. } => {
            let ghost cs = children_view(children@);
            proof {
                lemma_children_flat_char(chunks, cs, (level - 1) as nat);
            }
            if children.len() == 0 {
                return Ok(None);
            }
            let i = route_child(&children, key.as_slice());
            proof {
                lemma_route(chunks, cs, (level - 1) as nat, i as int, key@);
                assert(child_ok(chunks, cs[i as int], (level - 1) as nat));
                lemma_lookup_middle(
                    flat_concat(chunks, cs.take(i as int), (level - 1) as nat),
                    subtree(chunks, cs[i as int].hash, (level - 1) as nat).unwrap(),
                    flat_concat(chunks, cs.skip(i + 1), (level - 1) as nat),
                    key@,
                );
            }
            get_recursive_impl(store, children[i].child_hash, key, Ghost((level - 1) as nat))
        },
    }
}

/// The update reports the new entries `es2` of the node it replaces: in
/// one well-formed node, or split into two whose entries follow each other.
pub open spec fn update_ok(chunks: Map<Seq<u8>, Seq<u8>>, u: ProcessedNodeUpdate, es2: Seq<EntryModel>, level: nat) -> bool {
    let left = ChildModel { boundary: u.new_boundary_key@, hash: u.new_hash@, count: u.new_item_count };
    match u.split_info {
        None => child_ok(chunks, left, level) && subtree(chunks, u.new_hash@, level) == Some(es2),
        Some((rk, rh, rc)) => {
            let right = ChildModel { boundary: rk@, hash: rh@, count: rc };
            &&& child_ok(chunks, left, level)
            &&& child_ok(chunks, right, level)
            &&& subtree(chunks, u.new_hash@, level).unwrap() + subtree(chunks, rh@, level).unwrap() == es2
        },
    }
}

/// The split rule an update follows: the rewritten node is split exactly
/// when it would hold more than `target` entries, and then its left half
/// keeps the lower half of them, rounded down.
pub open spec fn split_policy_ok(chunks: Map<Seq<u8>, Seq<u8>>, u: ProcessedNodeUpdate, target: usize) -> bool {
    let left = node_at(chunks, u.new_hash@).unwrap().num_entries();
    match u.split_info {
        None => left <= target,
        Some((_rk, rh, _rc)) => {
            let right = node_at(chunks, rh@).unwrap().num_entries();
            &&& left + right > target
            &&& left == (left + right) / 2
        },
    }
}

/// The children an update stands for.
pub open spec fn update_children(u: ProcessedNodeUpdate) -> Seq<ChildModel> {
    let left = ChildModel { boundary: u.new_boundary_key@, hash: u.new_hash@, count: u.new_item_count };
    match u.split_info {
        None => seq![left],
        Some((rk, rh, rc)) => seq![left, ChildModel { boundary: rk@, hash: rh@, count: rc }],
    }
}

#[verifier::spinoff_prover]
proof fn lemma_update_children(chunks: Map<Seq<u8>, Seq<u8>>, u: ProcessedNodeUpdate, es2: Seq<EntryModel>, level: nat)
    requires
        update_ok(chunks, u, es2, level),
    ensures
        children_ok(chunks, update_children(u), level),
        flat_concat(chunks, update_children(u), level) == es2,
{
    match u.split_info {
        None => {
            lemma_flat_concat_one(chunks, update_children(u)[0], level);
        },
        Some(_) => {
            lemma_flat_concat_two(chunks, update_children(u)[0], update_children(u)[1], level);
        },
    }
}

/// The sum of the children's sizes, or `None` if it overflows `u64`.
pub fn sum_item_counts(children: &Vec<InternalEntry>) -> (r: Option<u64>)
    ensures
        match r {
            Some(t) => t == sum_counts(children_view(children@)),
            None => sum_counts(children_view(children@)) > u64::MAX,
        },
{
    let ghost cs = children_view(children@);
    let mut total: u64 = 0;
    let mut i: usize = 0;
    assert(cs.take(0) =~= Seq::<ChildModel>::empty());
    while i < children.len()
        invariant
            cs == children_view(children@),
            i <= cs.len(),
            total == sum_counts(cs.take(i as int)),
        decreases cs.len() - i,
    {
        assert(cs.take(i + 1).drop_last() =~= cs.take(i as int));
        match total.checked_add(children[i].num_items_subtree) {
            Some(t) => {
                total = t;
            },
            None => {
                proof {
                    lemma_sum_counts_prefix(cs, i + 1);
                }
                return None;
            },
        }
        i = i + 1;
    }
    assert(cs.take(i as int) =~= cs);
    Some(total)
}

proof fn lemma_sum_counts_prefix(cs: Seq<ChildModel>, i: int)
    requires
        0 <= i <= cs.len(),
    ensures
        sum_counts(cs.take(i)) <= sum_counts(cs),
    decreases cs.len(),
{
    if i < cs.len() {
        assert(cs.drop_last().take(i) =~= cs.take(i));
        lemma_sum_counts_prefix(cs.drop_last(), i);
    } else {
        assert(cs.take(i) =~= cs);
    }
}

} // verus!

verus! {

/// Replacing the routed child by what an insert below it returned gives
/// the parent's entries with the new entry inserted.
proof fn lemma_insert_splice(
    c0: Map<Seq<u8>, Seq<u8>>,
    c1: Map<Seq<u8>, Seq<u8>>,
    cs: Seq<ChildModel>,
    lvl: nat,
    i: int,
    e: EntryModel,
    u: ProcessedNodeUpdate,
)
    requires
        c0.submap_of(c1),
        children_ok(c0, cs, lvl),
        sorted_entries(flat_concat(c0, cs, lvl)),
        0 <= i < cs.len(),
        forall|j: int| 0 <= j < i ==> lex_lt(#[trigger] cs[j].boundary, e.key),
        i + 1 < cs.len() ==> crate::keys::lex_le(e.key, cs[i].boundary),
        update_ok(c1, u, seq_insert(subtree(c0, cs[i].hash, lvl).unwrap(), e), lvl),
    ensures
        children_ok(c1, cs.take(i) + update_children(u) + cs.skip(i + 1), lvl),
        flat_concat(c1, cs.take(i) + update_children(u) + cs.skip(i + 1), lvl) == seq_insert(
            flat_concat(c0, cs, lvl),
            e,
        ),
        sorted_entries(seq_insert(flat_concat(c0, cs, lvl), e)),
{
    if i > 0 {
        assert(lex_lt(cs[i - 1].boundary, e.key));
    }
    lemma_route(c0, cs, lvl, i, e.key);
    let pre = flat_concat(c0, cs.take(i), lvl);
    let x = subtree(c0, cs[i].hash, lvl).unwrap();
    let suf = flat_concat(c0, cs.skip(i + 1), lvl);
    lemma_update_children(c1, u, seq_insert(x, e), lvl);
    lemma_splice_children(c0, c1, cs, lvl, i, i + 1, update_children(u));
    lemma_seq_insert_after(pre, x + suf, e);
    assert(pre + x + suf =~= pre + (x + suf));
    if suf.len() > 0 {
        lemma_seq_insert_before(x, suf, e);
    } else {
        assert(x + suf =~= x);
        assert(seq_insert(x, e) + suf =~= seq_insert(x, e));
    }
    assert(pre + (seq_insert(x, e) + suf) =~= pre + seq_insert(x, e) + suf);
    lemma_seq_insert_sorted(flat_concat(c0, cs, lvl), e);
}

/// Inserting an entry adds at most one to the length.
proof fn lemma_seq_insert_len(es: Seq<EntryModel>, e: EntryModel)
    ensures
        seq_insert(es, e).len() <= es.len() + 1,
    decreases es.len(),
{
    if es.len() > 0 && es[0].key != e.key && !lex_lt(e.key, es[0].key) {
        lemma_seq_insert_len(es.drop_first(), e);
    }
}

/// Inserts into a leaf and stores it, split in two when it outgrows the fanout.
fn insert_into_leaf<S: ChunkStore>(
    store: &mut S,
    config: &TreeConfig,
    mut entries: Vec<LeafEntry>,
    key: Key,
    value_repr: ValueRepr,
) -> (r: Result<ProcessedNodeUpdate>)
    requires
        old(store).inv(),
        config.target_fanout > 0,
        entries@.len() > 0,
        sorted_entries(entries_view(entries@)),
    ensures
        final(store).inv(),
        store_grew(old(store).chunks(), final(store).chunks()),
        r matches Ok(u) ==> update_ok(
            final(store).chunks(),
            u,
            seq_insert(entries_view(entries@), EntryModel { key: key@, value: value_repr@ }),
            0,
        ),
        r matches Ok(u) ==> split_policy_ok(final(store).chunks(), u, config.target_fanout),
    final(store).refusals() >= old(store).refusals(),
    final(store).reliable() == old(store).reliable(),
    old(store).reliable() && r is Err ==> final(store).refusals() > old(store).refusals() || false,
{
    let ghost e = EntryModel { key: key@, value: value_repr@ };
    let ghost old_ev = entries_view(entries@);
    let ghost c0 = store.chunks();
    let (found, idx) = search_entries(&entries, key.as_slice());
    let new_entry = LeafEntry { key, value: value_repr };
    assert(new_entry@ == e);
    if found {
        entries.set(idx, new_entry);
        proof {
            lemma_seq_insert_at(old_ev, e, idx as int);
            assert(entries_view(entries@) =~= old_ev.update(idx as int, e));
        }
    } else {
        entries.insert(idx, new_entry);
        proof {
            lemma_seq_insert_at(old_ev, e, idx as int);
            assert(entries_view(entries@) =~= old_ev.take(idx as int) + seq![e] + old_ev.skip(
                idx as int,
            ));
        }
    }
    proof {
        lemma_seq_insert_sorted(old_ev, e);
    }
    let ghost es2 = seq_insert(old_ev, e);
    assert(entries_view(entries@) == es2);
    let current_leaf_item_count = entries.len() as u64;
    if entries.len() > config.target_fanout {
        let mid = entries.len() / 2;
        let right_entries = entries.split_off(mid);
        proof {
            assert(es2 =~= entries_view(entries@) + entries_view(right_entries@));
            lemma_sorted_split(entries_view(entries@), entries_view(right_entries@));
        }
        if right_entries.len() == 0 {
            return Err(ProllyError::InternalError("Split leaf created empty right sibling".to_string()));
        }
        let right_sibling_boundary_key = right_entries[right_entries.len() - 1].key.clone();
        let left_split_item_count = entries.len() as u64;
        let right_split_item_count = right_entries.len() as u64;
        let right_node = Node::Leaf { level: 0, entries: right_entries };
        let right_hash = match store_node_and_get_key_hash_pair(store, &right_node) {
            Ok((_rb, h)) => h,
            Err(e) => return Err(e),
        };
        let ghost c1 = store.chunks();
        let left_node = Node::Leaf { level: 0, entries };
        let (left_boundary_key, left_hash) = match store_node_and_get_key_hash_pair(store, &left_node) {
            Ok(x) => x,
            Err(e) => {
                proof {
                    lemma_submap_trans(c0, c1, store.chunks());
                }
                return Err(e);
            },
        };
        proof {
            let c2 = store.chunks();
            lemma_submap_trans(c0, c1, c2);
            lemma_node_at_mono(c1, c2, right_hash@);
            lemma_leaf_node_ok(c2, left_hash@, left_node@->Leaf_entries);
            lemma_leaf_node_ok(c2, right_hash@, right_node@->Leaf_entries);
        }
        Ok(
            ProcessedNodeUpdate {
                new_hash: left_hash,
                new_boundary_key: left_boundary_key,
                new_item_count: left_split_item_count,
                split_info: Some(
                    (right_sibling_boundary_key, right_hash, right_split_item_count),
                ),
            },
        )
    } else {
        let node = Node::Leaf { level: 0, entries };
        let (new_boundary_key, new_hash) = match store_node_and_get_key_hash_pair(store, &node) {
            Ok(x) => x,
            Err(e) => return Err(e),
        };
        proof {
            lemma_leaf_node_ok(store.chunks(), new_hash@, es2);
        }
        Ok(
            ProcessedNodeUpdate {
                new_hash,
                new_boundary_key,
                new_item_count: current_leaf_item_count,
                split_info: None,
            },
        )
    }
}

} // verus!

verus! {

/// The children after the update of child `i`: the child replaced by its
/// new entry, followed by its new sibling when it split.
pub open spec fn spliced_children(cs: Seq<ChildModel>, i: int, u: ProcessedNodeUpdate) -> Seq<ChildModel> {
    cs.take(i) + update_children(u) + cs.skip(i + 1)
}

/// Writes the update of child `i` into `children`: the child's new entry in
/// its place, and its new sibling at the position its boundary key sorts to.
fn apply_child_update(
    children: &mut Vec<InternalEntry>,
    i: usize,
    child_update: ProcessedNodeUpdate,
    Ghost(c1): Ghost<Map<Seq<u8>, Seq<u8>>>,
    Ghost(lvl): Ghost<nat>,
)
    requires
        i < old(children)@.len(),
        children_ok(c1, spliced_children(children_view(old(children)@), i as int, child_update), lvl),
        sorted_entries(
            flat_concat(c1, spliced_children(children_view(old(children)@), i as int, child_update), lvl),
        ),
    ensures
        children_view(final(children)@) == spliced_children(
            children_view(old(children)@),
            i as int,
            child_update,
        ),
{
    let ghost cs1 = spliced_children(children_view(children@), i as int, child_update);
    let ProcessedNodeUpdate { new_hash, new_boundary_key, new_item_count, split_info } = child_update;
    children.set(
        i,
        InternalEntry {
            boundary_key: new_boundary_key,
            child_hash: new_hash,
            num_items_subtree: new_item_count,
        },
    );
    match split_info {
        Some((boundary_from_child_split, new_child_sibling_hash, child_sibling_item_count)) => {
            let new_internal_entry = InternalEntry {
                boundary_key: boundary_from_child_split,
                child_hash: new_child_sibling_hash,
                num_items_subtree: child_sibling_item_count,
            };
            proof {
                assert(children_view(children@) =~= cs1.remove(i + 1));
                assert forall|a: int, b: int|
                    0 <= a < b < cs1.len() implies lex_lt(cs1[a].boundary, cs1[b].boundary) by {
                    lemma_boundaries_sorted(c1, cs1, lvl, a, b);
                }
            }
            let pos = search_boundaries(children, new_internal_entry.boundary_key.as_slice());
            proof {
                let cur = children_view(children@);
                let rk = cs1[i + 1].boundary;
                assert(new_internal_entry@ == cs1[i + 1]);
                if pos < i + 1 {
                    assert(cur[pos as int] == cs1[pos as int]);
                    assert(lex_lt(cs1[pos as int].boundary, rk));
                } else if pos > i + 1 {
                    assert(cur[i + 1] == cs1[i + 2]);
                    assert(lex_lt(rk, cs1[i + 2].boundary));
                    lemma_lex_lt_asymmetric(rk, cs1[i + 2].boundary);
                }
            }
            children.insert(pos, new_internal_entry);
            assert(children_view(children@) =~= cs1);
        },
        None => {
            assert(children_view(children@) =~= cs1);
        },
    }
}

/// When `children` outgrow the fanout, moves their upper half into a new
/// internal node at `level`, stores it and returns its last key, hash and
/// size; otherwise leaves them as they are and returns `None`.
#[verifier::spinoff_prover]
fn split_internal_children<S: ChunkStore>(
    store: &mut S,
    config: &TreeConfig,
    level: u8,
    children: &mut Vec<InternalEntry>,
) -> (r: Result<Option<(Key, crate::common::Hash, u64)>>)
    requires
        old(store).inv(),
        config.target_fanout > 0,
        level > 0,
        children_ok(old(store).chunks(), children_view(old(children)@), (level - 1) as nat),
        sorted_entries(flat_concat(old(store).chunks(), children_view(old(children)@), (level - 1) as nat)),
    ensures
        final(store).inv(),
        store_grew(old(store).chunks(), final(store).chunks()),
        r matches Ok(None) ==> children_view(final(children)@) == children_view(old(children)@),
        r matches Ok(Some((rk, rh, rc))) ==> {
            let cs = children_view(old(children)@);
            let m = final(children)@.len() as int;
            &&& 0 < m < cs.len()
            &&& children_view(final(children)@) == cs.take(m)
            &&& child_ok(final(store).chunks(), ChildModel { boundary: rk@, hash: rh@, count: rc }, level as nat)
            &&& subtree(final(store).chunks(), rh@, level as nat) == Some(
                flat_concat(old(store).chunks(), cs.skip(m), (level - 1) as nat),
            )
        },
        r matches Ok(None) ==> old(children)@.len() <= config.target_fanout,
        r matches Ok(Some((rk, rh, rc))) ==> {
            &&& old(children)@.len() > config.target_fanout
            &&& final(children)@.len() == old(children)@.len() / 2
            &&& node_at(final(store).chunks(), rh@) is Some
            &&& node_at(final(store).chunks(), rh@).unwrap().num_entries() == old(children)@.len() - final(children)@.len()
        },
    final(store).refusals() >= old(store).refusals(),
    final(store).reliable() == old(store).reliable(),
    old(store).reliable() && r is Err ==> final(store).refusals() > old(store).refusals() || flat_concat(old(store).chunks(), children_view(old(children)@), (level - 1) as nat).len() > u64::MAX,
{
    let ghost lvl = (level - 1) as nat;
    let ghost c1 = store.chunks();
    let ghost cs1 = children_view(children@);
    if children.len() <= config.target_fanout {
        return Ok(None);
    }
    let mid = children.len() / 2;
    let right_children = children.split_off(mid);
    proof {
        lemma_children_halves(c1, cs1, lvl, mid as int);
        assert(children_view(children@) =~= cs1.take(mid as int));
        assert(children_view(right_children@) =~= cs1.skip(mid as int));
    }
    let right_internal_node_item_count = match sum_item_counts(&right_children) {
        Some(t) => t,
        None => {
            proof {
                crate::tree::model::lemma_sum_counts_len(c1, cs1.skip(mid as int), lvl);
            }
            return Err(ProllyError::InternalError("item count overflow".to_string()));
        },
    };
    if right_children.len() == 0 {
        return Err(ProllyError::InternalError("Split internal created empty right sibling".to_string()));
    }
    let right_sibling_boundary_key = right_children[right_children.len() - 1].boundary_key.clone();
    let right_node = Node::Internal { level, children: right_children };
    let right_sibling_hash = match store_node_and_get_key_hash_pair(store, &right_node) {
        Ok((_rb, h)) => h,
        Err(e) => return Err(e),
    };
    proof {
        let c2 = store.chunks();
        let r = cs1.skip(mid as int);
        lemma_children_ok_mono(c1, c2, r, lvl);
        lemma_internal_node_ok(c2, right_sibling_hash@, level as nat, r, sum_counts(r));
    }
    Ok(Some((right_sibling_boundary_key, right_sibling_hash, right_internal_node_item_count)))
}

/// After an insert below child `i`, puts the child's new entries (and its
/// new sibling) into the parent, splits the parent when it outgrows the
/// fanout, and stores it.
#[verifier::spinoff_prover]
#[verifier::rlimit(50)]
fn finish_internal_insert<S: ChunkStore>(
    store: &mut S,
    config: &TreeConfig,
    level: u8,
    mut children: Vec<InternalEntry>,
    i: usize,
    child_update: ProcessedNodeUpdate,
    Ghost(c0): Ghost<Map<Seq<u8>, Seq<u8>>>,
    Ghost(e): Ghost<EntryModel>,
) -> (r: Result<ProcessedNodeUpdate>)
    requires
        old(store).inv(),
        config.target_fanout > 0,
        level > 0,
        c0.submap_of(old(store).chunks()),
        children_ok(c0, children_view(children@), (level - 1) as nat),
        sorted_entries(flat_concat(c0, children_view(children@), (level - 1) as nat)),
        i < children@.len(),
        forall|j: int| 0 <= j < i ==> lex_lt(#[trigger] children_view(children@)[j].boundary, e.key),
        i + 1 < children@.len() ==> crate::keys::lex_le(e.key, children_view(children@)[i as int].boundary),
        update_ok(
            old(store).chunks(),
            child_update,
            seq_insert(subtree(c0, children_view(children@)[i as int].hash, (level - 1) as nat).unwrap(), e),
            (level - 1) as nat,
        ),
    ensures
        final(store).inv(),
        store_grew(old(store).chunks(), final(store).chunks()),
        r matches Ok(u) ==> update_ok(
            final(store).chunks(),
            u,
            seq_insert(flat_concat(c0, children_view(children@), (level - 1) as nat), e),
            level as nat,
        ),
        r matches Ok(u) ==> split_policy_ok(final(store).chunks(), u, config.target_fanout),
    final(store).refusals() >= old(store).refusals(),
    final(store).reliable() == old(store).reliable(),
    old(store).reliable() && r is Err ==> final(store).refusals() > old(store).refusals() || flat_concat(c0, children_view(children@), (level - 1) as nat).len() >= u64::MAX,
{
    let ghost lvl = (level - 1) as nat;
    let ghost cs = children_view(children@);
    let ghost c1 = store.chunks();
    let ghost cs1 = spliced_children(cs, i as int, child_update);
    proof {
        lemma_insert_splice(c0, c1, cs, lvl, i as int, e, child_update);
    }
    apply_child_update(&mut children, i, child_update, Ghost(c1), Ghost(lvl));
    proof {
        lemma_seq_insert_len(flat_concat(c0, cs, lvl), e);
    }
    let split_to_propagate_upwards = match split_internal_children(store, config, level, &mut children) {
        Ok(s) => s,
        Err(err) => return Err(err),
    };
    let ghost c2 = store.chunks();
    let ghost left_cs = children_view(children@);
    proof {
        lemma_children_halves(c1, cs1, lvl, left_cs.len() as int);
        assert(cs1.take(left_cs.len() as int) =~= left_cs) by {
            if split_to_propagate_upwards is None {
                assert(left_cs == cs1);
            }
        }
        lemma_children_ok_mono(c1, c2, left_cs, lvl);
    }
    let current_node_total_items = match sum_item_counts(&children) {
        Some(t) => t,
        None => {
            proof {
                crate::tree::model::lemma_sum_counts_len(c2, left_cs, lvl);
                crate::tree::model::lemma_children_flat_char(c1, cs1, lvl);
                assert(flat_concat(c2, left_cs, lvl) == flat_concat(c1, left_cs, lvl));
            }
            return Err(ProllyError::InternalError("item count overflow".to_string()));
        },
    };
    if children.len() == 0 {
        return Err(ProllyError::InternalError("empty internal node".to_string()));
    }
    let node = Node::Internal { level, children };
    let (current_node_new_boundary, current_node_new_hash) = match store_node_and_get_key_hash_pair(store, &node) {
        Ok(x) => x,
        Err(err) => {
            proof {
                lemma_submap_trans(c1, c2, store.chunks());
            }
            return Err(err);
        },
    };
    proof {
        let c3 = store.chunks();
        lemma_submap_trans(c1, c2, c3);
        lemma_children_ok_mono(c2, c3, left_cs, lvl);
        lemma_internal_node_ok(c3, current_node_new_hash@, level as nat, left_cs, sum_counts(left_cs));
        if split_to_propagate_upwards is Some {
            let t = split_to_propagate_upwards->0;
            lemma_child_ok_mono(c2, c3, ChildModel { boundary: t.0@, hash: t.1@, count: t.2 }, level as nat);
            lemma_node_at_mono(c2, c3, t.1@);
        } else {
            assert(left_cs == cs1);
            assert(cs1.skip(left_cs.len() as int) =~= Seq::<ChildModel>::empty());
            assert(flat_concat(c1, cs1.skip(left_cs.len() as int), lvl) =~= Seq::<EntryModel>::empty());
            assert(flat_concat(c1, cs1, lvl) =~= flat_concat(c1, left_cs, lvl));
        }
    }
    Ok(
        ProcessedNodeUpdate {
            new_hash: current_node_new_hash,
            new_boundary_key: current_node_new_boundary,
            new_item_count: current_node_total_items,
            split_info: split_to_propagate_upwards,
        },
    )
}

/// Inserts `key` with `value_repr` below the node `current_node_hash` at `level`.
pub fn insert_recursive_impl<S: ChunkStore>(
    store: &mut S,
    config: &TreeConfig,
    current_node_hash: crate::common::Hash,
    key: Key,
    value_repr: ValueRepr,
    level: u8,
) -> (r: Result<ProcessedNodeUpdate>)
    requires
        old(store).inv(),
        config.target_fanout > 0,
        subtree(old(store).chunks(), current_node_hash@, level as nat) is Some,
    ensures
        final(store).inv(),
        store_grew(old(store).chunks(), final(store).chunks()),
        r matches Ok(u) ==> update_ok(
            final(store).chunks(),
            u,
            seq_insert(
                subtree(old(store).chunks(), current_node_hash@, level as nat).unwrap(),
                EntryModel { key: key@, value: value_repr@ },
            ),
            level as nat,
        ),
        r matches Ok(u) ==> split_policy_ok(final(store).chunks(), u, config.target_fanout),
    final(store).refusals() >= old(store).refusals(),
    final(store).reliable() == old(store).reliable(),
    old(store).reliable() && r is Err ==> final(store).refusals() > old(store).refusals() || subtree(old(store).chunks(), current_node_hash@, level as nat).unwrap().len() >= u64::MAX,
    decreases level,
{
    let ghost c0 = store.chunks();
    let ghost e = EntryModel { key: key@, value: value_repr@ };
    let node = match load_node(store, &current_node_hash) {
        Ok(n) => n,
        Err(err) => return Err(err),
    };
    match node {
        Node::Leaf { entries, .. } => insert_into_leaf(store, config, entries, key, value_repr),
        Node::Internal { children, .. } => {
            let ghost cs = children_view(children@);
            let ghost lvl = (level - 1) as nat;
            proof {
                lemma_children_flat_char(c0, cs, lvl);
            }
            let i = route_child(&children, key.as_slice());
            let child_to_descend_hash = children[i].child_hash;
            let child_level = level - 1;
            proof {
                assert(child_ok(c0, cs[i as int], lvl));
            }
            let child_update = match insert_recursive_impl(store, config, child_to_descend_hash, key, value_repr, child_level) {
                Ok(u) => u,
                Err(err) => {
                    proof {
                        crate::tree::model::lemma_children_split(c0, cs, lvl, i as int);
                    }
                    return Err(err);
                },
            };
            proof {
                assert(c0.submap_of(store.chunks()));
            }
            let ghost c_mid = store.chunks();
            let r = finish_internal_insert(store, config, level, children, i, child_update, Ghost(c0), Ghost(e));
            proof {
                lemma_submap_trans(c0, c_mid, store.chunks());
            }
            r
        },
    }
}

} // verus!

verus! {

/// What deleting `k` below a subtree with entries `es`, stored under `h`,
/// reports: the subtree unchanged when `k` is absent; else its entries
/// without `k`, in one node, or the news that none are left.
pub open spec fn delete_ok(
    chunks: Map<Seq<u8>, Seq<u8>>,
    res: DeleteRecursionResult,
    es: Seq<EntryModel>,
    k: Seq<u8>,
    h: Seq<u8>,
    level: nat,
) -> bool {
    match res {
        DeleteRecursionResult::NotFound { node_hash, boundary_key } => {
            &&& !has_key(es, k)
            &&& node_hash@ == h
            &&& boundary_key@ == es.last().key
        },
        DeleteRecursionResult::Updated(u) => {
            &&& has_key(es, k)
            &&& u.split_info is None
            &&& update_ok(chunks, u, seq_remove(es, k), level)
        },
        DeleteRecursionResult::Merged => has_key(es, k) && seq_remove(es, k).len() == 0,
    }
}

/// Some internal node at or below `h`, a subtree at `level`, has a single
/// child.
pub open spec fn single_child_below(chunks: Map<Seq<u8>, Seq<u8>>, h: Seq<u8>, level: nat) -> bool
    decreases level, 0nat, 0nat,
{
    if level == 0 {
        false
    } else {
        match node_at(chunks, h) {
            Some(NodeModel::Internal { children, .. }) => children.len() == 1 || single_child_among(
                chunks,
                children,
                (level - 1) as nat,
            ),
            _ => false,
        }
    }
}

/// Some internal node at or below one of the children `cs`, subtrees at
/// `level`, has a single child.
pub open spec fn single_child_among(chunks: Map<Seq<u8>, Seq<u8>>, cs: Seq<ChildModel>, level: nat) -> bool
    decreases level, 1nat, cs.len(),
{
    if cs.len() == 0 {
        false
    } else {
        single_child_below(chunks, cs.last().hash, level) || single_child_among(chunks, cs.drop_last(), level)
    }
}

proof fn lemma_single_child_among(chunks: Map<Seq<u8>, Seq<u8>>, cs: Seq<ChildModel>, level: nat, i: int)
    requires
        0 <= i < cs.len(),
        single_child_below(chunks, cs[i].hash, level),
    ensures
        single_child_among(chunks, cs, level),
    decreases cs.len(),
{
    if i < cs.len() - 1 {
        lemma_single_child_among(chunks, cs.drop_last(), level, i);
    }
}

proof fn lemma_seq_remove_len(es: Seq<EntryModel>, k: Seq<u8>)
    ensures
        seq_remove(es, k).len() <= es.len(),
    decreases es.len(),
{
    if es.len() > 0 {
        lemma_seq_remove_len(es.drop_first(), k);
    }
}

/// The parent stored under `new_hash` at `level` after child `i` of the
/// children `v0` was rewritten: when that child holds fewer than
/// `min_fanout` entries, its children are those that fixing the underflow
/// gives; else they are `v0` itself.
pub open spec fn rebalance_ok(
    c1: Map<Seq<u8>, Seq<u8>>,
    cf: Map<Seq<u8>, Seq<u8>>,
    v0: Seq<InternalEntry>,
    i: int,
    new_hash: Seq<u8>,
    level: u8,
    min_fanout: usize,
) -> bool {
    if node_at(c1, v0[i].child_hash@).unwrap().num_entries() < min_fanout {
        exists|v1: Seq<InternalEntry>|
            #![trigger children_view(v1)]
            node_at(cf, new_hash) == Some(NodeModel::Internal { level, children: children_view(v1) })
                && underflow_fixed(c1, v0, cf, v1, i, min_fanout)
    } else {
        node_at(cf, new_hash) == Some(NodeModel::Internal { level, children: children_view(v0) })
    }
}

/// The internal node stored under `h` at `level` in `c0` was rewritten
/// into the one stored under `new_hash` in `cf`: one child `i` was replaced
/// by an entry for a node stored since and the children rebalanced as
/// `rebalance_ok` says, or that child was dropped.
pub open spec fn parent_rewritten(
    c0: Map<Seq<u8>, Seq<u8>>,
    cf: Map<Seq<u8>, Seq<u8>>,
    h: Seq<u8>,
    new_hash: Seq<u8>,
    level: u8,
    min_fanout: usize,
) -> bool {
    match node_at(c0, h) {
        Some(NodeModel::Internal { children: cs, .. }) => {
            ||| exists|cm: Map<Seq<u8>, Seq<u8>>, v0: Seq<InternalEntry>, i: int|
                #![trigger rebalance_ok(cm, cf, v0, i, new_hash, level, min_fanout)]
                {
                    &&& c0.submap_of(cm)
                    &&& 0 <= i < cs.len()
                    &&& children_view(v0) == cs.update(i, children_view(v0)[i])
                    &&& rebalance_ok(cm, cf, v0, i, new_hash, level, min_fanout)
                }
            ||| exists|i: int|
                0 <= i < cs.len() && node_at(cf, new_hash) == Some(
                    NodeModel::Internal { level, children: #[trigger] cs.remove(i) },
                )
        },
        _ => true,
    }
}

proof fn lemma_parent_rewritten(
    c0: Map<Seq<u8>, Seq<u8>>,
    c1: Map<Seq<u8>, Seq<u8>>,
    cf: Map<Seq<u8>, Seq<u8>>,
    h: Seq<u8>,
    l: u8,
    cs: Seq<ChildModel>,
    cv: Seq<InternalEntry>,
    i: int,
    cdr: DeleteRecursionResult,
    new_hash: Seq<u8>,
    level: u8,
    min_fanout: usize,
)
    requires
        node_at(c0, h) == Some(NodeModel::Internal { level: l, children: cs }),
        cs == children_view(cv),
        0 <= i < cs.len(),
        c0.submap_of(c1),
        match cdr {
            DeleteRecursionResult::Updated(cu) => rebalance_ok(
                c1,
                cf,
                cv.update(
                    i,
                    InternalEntry {
                        boundary_key: cu.new_boundary_key,
                        child_hash: cu.new_hash,
                        num_items_subtree: cu.new_item_count,
                    },
                ),
                i,
                new_hash,
                level,
                min_fanout,
            ),
            _ => node_at(cf, new_hash) == Some(NodeModel::Internal { level, children: cs.remove(i) }),
        },
    ensures
        parent_rewritten(c0, cf, h, new_hash, level, min_fanout),
{
    if let DeleteRecursionResult::Updated(cu) = cdr {
        let v0 = cv.update(
            i,
            InternalEntry {
                boundary_key: cu.new_boundary_key,
                child_hash: cu.new_hash,
                num_items_subtree: cu.new_item_count,
            },
        );
        assert(children_view(v0) =~= cs.update(i, children_view(v0)[i]));
        assert(rebalance_ok(c1, cf, v0, i, new_hash, level, min_fanout));
    } else {
        assert(node_at(cf, new_hash) == Some(NodeModel::Internal { level, children: cs.remove(i) }));
    }
}

proof fn lemma_underflow_fixed_mono(
    c0: Map<Seq<u8>, Seq<u8>>,
    v0: Seq<InternalEntry>,
    c1: Map<Seq<u8>, Seq<u8>>,
    c2: Map<Seq<u8>, Seq<u8>>,
    v1: Seq<InternalEntry>,
    u: int,
    min_fanout: usize,
)
    requires
        underflow_fixed(c0, v0, c1, v1, u, min_fanout),
        c1.submap_of(c2),
    ensures
        underflow_fixed(c0, v0, c2, v1, u, min_fanout),
{
    if 0 <= u - 1 < v1.len() && node_at(c1, v1[u - 1].child_hash@) is Some {
        lemma_node_at_mono(c1, c2, v1[u - 1].child_hash@);
    }
    if 0 <= u < v1.len() && node_at(c1, v1[u].child_hash@) is Some {
        lemma_node_at_mono(c1, c2, v1[u].child_hash@);
    }
    if 0 <= u + 1 < v1.len() && node_at(c1, v1[u + 1].child_hash@) is Some {
        lemma_node_at_mono(c1, c2, v1[u + 1].child_hash@);
    }
}

/// Replacing the routed child by children holding its entries without `k`
/// gives the parent's entries without `k`.
proof fn lemma_delete_splice(
    c0: Map<Seq<u8>, Seq<u8>>,
    c1: Map<Seq<u8>, Seq<u8>>,
    cs: Seq<ChildModel>,
    lvl: nat,
    i: int,
    k: Seq<u8>,
    n: Seq<ChildModel>,
)
    requires
        c0.submap_of(c1),
        children_ok(c0, cs, lvl),
        sorted_entries(flat_concat(c0, cs, lvl)),
        0 <= i < cs.len(),
        forall|j: int| 0 <= j < i ==> lex_lt(#[trigger] cs[j].boundary, k),
        i + 1 < cs.len() ==> crate::keys::lex_le(k, cs[i].boundary),
        children_ok(c1, n, lvl),
        flat_concat(c1, n, lvl) == seq_remove(subtree(c0, cs[i].hash, lvl).unwrap(), k),
    ensures
        children_ok(c1, cs.take(i) + n + cs.skip(i + 1), lvl),
        flat_concat(c1, cs.take(i) + n + cs.skip(i + 1), lvl) == seq_remove(flat_concat(c0, cs, lvl), k),
        sorted_entries(seq_remove(flat_concat(c0, cs, lvl), k)),
{
    if i > 0 {
        assert(lex_lt(cs[i - 1].boundary, k));
    }
    lemma_route(c0, cs, lvl, i, k);
    let pre = flat_concat(c0, cs.take(i), lvl);
    let x = subtree(c0, cs[i].hash, lvl).unwrap();
    let suf = flat_concat(c0, cs.skip(i + 1), lvl);
    lemma_splice_children(c0, c1, cs, lvl, i, i + 1, n);
    lemma_has_key_outside(pre, k, true);
    lemma_has_key_outside(suf, k, false);
    lemma_seq_remove_add(pre + x, suf, k);
    lemma_seq_remove_add(pre, x, k);
    lemma_seq_remove_absent(pre, k);
    lemma_seq_remove_absent(suf, k);
    lemma_seq_remove_sorted(flat_concat(c0, cs, lvl), k);
}

/// Deletes `key` from a leaf holding `entries`, stored under `node_hash`.
fn delete_from_leaf<S: ChunkStore>(
    store: &mut S,
    node_hash: crate::common::Hash,
    l: u8,
    mut entries: Vec<LeafEntry>,
    key: &Key,
    key_actually_deleted_flag: &mut bool,
) -> (r: Result<DeleteRecursionResult>)
    requires
        old(store).inv(),
        node_content(old(store).chunks(), NodeModel::Leaf { level: l, entries: entries_view(entries@) }, 0)
            is Some,
    ensures
        final(store).inv(),
        store_grew(old(store).chunks(), final(store).chunks()),
        r matches Ok(res) ==> {
            let es = entries_view(entries@);
            &&& delete_ok(final(store).chunks(), res, es, key@, node_hash@, 0)
            &&& *final(key_actually_deleted_flag) == (*old(key_actually_deleted_flag) || has_key(es, key@))
        },
        r matches Ok(res) && res is NotFound ==> final(store).chunks() == old(store).chunks(),
    final(store).refusals() >= old(store).refusals(),
    final(store).reliable() == old(store).reliable(),
    old(store).reliable() && r is Err ==> final(store).refusals() > old(store).refusals() || false,
{
    let ghost c0 = store.chunks();
    let ghost es = entries_view(entries@);
    let (found, index) = search_entries(&entries, key.as_slice());
    if found {
        *key_actually_deleted_flag = true;
        entries.remove(index);
        proof {
            lemma_seq_remove_at(es, index as int);
            assert(entries_view(entries@) =~= es.remove(index as int));
            lemma_seq_remove_sorted(es, key@);
            assert(has_key(es, key@));
        }
        if entries.len() == 0 {
            return Ok(DeleteRecursionResult::Merged);
        }
        let new_leaf_item_count = entries.len() as u64;
        let node = Node::Leaf { level: l, entries };
        let e = match store_child_node(store, &node, new_leaf_item_count, Ghost(c0), Ghost(0)) {
            Ok(e) => e,
            Err(err) => return Err(err),
        };
        Ok(
            DeleteRecursionResult::Updated(
                ProcessedNodeUpdate {
                    new_hash: e.child_hash,
                    new_boundary_key: e.boundary_key,
                    new_item_count: e.num_items_subtree,
                    split_info: None,
                },
            ),
        )
    } else {
        proof {
            lemma_lower_bound_absent(es, key@, index as int);
        }
        if entries.len() == 0 {
            return Err(
                ProllyError::InternalError(
                    "Cannot get boundary key from empty leaf (key not found path)".to_string(),
                ),
            );
        }
        let boundary_key = entries[entries.len() - 1].key.clone();
        Ok(DeleteRecursionResult::NotFound { node_hash, boundary_key })
    }
}

/// Rebalances child `i`, whose new hash is `updated_child_hash`, when it
/// fell under the minimum fanout, then stores the parent over `children`,
/// whose entries are `es2`.
#[verifier::spinoff_prover]
fn rebalance_and_store<S: ChunkStore>(
    store: &mut S,
    config: &TreeConfig,
    level: u8,
    mut children: Vec<InternalEntry>,
    i: usize,
    updated_child_hash: crate::common::Hash,
    Ghost(es2): Ghost<Seq<EntryModel>>,
) -> (r: Result<DeleteRecursionResult>)
    requires
        old(store).inv(),
        level > 0,
        i < children@.len(),
        children@[i as int].child_hash == updated_child_hash,
        children_ok(old(store).chunks(), children_view(children@), (level - 1) as nat),
        flat_concat(old(store).chunks(), children_view(children@), (level - 1) as nat) == es2,
        sorted_entries(es2),
    ensures
        final(store).inv(),
        store_grew(old(store).chunks(), final(store).chunks()),
        r matches Ok(res) ==> match res {
            DeleteRecursionResult::Updated(u) => u.split_info is None && update_ok(final(store).chunks(), u, es2, level as nat),
            DeleteRecursionResult::Merged => es2.len() == 0,
            _ => false,
        },
        r matches Ok(DeleteRecursionResult::Updated(u)) ==> rebalance_ok(
            old(store).chunks(),
            final(store).chunks(),
            children@,
            i as int,
            u.new_hash@,
            level,
            config.min_fanout,
        ),
    final(store).refusals() >= old(store).refusals(),
    final(store).reliable() == old(store).reliable(),
    old(store).reliable() && r is Err ==> final(store).refusals() > old(store).refusals() || children@.len() == 1 || es2.len() > u64::MAX,
{
    let ghost c1 = store.chunks();
    let ghost v0 = children@;
    proof {
        assert(child_ok(c1, children_view(children@)[i as int], (level - 1) as nat));
        assert(node_at(c1, updated_child_hash@) is Some);
    }
    let child_node_after_update = match load_node(store, &updated_child_hash) {
        Ok(n) => n,
        Err(e) => return Err(e),
    };
    if child_node_after_update.is_underflow(config) {
        match handle_underflow_strategy(store, config, &mut children, i, Ghost((level - 1) as nat)) {
            Ok(()) => {},
            Err(e) => {
                assert(config.min_fanout > 0);
                return Err(e);
            },
        }
        if children.len() == 0 {
            return Ok(DeleteRecursionResult::Merged);
        }
    }
    let ghost c2 = store.chunks();
    let ghost v1 = children@;
    let r = store_updated_internal(store, level, children, Ghost(c2), Ghost(level as nat), Ghost(es2));
    proof {
        lemma_submap_trans(c1, c2, store.chunks());
        if r is Ok && node_at(c1, v0[i as int].child_hash@).unwrap().num_entries() < config.min_fanout {
            lemma_underflow_fixed_mono(c1, v0, c2, store.chunks(), v1, i as int, config.min_fanout);
            assert(children_view(v1) == children_view(v1));
        }
    }
    r
}

/// After deleting below child `i`, rewrites the parent: the child's new
/// entry, rebalancing it when it fell under the minimum fanout, or the
/// child removed when it emptied.
#[verifier::spinoff_prover]
#[verifier::rlimit(50)]
fn finish_internal_delete<S: ChunkStore>(
    store: &mut S,
    config: &TreeConfig,
    node_hash: crate::common::Hash,
    level: u8,
    mut children: Vec<InternalEntry>,
    child_idx_to_descend: usize,
    child_delete_result: DeleteRecursionResult,
    Ghost(c0): Ghost<Map<Seq<u8>, Seq<u8>>>,
    Ghost(k): Ghost<Seq<u8>>,
) -> (r: Result<DeleteRecursionResult>)
    requires
        old(store).inv(),
        c0.submap_of(old(store).chunks()),
        level > 0,
        children_ok(c0, children_view(children@), (level - 1) as nat),
        sorted_entries(flat_concat(c0, children_view(children@), (level - 1) as nat)),
        child_idx_to_descend < children@.len(),
        forall|j: int|
            0 <= j < child_idx_to_descend ==> lex_lt(#[trigger] children_view(children@)[j].boundary, k),
        child_idx_to_descend + 1 < children@.len() ==> crate::keys::lex_le(
            k,
            children_view(children@)[child_idx_to_descend as int].boundary,
        ),
        delete_ok(
            old(store).chunks(),
            child_delete_result,
            subtree(c0, children_view(children@)[child_idx_to_descend as int].hash, (level - 1) as nat).unwrap(),
            k,
            children_view(children@)[child_idx_to_descend as int].hash,
            (level - 1) as nat,
        ),
    ensures
        final(store).inv(),
        store_grew(old(store).chunks(), final(store).chunks()),
        r matches Ok(res) ==> delete_ok(
            final(store).chunks(),
            res,
            flat_concat(c0, children_view(children@), (level - 1) as nat),
            k,
            node_hash@,
            level as nat,
        ),
        r matches Ok(res) && res is NotFound ==> child_delete_result is NotFound && final(store).chunks()
            == old(store).chunks(),
        r matches Ok(DeleteRecursionResult::Updated(u)) ==> match child_delete_result {
            DeleteRecursionResult::Updated(cu) => rebalance_ok(
                old(store).chunks(),
                final(store).chunks(),
                children@.update(
                    child_idx_to_descend as int,
                    InternalEntry {
                        boundary_key: cu.new_boundary_key,
                        child_hash: cu.new_hash,
                        num_items_subtree: cu.new_item_count,
                    },
                ),
                child_idx_to_descend as int,
                u.new_hash@,
                level,
                config.min_fanout,
            ),
            _ => node_at(final(store).chunks(), u.new_hash@) == Some(
                NodeModel::Internal { level, children: children_view(children@).remove(child_idx_to_descend as int) },
            ),
        },
    final(store).refusals() >= old(store).refusals(),
    final(store).reliable() == old(store).reliable(),
    old(store).reliable() && r is Err ==> final(store).refusals() > old(store).refusals() || children@.len() == 1 || flat_concat(c0, children_view(children@), (level - 1) as nat).len() > u64::MAX,
{
    let ghost cs = children_view(children@);
    let ghost lvl = (level - 1) as nat;
    let ghost i = child_idx_to_descend as int;
    let ghost es = flat_concat(c0, cs, lvl);
    let ghost c1 = store.chunks();
    proof {
        lemma_seq_remove_len(es, k);
        if i > 0 {
            assert(lex_lt(cs[i - 1].boundary, k));
        }
        lemma_route(c0, cs, lvl, i, k);
        lemma_flat_last(c0, cs, lvl);
        lemma_lookup_middle(
            flat_concat(c0, cs.take(i), lvl),
            subtree(c0, cs[i].hash, lvl).unwrap(),
            flat_concat(c0, cs.skip(i + 1), lvl),
            k,
        );
    }
    match child_delete_result {
        DeleteRecursionResult::NotFound { .. } => {
            let current_internal_node_boundary_key = children[children.len() - 1].boundary_key.clone();
            Ok(DeleteRecursionResult::NotFound { node_hash, boundary_key: current_internal_node_boundary_key })
        },
        DeleteRecursionResult::Updated(child_update) => {
            let updated_child_hash = child_update.new_hash;
            let ghost left = ChildModel {
                boundary: child_update.new_boundary_key@,
                hash: child_update.new_hash@,
                count: child_update.new_item_count,
            };
            children.set(
                child_idx_to_descend,
                InternalEntry {
                    boundary_key: child_update.new_boundary_key,
                    child_hash: child_update.new_hash,
                    num_items_subtree: child_update.new_item_count,
                },
            );
            proof {
                assert(forall|j: int| 0 <= j < 1 ==> child_ok(c1, #[trigger] seq![left][j], lvl));
                lemma_flat_concat_one(c1, left, lvl);
                lemma_delete_splice(c0, c1, cs, lvl, i, k, seq![left]);
                assert(children_view(children@) =~= cs.take(i) + seq![left] + cs.skip(i + 1));
            }
            rebalance_and_store(store, config, level, children, child_idx_to_descend, updated_child_hash, Ghost(seq_remove(es, k)))
        },
        DeleteRecursionResult::Merged => {
            children.remove(child_idx_to_descend);
            proof {
                let x = subtree(c0, cs[i].hash, lvl).unwrap();
                assert(seq_remove(x, k) =~= Seq::<EntryModel>::empty());
                assert(flat_concat(c1, Seq::<ChildModel>::empty(), lvl) =~= Seq::<EntryModel>::empty());
                lemma_delete_splice(c0, c1, cs, lvl, i, k, Seq::<ChildModel>::empty());
                assert(children_view(children@) =~= cs.take(i) + Seq::<ChildModel>::empty() + cs.skip(i + 1));
            }
            if children.len() == 0 {
                return Ok(DeleteRecursionResult::Merged);
            }
            proof {
                assert(children_view(children@) =~= cs.remove(i));
            }
            store_updated_internal(store, level, children, Ghost(c1), Ghost(level as nat), Ghost(seq_remove(es, k)))
        },
    }
}

/// Deletes `key` below the node `node_hash` at `level`, rebalancing
/// children that fall under the minimum fanout. Sets the flag when the key
/// was found.
#[verifier::spinoff_prover]
pub fn delete_recursive_impl<S: ChunkStore>(
    store: &mut S,
    config: &TreeConfig,
    node_hash: crate::common::Hash,
    key: &Key,
    level: u8,
    key_actually_deleted_flag: &mut bool,
) -> (r: Result<DeleteRecursionResult>)
    requires
        old(store).inv(),
        subtree(old(store).chunks(), node_hash@, level as nat) is Some,
    ensures
        final(store).inv(),
        store_grew(old(store).chunks(), final(store).chunks()),
        r matches Ok(res) ==> {
            let es = subtree(old(store).chunks(), node_hash@, level as nat).unwrap();
            &&& delete_ok(final(store).chunks(), res, es, key@, node_hash@, level as nat)
            &&& *final(key_actually_deleted_flag) == (*old(key_actually_deleted_flag) || has_key(es, key@))
        },
        r matches Ok(res) && res is NotFound ==> final(store).chunks() == old(store).chunks(),
        level > 0 ==> (r matches Ok(DeleteRecursionResult::Updated(u)) ==> parent_rewritten(
            old(store).chunks(),
            final(store).chunks(),
            node_hash@,
            u.new_hash@,
            level,
            config.min_fanout,
        )),
    final(store).refusals() >= old(store).refusals(),
    final(store).reliable() == old(store).reliable(),
    old(store).reliable() && r is Err ==> final(store).refusals() > old(store).refusals() || subtree(old(store).chunks(), node_hash@, level as nat).unwrap().len() > u64::MAX || single_child_below(old(store).chunks(), node_hash@, level as nat),
    decreases level,
{
    let ghost c0 = store.chunks();
    let current_node_obj = match load_node(store, &node_hash) {
        Ok(n) => n,
        Err(e) => return Err(e),
    };
    proof {
        lemma_subtree_node_content(c0, node_hash@, level as nat);
    }
    match current_node_obj {
        Node::Leaf { level: l, entries } => delete_from_leaf(store, node_hash, l, entries, key, key_actually_deleted_flag),
        Node::Internal { level: l, children } => {
            if children.len() == 0 {
                return Err(ProllyError::InternalError("Internal node has no children during delete.".to_string()));
            }
            let ghost cs = children_view(children@);
            let ghost lvl = (level - 1) as nat;
            proof {
                lemma_children_flat_char(c0, cs, lvl);
            }
            let child_idx_to_descend = route_child(&children, key.as_slice());
            let child_hash_to_descend = children[child_idx_to_descend].child_hash;
            if level == 0 {
                return Err(
                    ProllyError::InternalError(
                        "Internal node level is 0, cannot descend further for delete.".to_string(),
                    ),
                );
            }
            let child_level = level - 1;
            let ghost i = child_idx_to_descend as int;
            proof {
                assert(child_ok(c0, cs[i], lvl));
                if i > 0 {
                    assert(lex_lt(cs[i - 1].boundary, key@));
                }
                lemma_route(c0, cs, lvl, i, key@);
                lemma_lookup_middle(
                    flat_concat(c0, cs.take(i), lvl),
                    subtree(c0, cs[i].hash, lvl).unwrap(),
                    flat_concat(c0, cs.skip(i + 1), lvl),
                    key@,
                );
            }
            let child_delete_result = match delete_recursive_impl(
                store,
                config,
                child_hash_to_descend,
                key,
                child_level,
                key_actually_deleted_flag,
            ) {
                Ok(res) => res,
                Err(e) => {
                    proof {
                        lemma_children_split(c0, cs, lvl, i);
                        if single_child_below(c0, cs[i].hash, lvl) {
                            lemma_single_child_among(c0, cs, lvl, i);
                        }
                    }
                    return Err(e);
                },
            };
            let ghost c1 = store.chunks();
            let ghost cv = children@;
            let ghost cdr = child_delete_result;
            let r = finish_internal_delete(
                store,
                config,
                node_hash,
                level,
                children,
                child_idx_to_descend,
                child_delete_result,
                Ghost(c0),
                Ghost(key@),
            );
            proof {
                lemma_submap_trans(c0, c1, store.chunks());
                if let Ok(DeleteRecursionResult::Updated(u)) = &r {
                    lemma_parent_rewritten(c0, c1, store.chunks(), node_hash@, l, cs, cv, i, cdr, u.new_hash@, level, config.min_fanout);
                }
            }
            r
        },
    }
}

/// Stores an internal node at `level` over `children`, whose entries are
/// `es2`, as the update of the node it replaces.
fn store_updated_internal<S: ChunkStore>(
    store: &mut S,
    l: u8,
    children: Vec<InternalEntry>,
    Ghost(c_ref): Ghost<Map<Seq<u8>, Seq<u8>>>,
    Ghost(level): Ghost<nat>,
    Ghost(es2): Ghost<Seq<EntryModel>>,
) -> (r: Result<DeleteRecursionResult>)
    requires
        old(store).inv(),
        c_ref.submap_of(old(store).chunks()),
        level > 0,
        l == level,
        children@.len() > 0,
        children_ok(c_ref, children_view(children@), (level - 1) as nat),
        flat_concat(c_ref, children_view(children@), (level - 1) as nat) == es2,
        sorted_entries(es2),
    ensures
        final(store).inv(),
        store_grew(old(store).chunks(), final(store).chunks()),
        r matches Ok(res) ==> res matches DeleteRecursionResult::Updated(u) && u.split_info is None
            && update_ok(final(store).chunks(), u, es2, level)
            && node_at(final(store).chunks(), u.new_hash@) == Some(NodeModel::Internal { level: l, children: children_view(children@) }),
    final(store).refusals() >= old(store).refusals(),
    final(store).reliable() == old(store).reliable(),
    old(store).reliable() && r is Err ==> final(store).refusals() > old(store).refusals() || es2.len() > u64::MAX,
{
    proof {
        lemma_sum_counts_len(c_ref, children_view(children@), (level - 1) as nat);
    }
    let current_node_total_items = match sum_item_counts(&children) {
        Some(t) => t,
        None => return Err(ProllyError::InternalError("item count overflow".to_string())),
    };
    let node = Node::Internal { level: l, children };
    proof {
        lemma_internal_content(c_ref, l, children_view(children@), level);
        lemma_node_count(c_ref, node@, level);
    }
    let e = match store_child_node(store, &node, current_node_total_items, Ghost(c_ref), Ghost(level)) {
        Ok(e) => e,
        Err(err) => return Err(err),
    };
    Ok(
        DeleteRecursionResult::Updated(
            ProcessedNodeUpdate {
                new_hash: e.child_hash,
                new_boundary_key: e.boundary_key,
                new_item_count: e.num_items_subtree,
                split_info: None,
            },
        ),
    )
}

} // verus!
