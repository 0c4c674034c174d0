//! Differences between two versions of a tree.
use std::collections::VecDeque;
use vstd::prelude::*;
use crate::common::{Key, TreeConfig, Value};
use crate::error::Result;
use crate::node::definition::{children_view, ChildModel, EntryModel, Node, NodeModel};
use crate::store::ChunkStore;
use crate::keys::lex_lt;
use crate::tree::io::{load_node, load_value_repr, resolve_value};
use crate::tree::model::{
    child_ok, children_ok, flat_concat, has_key, lemma_children_flat_char, lemma_children_split,
    lemma_lookup_at, lemma_lookup_middle, lemma_sorted_split, lemma_subtree_node_content,
    lemma_subtree_shape, node_at, sorted_entries, subtree,
};
use crate::tree::view::{entries_map, tree_map, values_resolve};
use crate::tree::prolly_tree::opt_hash_view;
use crate::tree::model::tree_entries;

verus! {

/// One difference: a key with its value on the left (`None`: added) and on
/// the right (`None`: deleted).
#[derive(Debug, Clone)]
pub struct DiffEntry {
    pub key: Key,
    pub left_value: Option<Value>,
    pub right_value: Option<Value>,
}

/// Model of a difference.
pub struct DiffModel {
    pub key: Seq<u8>,
    pub left: Option<Seq<u8>>,
    pub right: Option<Seq<u8>>,
}

pub open spec fn opt_bytes_view(v: Option<Value>) -> Option<Seq<u8>> {
    match v {
        Some(b) => Some(b@),
        None => None,
    }
}

impl View for DiffEntry {
    type V = DiffModel;

    open spec fn view(&self) -> DiffModel {
        DiffModel {
            key: self.key@,
            left: opt_bytes_view(self.left_value),
            right: opt_bytes_view(self.right_value),
        }
    }
}

pub open spec fn diffs_view(ds: Seq<DiffEntry>) -> Seq<DiffModel> {
    ds.map_values(|d: DiffEntry| d@)
}

impl DiffEntry {
    pub fn addition(key: Key, right_value: Value) -> (r: Self)
        ensures
            r@ == (DiffModel { key: key@, left: None, right: Some(right_value@) }),
    {
        DiffEntry { key, left_value: None, right_value: Some(right_value) }
    }

    pub fn deletion(key: Key, left_value: Value) -> (r: Self)
        ensures
            r@ == (DiffModel { key: key@, left: Some(left_value@), right: None }),
    {
        DiffEntry { key, left_value: Some(left_value), right_value: None }
    }

    pub fn modification(key: Key, left_value: Value, right_value: Value) -> (r: Self)
        ensures
            r@ == (DiffModel { key: key@, left: Some(left_value@), right: Some(right_value@) }),
    {
        DiffEntry { key, left_value: Some(left_value), right_value: Some(right_value) }
    }
}

/// Some difference takes `k` out of the left side.
pub open spec fn deleted(ds: Seq<DiffModel>, k: Seq<u8>) -> bool {
    exists|i: int| 0 <= i < ds.len() && (#[trigger] ds[i]).key == k && ds[i].left is Some
}

/// Some difference puts `k` in on the right side.
pub open spec fn added(ds: Seq<DiffModel>, k: Seq<u8>) -> bool {
    exists|i: int| 0 <= i < ds.len() && (#[trigger] ds[i]).key == k && ds[i].right is Some
}

/// Each difference names a side, and the values it carries are the ones
/// the two maps hold.
pub open spec fn diff_entries_ok(ds: Seq<DiffModel>, ml: Map<Seq<u8>, Seq<u8>>, mr: Map<Seq<u8>, Seq<u8>>) -> bool {
    forall|i: int|
        0 <= i < ds.len() ==> {
            &&& ((#[trigger] ds[i]).left is Some || ds[i].right is Some)
            &&& (ds[i].left matches Some(v) ==> ml.contains_key(ds[i].key) && ml[ds[i].key] == v)
            &&& (ds[i].right matches Some(v) ==> mr.contains_key(ds[i].key) && mr[ds[i].key] == v)
        }
}

/// A left key is deleted, or has the same value on the right.
pub open spec fn covered_left(ds: Seq<DiffModel>, ml: Map<Seq<u8>, Seq<u8>>, mr: Map<Seq<u8>, Seq<u8>>, k: Seq<u8>) -> bool {
    deleted(ds, k) || (mr.contains_key(k) && mr[k] == ml[k])
}

/// A right key is added, or kept from the left with the same value.
pub open spec fn covered_right(ds: Seq<DiffModel>, ml: Map<Seq<u8>, Seq<u8>>, mr: Map<Seq<u8>, Seq<u8>>, k: Seq<u8>) -> bool {
    added(ds, k) || (ml.contains_key(k) && ml[k] == mr[k] && !deleted(ds, k))
}

/// `ds` is a difference from `ml` to `mr`: removing the deleted keys from
/// `ml` and putting in the added ones gives `mr`.
pub open spec fn diff_ok(ds: Seq<DiffModel>, ml: Map<Seq<u8>, Seq<u8>>, mr: Map<Seq<u8>, Seq<u8>>) -> bool {
    &&& diff_entries_ok(ds, ml, mr)
    &&& forall|k: Seq<u8>| #[trigger] ml.contains_key(k) ==> covered_left(ds, ml, mr, k)
    &&& forall|k: Seq<u8>| #[trigger] mr.contains_key(k) ==> covered_right(ds, ml, mr, k)
}

/// The map of the subtree under an optional hash at `level`.
pub open spec fn side_map(chunks: Map<Seq<u8>, Seq<u8>>, h: Option<Seq<u8>>, level: nat) -> Map<Seq<u8>, Seq<u8>> {
    match h {
        Some(x) => entries_map(chunks, subtree(chunks, x, level).unwrap()),
        None => Map::empty(),
    }
}

/// The subtree under an optional hash is well formed with readable values.
pub open spec fn side_ok(chunks: Map<Seq<u8>, Seq<u8>>, h: Option<Seq<u8>>, level: nat) -> bool {
    match h {
        Some(x) => subtree(chunks, x, level) is Some && values_resolve(chunks, subtree(chunks, x, level).unwrap()),
        None => true,
    }
}

// ---------------- sizes, for the breadth-first walks ----------------

/// The number of nodes of the subtree under `h`.
pub open spec fn tree_size(chunks: Map<Seq<u8>, Seq<u8>>, h: Seq<u8>, level: nat) -> nat
    decreases level, 0nat, 0nat,
{
    match node_at(chunks, h) {
        Some(NodeModel::Internal { children, .. }) => if level > 0 {
            1 + children_size(chunks, children, (level - 1) as nat)
        } else {
            1
        },
        _ => 1,
    }
}

pub open spec fn children_size(chunks: Map<Seq<u8>, Seq<u8>>, cs: Seq<ChildModel>, level: nat) -> nat
    decreases level, 1nat, cs.len(),
{
    if cs.len() == 0 {
        0
    } else {
        children_size(chunks, cs.drop_last(), level) + tree_size(chunks, cs.last().hash, level)
    }
}

/// The number of nodes under the queued hashes.
pub open spec fn queue_size(chunks: Map<Seq<u8>, Seq<u8>>, q: Seq<(Seq<u8>, nat)>) -> nat
    decreases q.len(),
{
    if q.len() == 0 {
        0
    } else {
        tree_size(chunks, q[0].0, q[0].1) + queue_size(chunks, q.drop_first())
    }
}

proof fn lemma_queue_size_push(chunks: Map<Seq<u8>, Seq<u8>>, q: Seq<(Seq<u8>, nat)>, x: (Seq<u8>, nat))
    ensures
        queue_size(chunks, q.push(x)) == queue_size(chunks, q) + tree_size(chunks, x.0, x.1),
    decreases q.len(),
{
    if q.len() > 0 {
        assert(q.push(x).drop_first() =~= q.drop_first().push(x));
        assert(q.push(x)[0] == q[0]);
        lemma_queue_size_push(chunks, q.drop_first(), x);
    } else {
        assert(q.push(x).drop_first() =~= Seq::<(Seq<u8>, nat)>::empty());
        assert(q.push(x)[0] == x);
        assert(queue_size(chunks, q.push(x).drop_first()) == 0);
    }
}

// ---------------- pieces of a sorted list of children ----------------

/// Keys under one child read the same as in the whole list.
proof fn lemma_child_submap(chunks: Map<Seq<u8>, Seq<u8>>, cs: Seq<ChildModel>, level: nat, i: int)
    requires
        children_ok(chunks, cs, level),
        sorted_entries(flat_concat(chunks, cs, level)),
        values_resolve(chunks, flat_concat(chunks, cs, level)),
        0 <= i < cs.len(),
    ensures
        entries_map(chunks, subtree(chunks, cs[i].hash, level).unwrap()).submap_of(
            entries_map(chunks, flat_concat(chunks, cs, level)),
        ),
        values_resolve(chunks, subtree(chunks, cs[i].hash, level).unwrap()),
        sorted_entries(subtree(chunks, cs[i].hash, level).unwrap()),
{
    lemma_children_split(chunks, cs, level, i);
    let pre = flat_concat(chunks, cs.take(i), level);
    let x = subtree(chunks, cs[i].hash, level).unwrap();
    let suf = flat_concat(chunks, cs.skip(i + 1), level);
    let all = flat_concat(chunks, cs, level);
    lemma_sorted_split(pre + x, suf);
    lemma_sorted_split(pre, x);
    assert forall|j: int| 0 <= j < x.len() implies (#[trigger] resolve_value(chunks, x[j].value)) is Some by {
        assert(all[pre.len() + j] == x[j]);
    }
    assert forall|k: Seq<u8>| #[trigger] entries_map(chunks, x).dom().contains(k) implies entries_map(
        chunks,
        all,
    ).dom().contains(k) && entries_map(chunks, x)[k] == entries_map(chunks, all)[k] by {
        let j = choose|j: int| 0 <= j < x.len() && x[j].key == k;
        assert forall|a: int| 0 <= a < pre.len() implies crate::keys::lex_lt(#[trigger] pre[a].key, k) by {
            assert((pre + x)[a] == pre[a] && (pre + x)[pre.len() + j] == x[j]);
        }
        assert forall|a: int| 0 <= a < suf.len() implies crate::keys::lex_lt(k, #[trigger] suf[a].key) by {
            assert((pre + x)[pre.len() + j] == x[j]);
        }
        lemma_lookup_middle(pre, x, suf, k);
    }
}

/// Every key under a list of children is under one of them.
proof fn lemma_key_in_child(chunks: Map<Seq<u8>, Seq<u8>>, cs: Seq<ChildModel>, level: nat, k: Seq<u8>)
    requires
        children_ok(chunks, cs, level),
        has_key(flat_concat(chunks, cs, level), k),
    ensures
        exists|i: int| 0 <= i < cs.len() && has_key(#[trigger] subtree(chunks, cs[i].hash, level).unwrap(), k),
    decreases cs.len(),
{
    let init = cs.drop_last();
    let a = flat_concat(chunks, init, level);
    let b = subtree(chunks, cs.last().hash, level).unwrap();
    let j = choose|j: int| 0 <= j < (a + b).len() && (a + b)[j].key == k;
    if j < a.len() {
        assert(a[j] == (a + b)[j]);
        assert forall|m: int| 0 <= m < init.len() implies child_ok(chunks, #[trigger] init[m], level) by {
            assert(init[m] == cs[m]);
        }
        lemma_key_in_child(chunks, init, level, k);
        let m = choose|m: int| 0 <= m < init.len() && has_key(#[trigger] subtree(chunks, init[m].hash, level).unwrap(), k);
        assert(init[m] == cs[m]);
    } else {
        assert(b[j - a.len()] == (a + b)[j]);
        assert(has_key(subtree(chunks, cs[cs.len() - 1].hash, level).unwrap(), k));
    }
}

} // verus!
verus! {

/// `d` adds (or deletes) its key with the value `m` holds for it.
pub open spec fn one_sided_ok(d: DiffModel, m: Map<Seq<u8>, Seq<u8>>, is_addition: bool) -> bool {
    &&& m.contains_key(d.key)
    &&& if is_addition {
        d.left is None && d.right == Some(m[d.key])
    } else {
        d.right is None && d.left == Some(m[d.key])
    }
}

/// Some difference of `ds` is about `k`.
pub open spec fn mentions(ds: Seq<DiffModel>, k: Seq<u8>) -> bool {
    exists|i: int| 0 <= i < ds.len() && (#[trigger] ds[i]).key == k
}

/// Appends an addition (or a deletion) for each entry of a leaf.
fn emit_leaf_entries<S: ChunkStore>(
    store: &S,
    config: &TreeConfig,
    entries: &Vec<crate::node::definition::LeafEntry>,
    is_addition: bool,
    diffs: &mut Vec<DiffEntry>,
    Ghost(m): Ghost<Map<Seq<u8>, Seq<u8>>>,
) -> (r: Result<()>)
    requires
        store.inv(),
        sorted_entries(crate::node::definition::entries_view(entries@)),
        values_resolve(store.chunks(), crate::node::definition::entries_view(entries@)),
        entries_map(store.chunks(), crate::node::definition::entries_view(entries@)).submap_of(m),
        forall|i: int| 0 <= i < old(diffs)@.len() ==> one_sided_ok(#[trigger] diffs_view(old(diffs)@)[i], m, is_addition),
    ensures
        r is Ok ==> {
            &&& final(diffs)@.len() >= old(diffs)@.len()
            &&& final(diffs)@.take(old(diffs)@.len() as int) == old(diffs)@
            &&& forall|i: int| 0 <= i < final(diffs)@.len() ==> one_sided_ok(#[trigger] diffs_view(final(diffs)@)[i], m, is_addition)
            &&& forall|k: Seq<u8>| has_key(crate::node::definition::entries_view(entries@), k) ==> #[trigger] mentions(diffs_view(final(diffs)@), k)
        },
    store.reliable() ==> r is Ok,
{
    let ghost es = crate::node::definition::entries_view(entries@);
    let ghost d0 = diffs@;
    let mut j: usize = 0;
    while j < entries.len()
        invariant
            store.inv(),
            es == crate::node::definition::entries_view(entries@),
            sorted_entries(es),
            values_resolve(store.chunks(), es),
            entries_map(store.chunks(), es).submap_of(m),
            j <= entries@.len(),
            diffs@.len() >= d0.len(),
            diffs@.take(d0.len() as int) == d0,
            forall|i: int| 0 <= i < diffs@.len() ==> one_sided_ok(#[trigger] diffs_view(diffs@)[i], m, is_addition),
            forall|a: int| 0 <= a < j ==> #[trigger] mentions(diffs_view(diffs@), es[a].key),
        decreases entries@.len() - j,
    {
        let ghost db = diffs@;
        proof {
            assert(es[j as int] == entries@[j as int]@);
            assert(resolve_value(store.chunks(), es[j as int].value) is Some);
        }
        let value = match load_value_repr(store, &entries[j].value) {
            Ok(v) => v,
            Err(e) => return Err(e),
        };
        let key = entries[j].key.clone();
        proof {
            assert(es[j as int] == entries@[j as int]@);
            lemma_lookup_at(es, j as int);
            assert(entries_map(store.chunks(), es).dom().contains(key@));
            assert(entries_map(store.chunks(), es)[key@] == value@);
        }
        if is_addition {
            diffs.push(DiffEntry::addition(key, value));
        } else {
            diffs.push(DiffEntry::deletion(key, value));
        }
        proof {
            let dv = diffs_view(diffs@);
            assert(dv[dv.len() - 1] == diffs@[diffs@.len() - 1]@);
            assert forall|i: int| 0 <= i < diffs@.len() implies one_sided_ok(#[trigger] diffs_view(diffs@)[i], m, is_addition) by {
                if i < db.len() {
                    assert(diffs@[i] == db[i]);
                    assert(diffs_view(db)[i] == db[i]@);
                }
            }
            assert forall|a: int| 0 <= a < j + 1 implies #[trigger] mentions(diffs_view(diffs@), es[a].key) by {
                if a < j {
                    assert(mentions(diffs_view(db), es[a].key));
                    let w = choose|w: int| 0 <= w < diffs_view(db).len() && diffs_view(db)[w].key == es[a].key;
                    assert(diffs@[w] == db[w]);
                    assert(dv[w] == diffs_view(db)[w]);
                } else {
                    assert(dv[dv.len() - 1].key == es[a].key);
                }
            }
            assert(diffs@.take(d0.len() as int) =~= d0) by {
                assert(db.take(d0.len() as int) == d0);
                assert forall|i: int| 0 <= i < d0.len() implies diffs@[i] == d0[i] by {
                    assert(db.take(d0.len() as int)[i] == db[i]);
                }
            }
        }
        j = j + 1;
    }
    proof {
        assert forall|k: Seq<u8>| has_key(es, k) implies #[trigger] mentions(diffs_view(diffs@), k) by {
            let a = choose|a: int| 0 <= a < es.len() && es[a].key == k;
        }
    }
    Ok(())
}

/// Queues the children of a node, whose subtrees stand at `lc`.
fn enqueue_children(
    children: &Vec<crate::node::definition::InternalEntry>,
    queue: &mut VecDeque<crate::common::Hash>,
    Ghost(rest): Ghost<Seq<(Seq<u8>, nat)>>,
    Ghost(lc): Ghost<nat>,
    Ghost(chunks): Ghost<Map<Seq<u8>, Seq<u8>>>,
) -> (gq2: Ghost<Seq<(Seq<u8>, nat)>>)
    requires
        old(queue)@.len() == rest.len(),
        forall|k: int| 0 <= k < rest.len() ==> (#[trigger] old(queue)@[k])@ == rest[k].0,
    ensures
        final(queue)@.len() == gq2@.len(),
        forall|k: int| 0 <= k < gq2@.len() ==> (#[trigger] final(queue)@[k])@ == gq2@[k].0,
        gq2@.len() == rest.len() + children@.len(),
        forall|k: int| 0 <= k < rest.len() ==> #[trigger] gq2@[k] == rest[k],
        forall|j: int| 0 <= j < children@.len() ==> #[trigger] gq2@[rest.len() + j] == (children_view(children@)[j].hash, lc),
        queue_size(chunks, gq2@) == queue_size(chunks, rest) + children_size(chunks, children_view(children@), lc),
{
    let ghost cs = children_view(children@);
    let ghost mut g = rest;
    assert(cs.take(0) =~= Seq::<ChildModel>::empty());
    let mut i: usize = 0;
    while i < children.len()
        invariant
            cs == children_view(children@),
            i <= children@.len(),
            queue@.len() == g.len(),
            forall|k: int| 0 <= k < g.len() ==> (#[trigger] queue@[k])@ == g[k].0,
            g.len() == rest.len() + i,
            forall|k: int| 0 <= k < rest.len() ==> #[trigger] g[k] == rest[k],
            forall|j: int| 0 <= j < i ==> #[trigger] g[rest.len() + j] == (cs[j].hash, lc),
            queue_size(chunks, g) == queue_size(chunks, rest) + children_size(chunks, cs.take(i as int), lc),
        decreases children@.len() - i,
    {
        let ghost qb = queue@;
        queue.push_back(children[i].child_hash);
        proof {
            assert(cs[i as int].hash == children@[i as int].child_hash@);
            lemma_queue_size_push(chunks, g, (cs[i as int].hash, lc));
            assert(cs.take(i + 1).drop_last() =~= cs.take(i as int));
            assert(cs.take(i + 1).last() == cs[i as int]);
            let old_g = g;
            g = g.push((cs[i as int].hash, lc));
            assert forall|k: int| 0 <= k < g.len() implies (#[trigger] queue@[k])@ == g[k].0 by {
                if k < old_g.len() {
                    assert(queue@[k] == qb[k]);
                }
            }
            assert forall|k: int| 0 <= k < rest.len() implies #[trigger] g[k] == rest[k] by {
                assert(g[k] == old_g[k]);
            }
            assert forall|j: int| 0 <= j < i + 1 implies #[trigger] g[rest.len() + j] == (cs[j].hash, lc) by {
                if j < i {
                    assert(g[rest.len() + j] == old_g[rest.len() + j]);
                }
            }
        }
        i = i + 1;
    }
    assert(cs.take(i as int) =~= cs);
    Ghost(g)
}

/// What the walk keeps true: each queued hash roots a well-formed subtree
/// whose keys read as in `m`, the differences so far are one-sided with
/// `m`'s values, and every key of `m` is mentioned or under a queued hash.
pub open spec fn walk_inv(
    chunks: Map<Seq<u8>, Seq<u8>>,
    m: Map<Seq<u8>, Seq<u8>>,
    is_addition: bool,
    gq: Seq<(Seq<u8>, nat)>,
    ds: Seq<DiffModel>,
) -> bool {
    &&& forall|i: int| 0 <= i < gq.len() ==> {
        let s = subtree(chunks, (#[trigger] gq[i]).0, gq[i].1);
        &&& s is Some
        &&& values_resolve(chunks, s.unwrap())
        &&& entries_map(chunks, s.unwrap()).submap_of(m)
    }
    &&& forall|i: int| 0 <= i < ds.len() ==> one_sided_ok(#[trigger] ds[i], m, is_addition)
    &&& forall|k: Seq<u8>| #[trigger] m.contains_key(k) ==> mentions(ds, k) || exists|i: int|
        0 <= i < gq.len() && has_key(#[trigger] subtree(chunks, gq[i].0, gq[i].1).unwrap(), k)
}

proof fn lemma_submap_at(a: Map<Seq<u8>, Seq<u8>>, b: Map<Seq<u8>, Seq<u8>>, x: Seq<u8>)
    requires
        a.submap_of(b),
        a.dom().contains(x),
    ensures
        b.dom().contains(x),
        a[x] == b[x],
{
    assert(b.dom().contains(x));
}

/// Emitting a leaf at the front of the queue keeps the walk invariant.
proof fn lemma_walk_leaf(
    chunks: Map<Seq<u8>, Seq<u8>>,
    m: Map<Seq<u8>, Seq<u8>>,
    is_addition: bool,
    gq: Seq<(Seq<u8>, nat)>,
    d0: Seq<DiffModel>,
    ds: Seq<DiffModel>,
)
    requires
        walk_inv(chunks, m, is_addition, gq, d0),
        gq.len() > 0,
        ds.len() >= d0.len(),
        ds.take(d0.len() as int) == d0,
        forall|i: int| 0 <= i < ds.len() ==> one_sided_ok(#[trigger] ds[i], m, is_addition),
        forall|k: Seq<u8>| has_key(subtree(chunks, gq[0].0, gq[0].1).unwrap(), k) ==> #[trigger] mentions(ds, k),
    ensures
        walk_inv(chunks, m, is_addition, gq.drop_first(), ds),
{
    let rest = gq.drop_first();
    assert forall|i: int| 0 <= i < rest.len() implies {
        let s = subtree(chunks, (#[trigger] rest[i]).0, rest[i].1);
        &&& s is Some
        &&& values_resolve(chunks, s.unwrap())
        &&& entries_map(chunks, s.unwrap()).submap_of(m)
    } by {
        assert(rest[i] == gq[i + 1]);
    }
    assert forall|k: Seq<u8>| #[trigger] m.contains_key(k) implies mentions(ds, k) || exists|i: int|
        0 <= i < rest.len() && has_key(#[trigger] subtree(chunks, rest[i].0, rest[i].1).unwrap(), k) by {
        if mentions(d0, k) {
            let w = choose|w: int| 0 <= w < d0.len() && d0[w].key == k;
            assert(ds.take(d0.len() as int)[w] == d0[w]);
            assert(ds[w] == d0[w]);
        } else {
            let i = choose|i: int| 0 <= i < gq.len() && has_key(#[trigger] subtree(chunks, gq[i].0, gq[i].1).unwrap(), k);
            if i > 0 {
                assert(rest[i - 1] == gq[i]);
            }
        }
    }
}

/// Replacing the internal node at the front of the queue by its children
/// keeps the walk invariant.
proof fn lemma_walk_internal(
    chunks: Map<Seq<u8>, Seq<u8>>,
    m: Map<Seq<u8>, Seq<u8>>,
    is_addition: bool,
    gq: Seq<(Seq<u8>, nat)>,
    ds: Seq<DiffModel>,
    cs: Seq<ChildModel>,
    gq2: Seq<(Seq<u8>, nat)>,
)
    requires
        walk_inv(chunks, m, is_addition, gq, ds),
        gq.len() > 0,
        gq[0].1 > 0,
        cs.len() > 0,
        subtree(chunks, gq[0].0, gq[0].1) == crate::tree::model::children_flat(chunks, cs, (gq[0].1 - 1) as nat),
        gq2.len() == gq.len() - 1 + cs.len(),
        forall|k: int| 0 <= k < gq.len() - 1 ==> #[trigger] gq2[k] == gq[k + 1],
        forall|j: int| 0 <= j < cs.len() ==> #[trigger] gq2[gq.len() - 1 + j] == (cs[j].hash, (gq[0].1 - 1) as nat),
    ensures
        walk_inv(chunks, m, is_addition, gq2, ds),
{
    let lc = (gq[0].1 - 1) as nat;
    let s0 = subtree(chunks, gq[0].0, gq[0].1).unwrap();
    let r = gq.len() - 1;
    lemma_children_flat_char(chunks, cs, lc);
    assert(s0 == flat_concat(chunks, cs, lc));
    assert(entries_map(chunks, s0).submap_of(m));
    assert forall|k: int| 0 <= k < gq2.len() implies {
        let s = subtree(chunks, (#[trigger] gq2[k]).0, gq2[k].1);
        &&& s is Some
        &&& values_resolve(chunks, s.unwrap())
        &&& entries_map(chunks, s.unwrap()).submap_of(m)
    } by {
        if k < r {
            assert(gq2[k] == gq[k + 1]);
        } else {
            let j = k - r;
            assert(gq2[r + j] == (cs[j].hash, lc));
            lemma_child_submap(chunks, cs, lc, j);
            assert(child_ok(chunks, cs[j], lc));
            let sj = subtree(chunks, cs[j].hash, lc).unwrap();
            let fm = entries_map(chunks, flat_concat(chunks, cs, lc));
            assert forall|x: Seq<u8>| #[trigger] entries_map(chunks, sj).dom().contains(x) implies m.dom().contains(x)
                && entries_map(chunks, sj)[x] == m[x] by {
                assert(entries_map(chunks, sj).submap_of(fm));
                assert(fm.dom().contains(x) && entries_map(chunks, sj)[x] == fm[x]);
                assert(fm == entries_map(chunks, s0));
                lemma_submap_at(entries_map(chunks, s0), m, x);
            }
        }
    }
    assert forall|k: Seq<u8>| #[trigger] m.contains_key(k) implies mentions(ds, k) || exists|a: int|
        0 <= a < gq2.len() && has_key(#[trigger] subtree(chunks, gq2[a].0, gq2[a].1).unwrap(), k) by {
        if !mentions(ds, k) {
            let i = choose|i: int| 0 <= i < gq.len() && has_key(#[trigger] subtree(chunks, gq[i].0, gq[i].1).unwrap(), k);
            if i == 0 {
                lemma_key_in_child(chunks, cs, lc, k);
                let j = choose|j: int| 0 <= j < cs.len() && has_key(#[trigger] subtree(chunks, cs[j].hash, lc).unwrap(), k);
                assert(gq2[r + j] == (cs[j].hash, lc));
            } else {
                assert(gq2[i - 1] == gq[i]);
            }
        }
    }
}

/// Additions (or deletions) for every entry under `root_hash`, walking the
/// subtree breadth first.
pub fn generate_diffs_for_subtree<S: ChunkStore>(
    root_hash: crate::common::Hash,
    store: &S,
    config: &TreeConfig,
    is_addition: bool,
    Ghost(level): Ghost<nat>,
) -> (r: Result<Vec<DiffEntry>>)
    requires
        store.inv(),
        subtree(store.chunks(), root_hash@, level) is Some,
        values_resolve(store.chunks(), subtree(store.chunks(), root_hash@, level).unwrap()),
    ensures
        r matches Ok(ds) ==> {
            let m = entries_map(store.chunks(), subtree(store.chunks(), root_hash@, level).unwrap());
            &&& is_addition ==> diff_ok(diffs_view(ds@), Map::empty(), m)
            &&& !is_addition ==> diff_ok(diffs_view(ds@), m, Map::empty())
        },
    store.reliable() ==> r is Ok,
{
    let ghost chunks = store.chunks();
    let ghost m = entries_map(chunks, subtree(chunks, root_hash@, level).unwrap());
    let mut diffs: Vec<DiffEntry> = Vec::new();
    let mut queue: VecDeque<crate::common::Hash> = VecDeque::new();
    queue.push_back(root_hash);
    let ghost mut gq: Seq<(Seq<u8>, nat)> = seq![(root_hash@, level)];
    proof {
        assert(entries_map(chunks, subtree(chunks, root_hash@, level).unwrap()).submap_of(m));
        assert forall|k: Seq<u8>| #[trigger] m.contains_key(k) implies mentions(diffs_view(diffs@), k) || exists|i: int|
            0 <= i < gq.len() && has_key(#[trigger] subtree(chunks, gq[i].0, gq[i].1).unwrap(), k) by {
            assert(gq[0] == (root_hash@, level));
            assert(has_key(subtree(chunks, gq[0].0, gq[0].1).unwrap(), k));
        }
    }
    while queue.len() > 0
        invariant
            store.inv(),
            chunks == store.chunks(),
            queue@.len() == gq.len(),
            forall|i: int| 0 <= i < gq.len() ==> (#[trigger] queue@[i])@ == gq[i].0,
            walk_inv(chunks, m, is_addition, gq, diffs_view(diffs@)),
        decreases queue_size(chunks, gq),
    {
        let ghost oq = queue@;
        let hash = queue.pop_front().unwrap();
        let ghost h = gq[0].0;
        let ghost l = gq[0].1;
        let ghost rest = gq.drop_first();
        let ghost s0 = subtree(chunks, h, l).unwrap();
        proof {
            assert(oq[0]@ == gq[0].0);
            lemma_subtree_shape(chunks, h, l);
            lemma_subtree_node_content(chunks, h, l);
            assert(queue_size(chunks, gq) == tree_size(chunks, h, l) + queue_size(chunks, rest));
            assert forall|i: int| 0 <= i < rest.len() implies (#[trigger] queue@[i])@ == rest[i].0 by {
                assert(queue@[i] == oq[i + 1]);
                assert(rest[i] == gq[i + 1]);
            }
            assert(entries_map(chunks, s0).submap_of(m));
            assert(values_resolve(chunks, s0));
        }
        let node = match load_node(store, &hash) {
            Ok(n) => n,
            Err(e) => return Err(e),
        };
        let ghost d0 = diffs_view(diffs@);
        match node {
            Node::Leaf { entries, .. } => {
                match emit_leaf_entries(store, config, &entries, is_addition, &mut diffs, Ghost(m)) {
                    Ok(()) => {},
                    Err(e) => return Err(e),
                }
                proof {
                    assert(crate::node::definition::entries_view(entries@) == s0);
                    let ds = diffs_view(diffs@);
                    assert(ds.take(d0.len() as int) =~= d0) by {
                        assert forall|i: int| 0 <= i < d0.len() implies ds[i] == d0[i] by {
                            assert(diffs@.take(d0.len() as int)[i] == diffs@[i]);
                        }
                    }
                    lemma_walk_leaf(chunks, m, is_addition, gq, d0, ds);
                    gq = rest;
                }
            },
            Node::Internal { children, .. } => {
                let ghost cs = children_view(children@);
                let ghost lc = (l - 1) as nat;
                let Ghost(gq2) = enqueue_children(&children, &mut queue, Ghost(rest), Ghost(lc), Ghost(chunks));
                proof {
                    assert(tree_size(chunks, h, l) == 1 + children_size(chunks, cs, lc));
                    assert forall|k: int| 0 <= k < gq.len() - 1 implies #[trigger] gq2[k] == gq[k + 1] by {
                        assert(gq2[k] == rest[k]);
                    }
                    lemma_walk_internal(chunks, m, is_addition, gq, d0, cs, gq2);
                    gq = gq2;
                }
            },
        }
    }
    proof {
        let ds = diffs_view(diffs@);
        assert forall|k: Seq<u8>| #[trigger] m.contains_key(k) implies (if is_addition { added(ds, k) } else { deleted(ds, k) }) by {
            let w = choose|w: int| 0 <= w < ds.len() && ds[w].key == k;
            assert(one_sided_ok(ds[w], m, is_addition));
        }
    }
    Ok(diffs)
}

} // verus!

verus! {

proof fn lemma_deleted_push(ds: Seq<DiffModel>, d: DiffModel, k: Seq<u8>)
    ensures
        deleted(ds.push(d), k) == (deleted(ds, k) || (d.key == k && d.left is Some)),
        added(ds.push(d), k) == (added(ds, k) || (d.key == k && d.right is Some)),
{
    let e = ds.push(d);
    if deleted(ds, k) {
        let i = choose|i: int| 0 <= i < ds.len() && (#[trigger] ds[i]).key == k && ds[i].left is Some;
        assert(e[i] == ds[i]);
    }
    if added(ds, k) {
        let i = choose|i: int| 0 <= i < ds.len() && (#[trigger] ds[i]).key == k && ds[i].right is Some;
        assert(e[i] == ds[i]);
    }
    if deleted(e, k) {
        let i = choose|i: int| 0 <= i < e.len() && (#[trigger] e[i]).key == k && e[i].left is Some;
        if i < ds.len() {
            assert(e[i] == ds[i]);
        }
    }
    if added(e, k) {
        let i = choose|i: int| 0 <= i < e.len() && (#[trigger] e[i]).key == k && e[i].right is Some;
        if i < ds.len() {
            assert(e[i] == ds[i]);
        }
    }
    assert(e[ds.len() as int] == d);
}

proof fn lemma_entries_ok_push(ds: Seq<DiffModel>, d: DiffModel, ml: Map<Seq<u8>, Seq<u8>>, mr: Map<Seq<u8>, Seq<u8>>)
    requires
        diff_entries_ok(ds, ml, mr),
        d.left is Some || d.right is Some,
        d.left matches Some(v) ==> ml.contains_key(d.key) && ml[d.key] == v,
        d.right matches Some(v) ==> mr.contains_key(d.key) && mr[d.key] == v,
    ensures
        diff_entries_ok(ds.push(d), ml, mr),
{
    assert forall|i: int| 0 <= i < ds.push(d).len() implies {
        &&& ((#[trigger] ds.push(d)[i]).left is Some || ds.push(d)[i].right is Some)
        &&& (ds.push(d)[i].left matches Some(v) ==> ml.contains_key(ds.push(d)[i].key) && ml[ds.push(d)[i].key] == v)
        &&& (ds.push(d)[i].right matches Some(v) ==> mr.contains_key(ds.push(d)[i].key) && mr[ds.push(d)[i].key] == v)
    } by {
        if i < ds.len() {
            assert(ds.push(d)[i] == ds[i]);
        }
    }
}

/// What the merge of two sorted leaves keeps true once `i1` left entries
/// and `i2` right entries are done.
pub open spec fn leaf_merge_inv(
    ds: Seq<DiffModel>,
    e1: Seq<EntryModel>,
    e2: Seq<EntryModel>,
    i1: int,
    i2: int,
    ml: Map<Seq<u8>, Seq<u8>>,
    mr: Map<Seq<u8>, Seq<u8>>,
) -> bool {
    &&& 0 <= i1 <= e1.len()
    &&& 0 <= i2 <= e2.len()
    &&& diff_entries_ok(ds, ml, mr)
    &&& forall|d: int| 0 <= d < ds.len() && (#[trigger] ds[d]).left is Some ==> exists|a: int|
        0 <= a < i1 && e1[a].key == ds[d].key
    &&& forall|j: int| 0 <= j < i1 ==> ml.contains_key(#[trigger] e1[j].key) && covered_left(ds, ml, mr, e1[j].key)
    &&& forall|j: int| 0 <= j < i2 ==> mr.contains_key(#[trigger] e2[j].key) && (added(ds, e2[j].key) || (exists|a: int|
        0 <= a < i1 && e1[a].key == e2[j].key) && ml.contains_key(e2[j].key) && ml[e2[j].key] == mr[e2[j].key]
        && !deleted(ds, e2[j].key))
}

/// The root `h` names a stored leaf.
pub open spec fn leaf_root(chunks: Map<Seq<u8>, Seq<u8>>, h: Option<Seq<u8>>) -> bool {
    h matches Some(x) && node_at(chunks, x) matches Some(n) && n is Leaf
}

/// The value `m` gives `k`, if any.
pub open spec fn map_get(m: Map<Seq<u8>, Seq<u8>>, k: Seq<u8>) -> Option<Seq<u8>> {
    if m.contains_key(k) {
        Some(m[k])
    } else {
        None
    }
}

/// `ds` is exactly the difference from `ml` to `mr`: one entry for each key
/// the two maps give different values, carrying both values, in
/// increasing key order, and nothing else.
pub open spec fn diff_exact(ds: Seq<DiffModel>, ml: Map<Seq<u8>, Seq<u8>>, mr: Map<Seq<u8>, Seq<u8>>) -> bool {
    &&& diff_ok(ds, ml, mr)
    &&& forall|i: int|
        0 <= i < ds.len() ==> {
            &&& (#[trigger] ds[i]).left == map_get(ml, ds[i].key)
            &&& ds[i].right == map_get(mr, ds[i].key)
            &&& ds[i].left != ds[i].right
        }
    &&& forall|i: int, j: int| 0 <= i < j < ds.len() ==> lex_lt(#[trigger] ds[i].key, #[trigger] ds[j].key)
}

/// The order facts of the leaf merge: each difference carries both sides'
/// values and differs, the differences' keys increase and lie below both
/// next keys, and each key done on one side lies below the next key of the
/// other.
pub open spec fn leaf_order_inv(
    ds: Seq<DiffModel>,
    e1: Seq<EntryModel>,
    e2: Seq<EntryModel>,
    i1: int,
    i2: int,
    ml: Map<Seq<u8>, Seq<u8>>,
    mr: Map<Seq<u8>, Seq<u8>>,
) -> bool {
    &&& forall|i: int|
        0 <= i < ds.len() ==> {
            &&& (#[trigger] ds[i]).left == map_get(ml, ds[i].key)
            &&& ds[i].right == map_get(mr, ds[i].key)
            &&& ds[i].left != ds[i].right
        }
    &&& forall|i: int, j: int| 0 <= i < j < ds.len() ==> lex_lt(#[trigger] ds[i].key, #[trigger] ds[j].key)
    &&& forall|i: int| 0 <= i < ds.len() && i1 < e1.len() ==> lex_lt(#[trigger] ds[i].key, e1[i1].key)
    &&& forall|i: int| 0 <= i < ds.len() && i2 < e2.len() ==> lex_lt(#[trigger] ds[i].key, e2[i2].key)
    &&& forall|j: int| 0 <= j < i2 && i1 < e1.len() ==> lex_lt(#[trigger] e2[j].key, e1[i1].key)
    &&& forall|j: int| 0 <= j < i1 && i2 < e2.len() ==> lex_lt(#[trigger] e1[j].key, e2[i2].key)
}

/// A key below the next right key, and above every right key done, is not
/// on the right.
proof fn lemma_absent_between(e: Seq<EntryModel>, i: int, k: Seq<u8>, m: Map<Seq<u8>, Seq<u8>>, chunks: Map<Seq<u8>, Seq<u8>>)
    requires
        sorted_entries(e),
        0 <= i <= e.len(),
        m == entries_map(chunks, e),
        forall|j: int| 0 <= j < i ==> lex_lt(#[trigger] e[j].key, k),
        i < e.len() ==> lex_lt(k, e[i].key),
    ensures
        !m.contains_key(k),
{
    if m.contains_key(k) {
        let j = choose|j: int| 0 <= j < e.len() && e[j].key == k;
        if j < i {
            crate::keys::lemma_lex_lt_irreflexive(k);
        } else if j == i {
            crate::keys::lemma_lex_lt_irreflexive(k);
        } else {
            crate::keys::lemma_lex_lt_transitive(k, e[i].key, e[j].key);
            crate::keys::lemma_lex_lt_irreflexive(k);
        }
    }
}

/// One merge step keeps the order facts. `d` is the difference pushed, if
/// any; a step on both sides is on one key, a step on one side is on a key
/// below the other side's next key.
proof fn lemma_leaf_order_step(
    ds: Seq<DiffModel>,
    d: Option<DiffModel>,
    e1: Seq<EntryModel>,
    e2: Seq<EntryModel>,
    i1: int,
    i2: int,
    step1: bool,
    step2: bool,
    chunks: Map<Seq<u8>, Seq<u8>>,
)
    requires
        leaf_order_inv(ds, e1, e2, i1, i2, entries_map(chunks, e1), entries_map(chunks, e2)),
        sorted_entries(e1),
        sorted_entries(e2),
        0 <= i1 <= e1.len(),
        0 <= i2 <= e2.len(),
        step1 ==> i1 < e1.len(),
        step2 ==> i2 < e2.len(),
        step1 || step2,
        step1 ==> entries_map(chunks, e1).contains_key(e1[i1].key),
        step2 ==> entries_map(chunks, e2).contains_key(e2[i2].key),
        step1 && step2 ==> e1[i1].key == e2[i2].key,
        step1 && !step2 && i2 < e2.len() ==> lex_lt(e1[i1].key, e2[i2].key),
        step2 && !step1 && i1 < e1.len() ==> lex_lt(e2[i2].key, e1[i1].key),
        match d {
            Some(x) => {
                let ml = entries_map(chunks, e1);
                let mr = entries_map(chunks, e2);
                &&& (x.left is Some <==> step1)
                &&& (x.right is Some <==> step2)
                &&& (step1 ==> x.key == e1[i1].key && x.left == Some(ml[x.key]))
                &&& (step2 ==> x.key == e2[i2].key && x.right == Some(mr[x.key]))
                &&& (step1 && step2 ==> ml[x.key] != mr[x.key])
            },
            None => step1 && step2,
        },
    ensures
        ({
            let ds2 = match d {
                Some(x) => ds.push(x),
                None => ds,
            };
            let n1 = if step1 { i1 + 1 } else { i1 };
            let n2 = if step2 { i2 + 1 } else { i2 };
            leaf_order_inv(ds2, e1, e2, n1, n2, entries_map(chunks, e1), entries_map(chunks, e2))
        }),
{
    let ml = entries_map(chunks, e1);
    let mr = entries_map(chunks, e2);
    let ds2 = match d {
        Some(x) => ds.push(x),
        None => ds,
    };
    let n1 = if step1 { i1 + 1 } else { i1 };
    let n2 = if step2 { i2 + 1 } else { i2 };
    let k = if step1 { e1[i1].key } else { e2[i2].key };
    // the key stepped over lies below both new next keys
    assert(n1 < e1.len() ==> lex_lt(k, e1[n1].key)) by {
        if n1 < e1.len() {
            if step1 {
                assert(lex_lt(e1[i1].key, e1[n1].key));
            }
        }
    }
    assert(n2 < e2.len() ==> lex_lt(k, e2[n2].key)) by {
        if n2 < e2.len() {
            if step2 {
                assert(lex_lt(e2[i2].key, e2[n2].key));
            }
        }
    }
    // every older difference lies below k
    assert forall|i: int| 0 <= i < ds.len() implies lex_lt(#[trigger] ds[i].key, k) by {
        if step1 {
        } else {
        }
    }
    assert forall|i: int| 0 <= i < ds2.len() && n1 < e1.len() implies lex_lt(#[trigger] ds2[i].key, e1[n1].key) by {
        if i < ds.len() {
            assert(ds2[i] == ds[i]);
            crate::keys::lemma_lex_lt_transitive(ds[i].key, k, e1[n1].key);
        }
    }
    assert forall|i: int| 0 <= i < ds2.len() && n2 < e2.len() implies lex_lt(#[trigger] ds2[i].key, e2[n2].key) by {
        if i < ds.len() {
            assert(ds2[i] == ds[i]);
            crate::keys::lemma_lex_lt_transitive(ds[i].key, k, e2[n2].key);
        }
    }
    assert forall|i: int, j: int| 0 <= i < j < ds2.len() implies lex_lt(#[trigger] ds2[i].key, #[trigger] ds2[j].key) by {
        if j < ds.len() {
            assert(ds2[i] == ds[i] && ds2[j] == ds[j]);
        } else {
            assert(ds2[i] == ds[i]);
        }
    }
    assert forall|j: int| 0 <= j < n2 && n1 < e1.len() implies lex_lt(#[trigger] e2[j].key, e1[n1].key) by {
        if j < i2 {
            if step1 {
                crate::keys::lemma_lex_lt_transitive(e2[j].key, e1[i1].key, e1[n1].key);
            }
        } else {
            assert(e2[j].key == k);
        }
    }
    assert forall|j: int| 0 <= j < n1 && n2 < e2.len() implies lex_lt(#[trigger] e1[j].key, e2[n2].key) by {
        if j < i1 {
            if step2 {
                crate::keys::lemma_lex_lt_transitive(e1[j].key, e2[i2].key, e2[n2].key);
            }
        } else {
            assert(e1[j].key == k);
        }
    }
    match d {
        Some(x) => {
            if !step2 {
                lemma_absent_between(e2, i2, k, mr, chunks);
            }
            if !step1 {
                lemma_absent_between(e1, i1, k, ml, chunks);
            }
            assert forall|i: int| 0 <= i < ds2.len() implies {
                &&& (#[trigger] ds2[i]).left == map_get(ml, ds2[i].key)
                &&& ds2[i].right == map_get(mr, ds2[i].key)
                &&& ds2[i].left != ds2[i].right
            } by {
                if i < ds.len() {
                    assert(ds2[i] == ds[i]);
                }
            }
        },
        None => {},
    }
}

/// One merge step: `d` (if any) accounts for left entry `i1` when `step1`,
/// and right entry `i2` when `step2`.
proof fn lemma_leaf_merge_step(
    ds: Seq<DiffModel>,
    d: Option<DiffModel>,
    e1: Seq<EntryModel>,
    e2: Seq<EntryModel>,
    i1: int,
    i2: int,
    step1: bool,
    step2: bool,
    ml: Map<Seq<u8>, Seq<u8>>,
    mr: Map<Seq<u8>, Seq<u8>>,
)
    requires
        leaf_merge_inv(ds, e1, e2, i1, i2, ml, mr),
        sorted_entries(e1),
        step1 ==> i1 < e1.len(),
        step2 ==> i2 < e2.len(),
        step1 || step2,
        step1 ==> ml.contains_key(e1[i1].key),
        step2 ==> mr.contains_key(e2[i2].key),
        step1 && step2 ==> e1[i1].key == e2[i2].key,
        match d {
            Some(x) => {
                &&& (x.left is Some <==> step1)
                &&& (x.right is Some <==> step2)
                &&& (step1 ==> x.key == e1[i1].key && x.left == Some(ml[x.key]))
                &&& (step2 ==> x.key == e2[i2].key && x.right == Some(mr[x.key]))
            },
            None => step1 && step2 && ml[e1[i1].key] == mr[e1[i1].key],
        },
    ensures
        leaf_merge_inv(
            match d {
                Some(x) => ds.push(x),
                None => ds,
            },
            e1,
            e2,
            if step1 {
                i1 + 1
            } else {
                i1
            },
            if step2 {
                i2 + 1
            } else {
                i2
            },
            ml,
            mr,
        ),
{
    let ds2 = match d {
        Some(x) => ds.push(x),
        None => ds,
    };
    let n1 = if step1 {
        i1 + 1
    } else {
        i1
    };
    let n2 = if step2 {
        i2 + 1
    } else {
        i2
    };
    assert forall|k: Seq<u8>| #![trigger deleted(ds2, k)] #![trigger added(ds2, k)]
        deleted(ds2, k) == (deleted(ds, k) || (step1 && d is Some && k == e1[i1].key)) && (added(ds, k) ==> added(ds2, k))
            && (step2 && d is Some && k == e2[i2].key ==> added(ds2, k)) by {
        match d {
            Some(x) => lemma_deleted_push(ds, x, k),
            None => {},
        }
    }
    match d {
        Some(x) => lemma_entries_ok_push(ds, x, ml, mr),
        None => {},
    }
    assert forall|dd: int| 0 <= dd < ds2.len() && (#[trigger] ds2[dd]).left is Some implies exists|a: int|
        0 <= a < n1 && e1[a].key == ds2[dd].key by {
        if dd < ds.len() {
            assert(ds2[dd] == ds[dd]);
            let a = choose|a: int| 0 <= a < i1 && e1[a].key == ds[dd].key;
            assert(0 <= a < n1 && e1[a].key == ds2[dd].key);
        } else {
            assert(0 <= i1 < n1 && e1[i1].key == ds2[dd].key);
        }
    }
    assert forall|j: int| 0 <= j < n1 implies ml.contains_key(#[trigger] e1[j].key) && covered_left(ds2, ml, mr, e1[j].key) by {
        if j < i1 {
            assert(covered_left(ds, ml, mr, e1[j].key));
        } else {
            if d is None {
                assert(mr.contains_key(e1[i1].key));
            }
        }
    }
    assert forall|j: int| 0 <= j < n2 implies mr.contains_key(#[trigger] e2[j].key) && (added(ds2, e2[j].key) || (exists|a: int|
        0 <= a < n1 && e1[a].key == e2[j].key) && ml.contains_key(e2[j].key) && ml[e2[j].key] == mr[e2[j].key]
        && !deleted(ds2, e2[j].key)) by {
        let k = e2[j].key;
        if j < i2 {
            if !added(ds, k) {
                let a = choose|a: int| 0 <= a < i1 && e1[a].key == k;
                assert(0 <= a < n1 && e1[a].key == k);
                if step1 {
                    if k == e1[i1].key {
                        crate::tree::model::lemma_sorted_unique(e1, a, i1);
                    }
                }
            }
        } else {
            if d is None {
                assert(0 <= i1 < n1 && e1[i1].key == k);
                if deleted(ds, k) {
                    let dd = choose|dd: int| 0 <= dd < ds.len() && (#[trigger] ds[dd]).key == k && ds[dd].left is Some;
                    let a = choose|a: int| 0 <= a < i1 && e1[a].key == ds[dd].key;
                    crate::tree::model::lemma_sorted_unique(e1, a, i1);
                }
            }
        }
    }
}

} // verus!

verus! {

/// The merge invariant at the end is a difference between the two maps.
proof fn lemma_leaf_merge_done(
    ds: Seq<DiffModel>,
    e1: Seq<EntryModel>,
    e2: Seq<EntryModel>,
    chunks: Map<Seq<u8>, Seq<u8>>,
)
    requires
        leaf_merge_inv(ds, e1, e2, e1.len() as int, e2.len() as int, entries_map(chunks, e1), entries_map(chunks, e2)),
    ensures
        diff_ok(ds, entries_map(chunks, e1), entries_map(chunks, e2)),
{
    let ml = entries_map(chunks, e1);
    let mr = entries_map(chunks, e2);
    assert forall|k: Seq<u8>| #[trigger] ml.contains_key(k) implies covered_left(ds, ml, mr, k) by {
        let j = choose|j: int| 0 <= j < e1.len() && e1[j].key == k;
        assert(ml.contains_key(e1[j].key));
    }
    assert forall|k: Seq<u8>| #[trigger] mr.contains_key(k) implies covered_right(ds, ml, mr, k) by {
        let j = choose|j: int| 0 <= j < e2.len() && e2[j].key == k;
        assert(mr.contains_key(e2[j].key));
    }
}

/// The value an entry's key maps to.
proof fn lemma_entry_value(chunks: Map<Seq<u8>, Seq<u8>>, es: Seq<EntryModel>, i: int, v: Seq<u8>)
    requires
        sorted_entries(es),
        0 <= i < es.len(),
        resolve_value(chunks, es[i].value) == Some(v),
    ensures
        entries_map(chunks, es).contains_key(es[i].key),
        entries_map(chunks, es)[es[i].key] == v,
{
    lemma_lookup_at(es, i);
}

/// Sorted merge of two leaves' entries: a deletion for a key only on the
/// left, an addition for a key only on the right, a modification for a key
/// whose values differ.
fn diff_leaf_entries<S: ChunkStore>(
    store: &S,
    config: &TreeConfig,
    entries1: &Vec<crate::node::definition::LeafEntry>,
    entries2: &Vec<crate::node::definition::LeafEntry>,
) -> (r: Result<Vec<DiffEntry>>)
    requires
        store.inv(),
        sorted_entries(crate::node::definition::entries_view(entries1@)),
        sorted_entries(crate::node::definition::entries_view(entries2@)),
    ensures
        store.reliable() && values_resolve(store.chunks(), crate::node::definition::entries_view(entries1@))
            && values_resolve(store.chunks(), crate::node::definition::entries_view(entries2@)) ==> r is Ok,
        r matches Ok(ds) ==> diff_exact(
            diffs_view(ds@),
            entries_map(store.chunks(), crate::node::definition::entries_view(entries1@)),
            entries_map(store.chunks(), crate::node::definition::entries_view(entries2@)),
        ),
{
    let ghost chunks = store.chunks();
    let ghost e1 = crate::node::definition::entries_view(entries1@);
    let ghost e2 = crate::node::definition::entries_view(entries2@);
    let ghost ml = entries_map(chunks, e1);
    let ghost mr = entries_map(chunks, e2);
    let mut diffs: Vec<DiffEntry> = Vec::new();
    let mut i1: usize = 0;
    let mut i2: usize = 0;
    proof {
        assert(diffs_view(diffs@) =~= Seq::<DiffModel>::empty());
    }
    while i1 < entries1.len() || i2 < entries2.len()
        invariant
            store.inv(),
            chunks == store.chunks(),
            e1 == crate::node::definition::entries_view(entries1@),
            e2 == crate::node::definition::entries_view(entries2@),
            sorted_entries(e1),
            sorted_entries(e2),
            ml == entries_map(chunks, e1),
            mr == entries_map(chunks, e2),
            leaf_merge_inv(diffs_view(diffs@), e1, e2, i1 as int, i2 as int, ml, mr),
            leaf_order_inv(diffs_view(diffs@), e1, e2, i1 as int, i2 as int, ml, mr),
            store.reliable() && values_resolve(chunks, e1) && values_resolve(chunks, e2) ==> {
                &&& (i1 < e1.len() ==> resolve_value(chunks, e1[i1 as int].value) is Some)
                &&& (i2 < e2.len() ==> resolve_value(chunks, e2[i2 as int].value) is Some)
            },
        decreases (entries1@.len() - i1) + (entries2@.len() - i2),
    {
        let ghost ds = diffs_view(diffs@);
        let take_left: bool;
        let take_right: bool;
        if i1 < entries1.len() && i2 < entries2.len() {
            match crate::keys::compare_keys(entries1[i1].key.as_slice(), entries2[i2].key.as_slice()) {
                crate::keys::KeyOrder::Less => {
                    take_left = true;
                    take_right = false;
                },
                crate::keys::KeyOrder::Greater => {
                    take_left = false;
                    take_right = true;
                },
                crate::keys::KeyOrder::Equal => {
                    take_left = true;
                    take_right = true;
                },
            }
        } else if i1 < entries1.len() {
            take_left = true;
            take_right = false;
        } else {
            take_left = false;
            take_right = true;
        }
        proof {
            if take_left {
                assert(e1[i1 as int] == entries1@[i1 as int]@);
            }
            if take_right {
                assert(e2[i2 as int] == entries2@[i2 as int]@);
            }
            assert(take_left && !take_right && i2 < e2.len() ==> lex_lt(e1[i1 as int].key, e2[i2 as int].key));
            assert(take_right && !take_left && i1 < e1.len() ==> lex_lt(e2[i2 as int].key, e1[i1 as int].key));
            assert(take_left && take_right ==> e1[i1 as int].key == e2[i2 as int].key);
        }
        if take_left && take_right {
            let val1 = match load_value_repr(store, &entries1[i1].value) {
                Ok(v) => v,
                Err(e) => return Err(e),
            };
            let val2 = match load_value_repr(store, &entries2[i2].value) {
                Ok(v) => v,
                Err(e) => return Err(e),
            };
            proof {
                lemma_entry_value(chunks, e1, i1 as int, val1@);
                lemma_entry_value(chunks, e2, i2 as int, val2@);
            }
            if !crate::store::mem_store::bytes_eq(&val1, &val2) {
                let d = DiffEntry::modification(entries1[i1].key.clone(), val1, val2);
                proof {
                    lemma_leaf_merge_step(ds, Some(d@), e1, e2, i1 as int, i2 as int, true, true, ml, mr);
                    lemma_leaf_order_step(ds, Some(d@), e1, e2, i1 as int, i2 as int, true, true, chunks);
                }
                diffs.push(d);
            } else {
                proof {
                    lemma_leaf_merge_step(ds, None, e1, e2, i1 as int, i2 as int, true, true, ml, mr);
                    lemma_leaf_order_step(ds, None, e1, e2, i1 as int, i2 as int, true, true, chunks);
                }
            }
            i1 = i1 + 1;
            i2 = i2 + 1;
        } else if take_left {
            let val = match load_value_repr(store, &entries1[i1].value) {
                Ok(v) => v,
                Err(e) => return Err(e),
            };
            proof {
                lemma_entry_value(chunks, e1, i1 as int, val@);
            }
            let d = DiffEntry::deletion(entries1[i1].key.clone(), val);
            proof {
                lemma_leaf_merge_step(ds, Some(d@), e1, e2, i1 as int, i2 as int, true, false, ml, mr);
                lemma_leaf_order_step(ds, Some(d@), e1, e2, i1 as int, i2 as int, true, false, chunks);
            }
            diffs.push(d);
            i1 = i1 + 1;
        } else {
            let val = match load_value_repr(store, &entries2[i2].value) {
                Ok(v) => v,
                Err(e) => return Err(e),
            };
            proof {
                lemma_entry_value(chunks, e2, i2 as int, val@);
            }
            let d = DiffEntry::addition(entries2[i2].key.clone(), val);
            proof {
                lemma_leaf_merge_step(ds, Some(d@), e1, e2, i1 as int, i2 as int, false, true, ml, mr);
                lemma_leaf_order_step(ds, Some(d@), e1, e2, i1 as int, i2 as int, false, true, chunks);
            }
            diffs.push(d);
            i2 = i2 + 1;
        }
        proof {
            assert(diffs_view(diffs@) =~= if diffs@.len() > ds.len() { ds.push(diffs@[diffs@.len() - 1]@) } else { ds });
        }
    }
    proof {
        lemma_leaf_merge_done(diffs_view(diffs@), e1, e2, chunks);
    }
    Ok(diffs)
}

} // verus!

verus! {

proof fn lemma_deleted_concat(a: Seq<DiffModel>, b: Seq<DiffModel>, k: Seq<u8>)
    ensures
        deleted(a + b, k) == (deleted(a, k) || deleted(b, k)),
        added(a + b, k) == (added(a, k) || added(b, k)),
{
    let e = a + b;
    if deleted(a, k) {
        let i = choose|i: int| 0 <= i < a.len() && (#[trigger] a[i]).key == k && a[i].left is Some;
        assert(e[i] == a[i]);
    }
    if added(a, k) {
        let i = choose|i: int| 0 <= i < a.len() && (#[trigger] a[i]).key == k && a[i].right is Some;
        assert(e[i] == a[i]);
    }
    if deleted(b, k) {
        let i = choose|i: int| 0 <= i < b.len() && (#[trigger] b[i]).key == k && b[i].left is Some;
        assert(e[a.len() + i] == b[i]);
    }
    if added(b, k) {
        let i = choose|i: int| 0 <= i < b.len() && (#[trigger] b[i]).key == k && b[i].right is Some;
        assert(e[a.len() + i] == b[i]);
    }
    if deleted(e, k) {
        let i = choose|i: int| 0 <= i < e.len() && (#[trigger] e[i]).key == k && e[i].left is Some;
        if i < a.len() {
            assert(e[i] == a[i]);
        } else {
            assert(e[i] == b[i - a.len()]);
        }
    }
    if added(e, k) {
        let i = choose|i: int| 0 <= i < e.len() && (#[trigger] e[i]).key == k && e[i].right is Some;
        if i < a.len() {
            assert(e[i] == a[i]);
        } else {
            assert(e[i] == b[i - a.len()]);
        }
    }
}

/// Keys under an earlier child are smaller than keys under a later one.
proof fn lemma_child_keys_ordered(
    chunks: Map<Seq<u8>, Seq<u8>>,
    cs: Seq<ChildModel>,
    lc: nat,
    a: int,
    b: int,
    k1: Seq<u8>,
    k2: Seq<u8>,
)
    requires
        children_ok(chunks, cs, lc),
        sorted_entries(flat_concat(chunks, cs, lc)),
        0 <= a < b < cs.len(),
        has_key(subtree(chunks, cs[a].hash, lc).unwrap(), k1),
        has_key(subtree(chunks, cs[b].hash, lc).unwrap(), k2),
    ensures
        k1 != k2,
{
    let s = flat_concat(chunks, cs, lc);
    lemma_children_split(chunks, cs, lc, b);
    let pre = flat_concat(chunks, cs.take(b), lc);
    let sb = subtree(chunks, cs[b].hash, lc).unwrap();
    crate::tree::model::lemma_children_ok_sub(chunks, cs, b, b, lc);
    let tb = cs.take(b);
    assert(tb[a] == cs[a]);
    lemma_children_split(chunks, tb, lc, a);
    let pa = flat_concat(chunks, tb.take(a), lc);
    let sa = subtree(chunks, cs[a].hash, lc).unwrap();
    let x = choose|x: int| 0 <= x < sa.len() && sa[x].key == k1;
    let y = choose|y: int| 0 <= y < sb.len() && sb[y].key == k2;
    assert(pre[pa.len() + x] == sa[x]);
    assert(s[pa.len() + x] == pre[pa.len() + x]);
    assert(s[pre.len() + y] == sb[y]);
    crate::keys::lemma_lex_lt_irreflexive(k1);
}

/// The keys under child `i` of the left or right list.
pub open spec fn child_keys(chunks: Map<Seq<u8>, Seq<u8>>, cs: Seq<ChildModel>, lc: nat, i: int, k: Seq<u8>) -> bool {
    has_key(subtree(chunks, cs[i].hash, lc).unwrap(), k)
}

/// What the merge of two lists of children keeps true once `i1` left and
/// `i2` right children are done.
pub open spec fn child_merge_inv(
    chunks: Map<Seq<u8>, Seq<u8>>,
    ds: Seq<DiffModel>,
    cs1: Seq<ChildModel>,
    cs2: Seq<ChildModel>,
    lc: nat,
    i1: int,
    i2: int,
    ml: Map<Seq<u8>, Seq<u8>>,
    mr: Map<Seq<u8>, Seq<u8>>,
) -> bool {
    &&& 0 <= i1 <= cs1.len()
    &&& 0 <= i2 <= cs2.len()
    &&& diff_entries_ok(ds, ml, mr)
    &&& forall|d: int| 0 <= d < ds.len() && (#[trigger] ds[d]).left is Some ==> exists|a: int|
        0 <= a < i1 && child_keys(chunks, cs1, lc, a, ds[d].key)
    &&& forall|a: int, k: Seq<u8>| 0 <= a < i1 && #[trigger] child_keys(chunks, cs1, lc, a, k) ==> ml.contains_key(k)
        && covered_left(ds, ml, mr, k)
    &&& forall|b: int, k: Seq<u8>| 0 <= b < i2 && #[trigger] child_keys(chunks, cs2, lc, b, k) ==> mr.contains_key(k) && (
    added(ds, k) || (exists|a: int| 0 <= a < i1 && child_keys(chunks, cs1, lc, a, k)) && ml.contains_key(k) && ml[k]
        == mr[k] && !deleted(ds, k))
}

/// The map under one child (empty when the child takes no part in a step).
pub open spec fn step_map(chunks: Map<Seq<u8>, Seq<u8>>, cs: Seq<ChildModel>, lc: nat, i: int, step: bool) -> Map<Seq<u8>, Seq<u8>> {
    if step {
        entries_map(chunks, subtree(chunks, cs[i].hash, lc).unwrap())
    } else {
        Map::empty()
    }
}

/// Well-formed children with sorted, readable entries.
pub open spec fn children_wf(chunks: Map<Seq<u8>, Seq<u8>>, cs: Seq<ChildModel>, lc: nat) -> bool {
    &&& children_ok(chunks, cs, lc)
    &&& sorted_entries(flat_concat(chunks, cs, lc))
    &&& values_resolve(chunks, flat_concat(chunks, cs, lc))
}

/// One step of the children merge: `dc` is a difference between the
/// children that take part.
#[verifier::spinoff_prover]
proof fn lemma_child_merge_step(
    chunks: Map<Seq<u8>, Seq<u8>>,
    ds: Seq<DiffModel>,
    dc: Seq<DiffModel>,
    cs1: Seq<ChildModel>,
    cs2: Seq<ChildModel>,
    lc: nat,
    i1: int,
    i2: int,
    step1: bool,
    step2: bool,
)
    requires
        children_wf(chunks, cs1, lc),
        children_wf(chunks, cs2, lc),
        child_merge_inv(
            chunks,
            ds,
            cs1,
            cs2,
            lc,
            i1,
            i2,
            entries_map(chunks, flat_concat(chunks, cs1, lc)),
            entries_map(chunks, flat_concat(chunks, cs2, lc)),
        ),
        step1 || step2,
        step1 ==> i1 < cs1.len(),
        step2 ==> i2 < cs2.len(),
        diff_ok(dc, step_map(chunks, cs1, lc, i1, step1), step_map(chunks, cs2, lc, i2, step2)),
    ensures
        child_merge_inv(
            chunks,
            ds + dc,
            cs1,
            cs2,
            lc,
            if step1 {
                i1 + 1
            } else {
                i1
            },
            if step2 {
                i2 + 1
            } else {
                i2
            },
            entries_map(chunks, flat_concat(chunks, cs1, lc)),
            entries_map(chunks, flat_concat(chunks, cs2, lc)),
        ),
{
    let ml = entries_map(chunks, flat_concat(chunks, cs1, lc));
    let mr = entries_map(chunks, flat_concat(chunks, cs2, lc));
    let m1 = step_map(chunks, cs1, lc, i1, step1);
    let m2 = step_map(chunks, cs2, lc, i2, step2);
    let n1 = if step1 {
        i1 + 1
    } else {
        i1
    };
    let n2 = if step2 {
        i2 + 1
    } else {
        i2
    };
    let e = ds + dc;
    if step1 {
        lemma_child_submap(chunks, cs1, lc, i1);
    }
    if step2 {
        lemma_child_submap(chunks, cs2, lc, i2);
    }
    assert(m1.submap_of(ml));
    assert(m2.submap_of(mr));
    assert forall|k: Seq<u8>| #![trigger deleted(e, k)] #![trigger added(e, k)]
        deleted(e, k) == (deleted(ds, k) || deleted(dc, k)) && added(e, k) == (added(ds, k) || added(dc, k)) by {
        lemma_deleted_concat(ds, dc, k);
    }
    assert forall|i: int| 0 <= i < e.len() implies {
        &&& ((#[trigger] e[i]).left is Some || e[i].right is Some)
        &&& (e[i].left matches Some(v) ==> ml.contains_key(e[i].key) && ml[e[i].key] == v)
        &&& (e[i].right matches Some(v) ==> mr.contains_key(e[i].key) && mr[e[i].key] == v)
    } by {
        if i < ds.len() {
            assert(e[i] == ds[i]);
        } else {
            let x = e[i];
            assert(x == dc[i - ds.len()]);
            if x.left is Some {
                lemma_submap_at(m1, ml, x.key);
            }
            if x.right is Some {
                lemma_submap_at(m2, mr, x.key);
            }
        }
    }
    assert forall|d: int| 0 <= d < e.len() && (#[trigger] e[d]).left is Some implies exists|a: int|
        0 <= a < n1 && child_keys(chunks, cs1, lc, a, e[d].key) by {
        if d < ds.len() {
            assert(e[d] == ds[d]);
            let a = choose|a: int| 0 <= a < i1 && child_keys(chunks, cs1, lc, a, ds[d].key);
            assert(0 <= a < n1 && child_keys(chunks, cs1, lc, a, e[d].key));
        } else {
            assert(e[d] == dc[d - ds.len()]);
            assert(m1.contains_key(e[d].key));
            assert(0 <= i1 < n1 && child_keys(chunks, cs1, lc, i1, e[d].key));
        }
    }
    assert forall|a: int, k: Seq<u8>| 0 <= a < n1 && #[trigger] child_keys(chunks, cs1, lc, a, k) implies ml.contains_key(k)
        && covered_left(e, ml, mr, k) by {
        if a < i1 {
            assert(covered_left(ds, ml, mr, k));
        } else {
            assert(m1.contains_key(k));
            lemma_submap_at(m1, ml, k);
            if !deleted(dc, k) {
                lemma_submap_at(m2, mr, k);
            }
        }
    }
    assert forall|b: int, k: Seq<u8>| 0 <= b < n2 && #[trigger] child_keys(chunks, cs2, lc, b, k) implies mr.contains_key(k) && (
    added(e, k) || (exists|a: int| 0 <= a < n1 && child_keys(chunks, cs1, lc, a, k)) && ml.contains_key(k) && ml[k]
        == mr[k] && !deleted(e, k)) by {
        if b < i2 {
            if !added(ds, k) {
                let a = choose|a: int| 0 <= a < i1 && child_keys(chunks, cs1, lc, a, k);
                assert(0 <= a < n1 && child_keys(chunks, cs1, lc, a, k));
                if deleted(dc, k) {
                    let w = choose|w: int| 0 <= w < dc.len() && (#[trigger] dc[w]).key == k && dc[w].left is Some;
                    assert(m1.contains_key(k));
                    lemma_child_keys_ordered(chunks, cs1, lc, a, i1, k, k);
                }
            }
        } else {
            assert(m2.contains_key(k));
            lemma_submap_at(m2, mr, k);
            if !added(dc, k) {
                assert(m1.contains_key(k));
                lemma_submap_at(m1, ml, k);
                assert(0 <= i1 < n1 && child_keys(chunks, cs1, lc, i1, k));
                if deleted(ds, k) {
                    let w = choose|w: int| 0 <= w < ds.len() && (#[trigger] ds[w]).key == k && ds[w].left is Some;
                    let a = choose|a: int| 0 <= a < i1 && child_keys(chunks, cs1, lc, a, ds[w].key);
                    lemma_child_keys_ordered(chunks, cs1, lc, a, i1, k, k);
                }
            }
        }
    }
}

} // verus!

verus! {

/// No difference between a map and itself.
proof fn lemma_diff_same(m: Map<Seq<u8>, Seq<u8>>)
    ensures
        diff_ok(Seq::empty(), m, m),
{
    assert forall|k: Seq<u8>| #[trigger] m.contains_key(k) implies !deleted(Seq::<DiffModel>::empty(), k) by {}
}

/// Deleting everything on the left and adding everything on the right.
proof fn lemma_diff_replace(dl: Seq<DiffModel>, da: Seq<DiffModel>, ml: Map<Seq<u8>, Seq<u8>>, mr: Map<Seq<u8>, Seq<u8>>)
    requires
        diff_ok(dl, ml, Map::empty()),
        diff_ok(da, Map::empty(), mr),
    ensures
        diff_ok(dl + da, ml, mr),
{
    let e = dl + da;
    assert forall|k: Seq<u8>| #![trigger deleted(e, k)] #![trigger added(e, k)]
        deleted(e, k) == (deleted(dl, k) || deleted(da, k)) && added(e, k) == (added(dl, k) || added(da, k)) by {
        lemma_deleted_concat(dl, da, k);
    }
    assert forall|i: int| 0 <= i < e.len() implies {
        &&& ((#[trigger] e[i]).left is Some || e[i].right is Some)
        &&& (e[i].left matches Some(v) ==> ml.contains_key(e[i].key) && ml[e[i].key] == v)
        &&& (e[i].right matches Some(v) ==> mr.contains_key(e[i].key) && mr[e[i].key] == v)
    } by {
        if i < dl.len() {
            assert(e[i] == dl[i]);
        } else {
            assert(e[i] == da[i - dl.len()]);
        }
    }
}

/// The children merge at its end is a difference between the two lists.
proof fn lemma_child_merge_done(chunks: Map<Seq<u8>, Seq<u8>>, ds: Seq<DiffModel>, cs1: Seq<ChildModel>, cs2: Seq<ChildModel>, lc: nat)
    requires
        children_wf(chunks, cs1, lc),
        children_wf(chunks, cs2, lc),
        child_merge_inv(
            chunks,
            ds,
            cs1,
            cs2,
            lc,
            cs1.len() as int,
            cs2.len() as int,
            entries_map(chunks, flat_concat(chunks, cs1, lc)),
            entries_map(chunks, flat_concat(chunks, cs2, lc)),
        ),
    ensures
        diff_ok(ds, entries_map(chunks, flat_concat(chunks, cs1, lc)), entries_map(chunks, flat_concat(chunks, cs2, lc))),
{
    let ml = entries_map(chunks, flat_concat(chunks, cs1, lc));
    let mr = entries_map(chunks, flat_concat(chunks, cs2, lc));
    assert forall|k: Seq<u8>| #[trigger] ml.contains_key(k) implies covered_left(ds, ml, mr, k) by {
        lemma_key_in_child(chunks, cs1, lc, k);
        let a = choose|a: int| 0 <= a < cs1.len() && has_key(#[trigger] subtree(chunks, cs1[a].hash, lc).unwrap(), k);
        assert(child_keys(chunks, cs1, lc, a, k));
    }
    assert forall|k: Seq<u8>| #[trigger] mr.contains_key(k) implies covered_right(ds, ml, mr, k) by {
        lemma_key_in_child(chunks, cs2, lc, k);
        let b = choose|b: int| 0 <= b < cs2.len() && has_key(#[trigger] subtree(chunks, cs2[b].hash, lc).unwrap(), k);
        assert(child_keys(chunks, cs2, lc, b, k));
    }
}

/// Two subtrees at `level` line up: the same hash, two leaves, or two
/// internal nodes whose children have the same boundaries, pair by pair,
/// and line up where their hashes differ.
pub open spec fn aligned(chunks: Map<Seq<u8>, Seq<u8>>, l: Seq<u8>, r: Seq<u8>, level: nat) -> bool
    decreases level, 0nat, 0nat,
{
    if l == r {
        true
    } else if level == 0 {
        &&& node_at(chunks, l) matches Some(NodeModel::Leaf { .. })
        &&& node_at(chunks, r) matches Some(NodeModel::Leaf { .. })
    } else {
        match (node_at(chunks, l), node_at(chunks, r)) {
            (Some(NodeModel::Internal { children: cs1, .. }), Some(NodeModel::Internal { children: cs2, .. })) => {
                aligned_children(chunks, cs1, cs2, (level - 1) as nat)
            },
            _ => false,
        }
    }
}

/// Two lists of children at `level` line up pair by pair (see `aligned`).
pub open spec fn aligned_children(chunks: Map<Seq<u8>, Seq<u8>>, cs1: Seq<ChildModel>, cs2: Seq<ChildModel>, level: nat) -> bool
    decreases level, 1nat, cs1.len(),
{
    if cs1.len() == 0 {
        cs2.len() == 0
    } else {
        &&& cs2.len() == cs1.len()
        &&& cs1.last().boundary == cs2.last().boundary
        &&& (cs1.last().hash == cs2.last().hash || aligned(chunks, cs1.last().hash, cs2.last().hash, level))
        &&& aligned_children(chunks, cs1.drop_last(), cs2.drop_last(), level)
    }
}

proof fn lemma_aligned_at(chunks: Map<Seq<u8>, Seq<u8>>, cs1: Seq<ChildModel>, cs2: Seq<ChildModel>, level: nat, j: int)
    requires
        aligned_children(chunks, cs1, cs2, level),
        0 <= j < cs1.len(),
    ensures
        cs2.len() == cs1.len(),
        cs1[j].boundary == cs2[j].boundary,
        cs1[j].hash == cs2[j].hash || aligned(chunks, cs1[j].hash, cs2[j].hash, level),
    decreases cs1.len(),
{
    if j < cs1.len() - 1 {
        lemma_aligned_at(chunks, cs1.drop_last(), cs2.drop_last(), level, j);
    }
}

/// A key under child `a` lies above the boundary before it and at or below
/// its own.
proof fn lemma_child_range(chunks: Map<Seq<u8>, Seq<u8>>, cs: Seq<ChildModel>, level: nat, a: int, k: Seq<u8>)
    requires
        children_ok(chunks, cs, level),
        sorted_entries(flat_concat(chunks, cs, level)),
        0 <= a < cs.len(),
        has_key(subtree(chunks, cs[a].hash, level).unwrap(), k),
    ensures
        crate::keys::lex_le(k, cs[a].boundary),
        a > 0 ==> lex_lt(cs[a - 1].boundary, k),
{
    lemma_children_split(chunks, cs, level, a);
    let pre = flat_concat(chunks, cs.take(a), level);
    let x = subtree(chunks, cs[a].hash, level).unwrap();
    let suf = flat_concat(chunks, cs.skip(a + 1), level);
    lemma_sorted_split(pre + x, suf);
    lemma_sorted_split(pre, x);
    let j = choose|j: int| 0 <= j < x.len() && x[j].key == k;
    assert(child_ok(chunks, cs[a], level));
    if j < x.len() - 1 {
        assert(lex_lt(x[j].key, x[x.len() - 1].key));
    }
    if a > 0 {
        crate::tree::model::lemma_children_ok_sub(chunks, cs, 0, a, level);
        let t = cs.take(a);
        assert(t.last() == cs[a - 1]);
        crate::tree::model::lemma_flat_last(chunks, t, level);
        assert((pre + x)[pre.len() - 1] == pre[pre.len() - 1]);
        assert((pre + x)[pre.len() + j] == x[j]);
    }
}

/// The order facts of a merge of lined-up children after `i` pairs: each
/// difference carries both sides' values and differs, and the keys
/// increase and lie at or below the boundary of pair `i - 1`.
pub open spec fn aligned_merge_inv(
    ds: Seq<DiffModel>,
    ml: Map<Seq<u8>, Seq<u8>>,
    mr: Map<Seq<u8>, Seq<u8>>,
    cs: Seq<ChildModel>,
    i: int,
) -> bool {
    &&& forall|x: int|
        0 <= x < ds.len() ==> {
            &&& (#[trigger] ds[x]).left == map_get(ml, ds[x].key)
            &&& ds[x].right == map_get(mr, ds[x].key)
            &&& ds[x].left != ds[x].right
            &&& i > 0 && crate::keys::lex_le(ds[x].key, cs[i - 1].boundary)
        }
    &&& forall|x: int, y: int| 0 <= x < y < ds.len() ==> lex_lt(#[trigger] ds[x].key, #[trigger] ds[y].key)
}

/// Reading a key of pair `i`'s range in one child's map is reading it in
/// the whole list's map.
proof fn lemma_pair_value(chunks: Map<Seq<u8>, Seq<u8>>, cs: Seq<ChildModel>, level: nat, i: int, k: Seq<u8>)
    requires
        children_wf(chunks, cs, level),
        0 <= i < cs.len(),
        crate::keys::lex_le(k, cs[i].boundary),
        i > 0 ==> lex_lt(cs[i - 1].boundary, k),
    ensures
        map_get(step_map(chunks, cs, level, i, true), k) == map_get(entries_map(chunks, flat_concat(chunks, cs, level)), k),
{
    lemma_child_submap(chunks, cs, level, i);
    if !has_key(subtree(chunks, cs[i].hash, level).unwrap(), k) {
        lemma_outside_child(chunks, cs, level, i, k);
    }
}

/// One pair of lined-up children merged: their exact difference extends
/// the exact difference of the pairs before.
#[verifier::spinoff_prover]
proof fn lemma_aligned_step(
    chunks: Map<Seq<u8>, Seq<u8>>,
    ds: Seq<DiffModel>,
    dc: Seq<DiffModel>,
    cs1: Seq<ChildModel>,
    cs2: Seq<ChildModel>,
    lc: nat,
    i: int,
)
    requires
        children_wf(chunks, cs1, lc),
        children_wf(chunks, cs2, lc),
        aligned_children(chunks, cs1, cs2, lc),
        0 <= i < cs1.len(),
        aligned_merge_inv(
            ds,
            entries_map(chunks, flat_concat(chunks, cs1, lc)),
            entries_map(chunks, flat_concat(chunks, cs2, lc)),
            cs1,
            i,
        ),
        diff_exact(dc, step_map(chunks, cs1, lc, i, true), step_map(chunks, cs2, lc, i, true)),
    ensures
        aligned_merge_inv(
            ds + dc,
            entries_map(chunks, flat_concat(chunks, cs1, lc)),
            entries_map(chunks, flat_concat(chunks, cs2, lc)),
            cs1,
            i + 1,
        ),
{
    let ml = entries_map(chunks, flat_concat(chunks, cs1, lc));
    let mr = entries_map(chunks, flat_concat(chunks, cs2, lc));
    let s1 = step_map(chunks, cs1, lc, i, true);
    let s2 = step_map(chunks, cs2, lc, i, true);
    lemma_aligned_at(chunks, cs1, cs2, lc, i);
    if i > 0 {
        lemma_aligned_at(chunks, cs1, cs2, lc, i - 1);
    }
    let all = ds + dc;
    assert forall|y: int| 0 <= y < dc.len() implies {
        &&& (#[trigger] dc[y]).left == map_get(ml, dc[y].key)
        &&& dc[y].right == map_get(mr, dc[y].key)
        &&& crate::keys::lex_le(dc[y].key, cs1[i].boundary)
        &&& (i > 0 ==> lex_lt(cs1[i - 1].boundary, dc[y].key))
    } by {
        let k = dc[y].key;
        if s1.contains_key(k) {
            lemma_child_range(chunks, cs1, lc, i, k);
        } else {
            assert(s2.contains_key(k));
            lemma_child_range(chunks, cs2, lc, i, k);
        }
        lemma_pair_value(chunks, cs1, lc, i, k);
        lemma_pair_value(chunks, cs2, lc, i, k);
    }
    assert forall|x: int| 0 <= x < all.len() implies {
        &&& (#[trigger] all[x]).left == map_get(ml, all[x].key)
        &&& all[x].right == map_get(mr, all[x].key)
        &&& all[x].left != all[x].right
        &&& i + 1 > 0 && crate::keys::lex_le(all[x].key, cs1[i].boundary)
    } by {
        if x < ds.len() {
            assert(all[x] == ds[x]);
            if i > 0 {
                crate::tree::model::lemma_boundaries_sorted(chunks, cs1, lc, i - 1, i);
                crate::keys::lemma_lex_le_lt_transitive(ds[x].key, cs1[i - 1].boundary, cs1[i].boundary);
            }
        } else {
            assert(all[x] == dc[x - ds.len()]);
        }
    }
    assert forall|x: int, y: int| 0 <= x < y < all.len() implies lex_lt(#[trigger] all[x].key, #[trigger] all[y].key) by {
        if y < ds.len() {
            assert(all[x] == ds[x] && all[y] == ds[y]);
        } else if x >= ds.len() {
            assert(all[x] == dc[x - ds.len()] && all[y] == dc[y - ds.len()]);
        } else {
            assert(all[x] == ds[x] && all[y] == dc[y - ds.len()]);
            crate::keys::lemma_lex_le_lt_transitive(ds[x].key, cs1[i - 1].boundary, dc[y - ds.len()].key);
        }
    }
}

/// A key between the boundaries around child `i` that child `i` lacks is
/// under no child.
#[verifier::spinoff_prover]
proof fn lemma_outside_child(chunks: Map<Seq<u8>, Seq<u8>>, cs: Seq<ChildModel>, level: nat, i: int, k: Seq<u8>)
    requires
        children_ok(chunks, cs, level),
        sorted_entries(flat_concat(chunks, cs, level)),
        0 <= i < cs.len(),
        crate::keys::lex_le(k, cs[i].boundary),
        i > 0 ==> lex_lt(cs[i - 1].boundary, k),
        !has_key(subtree(chunks, cs[i].hash, level).unwrap(), k),
    ensures
        !has_key(flat_concat(chunks, cs, level), k),
{
    if has_key(flat_concat(chunks, cs, level), k) {
        lemma_key_in_child(chunks, cs, level, k);
        let a = choose|a: int| 0 <= a < cs.len() && has_key(#[trigger] subtree(chunks, cs[a].hash, level).unwrap(), k);
        lemma_child_range(chunks, cs, level, a, k);
        if a < i {
            if a < i - 1 {
                crate::tree::model::lemma_boundaries_sorted(chunks, cs, level, a, i - 1);
                crate::keys::lemma_lex_le_lt_transitive(k, cs[a].boundary, cs[i - 1].boundary);
            } else {
                assert(crate::keys::lex_le(k, cs[i - 1].boundary));
            }
            crate::keys::lemma_lex_lt_asymmetric(cs[i - 1].boundary, k);
            crate::keys::lemma_lex_lt_irreflexive(k);
        } else {
            assert(a > i);
            if a - 1 > i {
                crate::tree::model::lemma_boundaries_sorted(chunks, cs, level, i, a - 1);
                crate::keys::lemma_lex_lt_transitive(cs[i].boundary, cs[a - 1].boundary, k);
            }
            crate::keys::lemma_lex_le_lt_transitive(k, cs[i].boundary, k);
            crate::keys::lemma_lex_lt_irreflexive(k);
        }
    }
}

/// The difference between the subtrees under `left_hash` (at `ll`) and
/// `right_hash` (at `lr`): subtrees with the same hash are skipped, two
/// leaves are merged entry by entry, two internal nodes at one level child
/// by child (matching boundaries), and anything else is deleted on the left
/// and added on the right as a whole.
pub fn recursive_diff<S: ChunkStore>(
    left_hash: Option<crate::common::Hash>,
    right_hash: Option<crate::common::Hash>,
    store: &S,
    config: &TreeConfig,
    Ghost(ll): Ghost<nat>,
    Ghost(lr): Ghost<nat>,
) -> (r: Result<Vec<DiffEntry>>)
    requires
        store.inv(),
        side_ok(store.chunks(), crate::tree::prolly_tree::opt_hash_view(left_hash), ll),
        side_ok(store.chunks(), crate::tree::prolly_tree::opt_hash_view(right_hash), lr),
    ensures
        r matches Ok(ds) ==> diff_ok(
            diffs_view(ds@),
            side_map(store.chunks(), crate::tree::prolly_tree::opt_hash_view(left_hash), ll),
            side_map(store.chunks(), crate::tree::prolly_tree::opt_hash_view(right_hash), lr),
        ),
        crate::tree::prolly_tree::opt_hash_view(left_hash) == crate::tree::prolly_tree::opt_hash_view(right_hash)
            ==> (r matches Ok(ds) && ds@.len() == 0),
        r matches Ok(ds) ==> (leaf_root(store.chunks(), opt_hash_view(left_hash)) && leaf_root(
            store.chunks(),
            opt_hash_view(right_hash),
        ) ==> diff_exact(diffs_view(ds@), side_map(store.chunks(), opt_hash_view(left_hash), ll), side_map(store.chunks(), opt_hash_view(right_hash), lr))),
        left_hash is Some && right_hash is Some && ll == lr && aligned(
            store.chunks(),
            left_hash.unwrap()@,
            right_hash.unwrap()@,
            ll,
        ) ==> (r matches Ok(ds) ==> diff_exact(
            diffs_view(ds@),
            side_map(store.chunks(), opt_hash_view(left_hash), ll),
            side_map(store.chunks(), opt_hash_view(right_hash), lr),
        )),
        ll == lr ==> (r matches Ok(ds) ==> (left_hash is Some && right_hash is Some ==> forall|k: Seq<u8>|
            shared_below(store.chunks(), left_hash.unwrap()@, right_hash.unwrap()@, ll, k) ==> !names_key(
                diffs_view(ds@),
                k,
            ))),
        ll == lr ==> (r matches Ok(ds) ==> shared_children_untouched(
            store.chunks(),
            opt_hash_view(left_hash),
            opt_hash_view(right_hash),
            ll,
            diffs_view(ds@),
        )),
        store.reliable() ==> r is Ok,
    decreases ll + lr, 1nat,
{
    let ghost chunks = store.chunks();
    if crate::tree::prolly_tree::opt_hash_eq(&left_hash, &right_hash) {
        proof {
            match left_hash {
                Some(h) => {
                    crate::tree::model::lemma_subtree_level(chunks, h@, ll);
                    crate::tree::model::lemma_subtree_level(chunks, h@, lr);
                },
                None => {},
            }
            lemma_diff_same(side_map(chunks, crate::tree::prolly_tree::opt_hash_view(left_hash), ll));
        }
        let none: Vec<DiffEntry> = Vec::new();
        assert(diffs_view(none@) =~= Seq::<DiffModel>::empty());
        return Ok(none);
    }
    let h1 = match left_hash {
        Some(h) => h,
        None => return generate_diffs_for_subtree(right_hash.unwrap(), store, config, true, Ghost(lr)),
    };
    let h2 = match right_hash {
        Some(h) => h,
        None => return generate_diffs_for_subtree(h1, store, config, false, Ghost(ll)),
    };
    let node1 = match load_node(store, &h1) {
        Ok(n) => n,
        Err(e) => return Err(e),
    };
    let node2 = match load_node(store, &h2) {
        Ok(n) => n,
        Err(e) => return Err(e),
    };
    proof {
        lemma_subtree_node_content(chunks, h1@, ll);
        lemma_subtree_node_content(chunks, h2@, lr);
    }
    match (node1, node2) {
        (Node::Leaf { entries: entries1, .. }, Node::Leaf { entries: entries2, .. }) => {
            diff_leaf_entries(store, config, &entries1, &entries2)
        },
        (Node::Internal { children: children1, level: l1 }, Node::Internal { children: children2, level: l2 }) => {
            if l1 != l2 {
                return replace_subtree(h1, h2, store, config, Ghost(ll), Ghost(lr));
            }
            proof {
                lemma_children_flat_char(chunks, children_view(children1@), (ll - 1) as nat);
                lemma_children_flat_char(chunks, children_view(children2@), (lr - 1) as nat);
            }
            diff_children(&children1, &children2, store, config, Ghost((ll - 1) as nat))
        },
        _ => replace_subtree(h1, h2, store, config, Ghost(ll), Ghost(lr)),
    }
}

/// The whole left subtree deleted, then the whole right one added.
fn replace_subtree<S: ChunkStore>(
    h1: crate::common::Hash,
    h2: crate::common::Hash,
    store: &S,
    config: &TreeConfig,
    Ghost(ll): Ghost<nat>,
    Ghost(lr): Ghost<nat>,
) -> (r: Result<Vec<DiffEntry>>)
    requires
        store.inv(),
        side_ok(store.chunks(), Some(h1@), ll),
        side_ok(store.chunks(), Some(h2@), lr),
    ensures
        r matches Ok(ds) ==> diff_ok(
            diffs_view(ds@),
            side_map(store.chunks(), Some(h1@), ll),
            side_map(store.chunks(), Some(h2@), lr),
        ),
    store.reliable() ==> r is Ok,
{
    let mut diffs = match generate_diffs_for_subtree(h1, store, config, false, Ghost(ll)) {
        Ok(d) => d,
        Err(e) => return Err(e),
    };
    let mut additions = match generate_diffs_for_subtree(h2, store, config, true, Ghost(lr)) {
        Ok(d) => d,
        Err(e) => return Err(e),
    };
    let ghost dl = diffs_view(diffs@);
    let ghost da = diffs_view(additions@);
    diffs.append(&mut additions);
    proof {
        assert(diffs_view(diffs@) =~= dl + da);
        lemma_diff_replace(dl, da, side_map(store.chunks(), Some(h1@), ll), side_map(store.chunks(), Some(h2@), lr));
    }
    Ok(diffs)
}

/// Merges two lists of children by boundary key: a child whose boundary
/// comes first on one side is deleted (left) or added (right) as a whole;
/// children with the same boundary are compared when their hashes differ.
fn diff_children<S: ChunkStore>(
    children1: &Vec<crate::node::definition::InternalEntry>,
    children2: &Vec<crate::node::definition::InternalEntry>,
    store: &S,
    config: &TreeConfig,
    Ghost(lc): Ghost<nat>,
) -> (r: Result<Vec<DiffEntry>>)
    requires
        store.inv(),
        children_wf(store.chunks(), children_view(children1@), lc),
        children_wf(store.chunks(), children_view(children2@), lc),
    ensures
        r matches Ok(ds) ==> diff_ok(
            diffs_view(ds@),
            entries_map(store.chunks(), flat_concat(store.chunks(), children_view(children1@), lc)),
            entries_map(store.chunks(), flat_concat(store.chunks(), children_view(children2@), lc)),
        ),
        aligned_children(store.chunks(), children_view(children1@), children_view(children2@), lc) ==> (r matches Ok(
            ds,
        ) ==> diff_exact(
            diffs_view(ds@),
            entries_map(store.chunks(), flat_concat(store.chunks(), children_view(children1@), lc)),
            entries_map(store.chunks(), flat_concat(store.chunks(), children_view(children2@), lc)),
        )),
        r matches Ok(ds) ==> forall|k: Seq<u8>|
            shared_child_key(store.chunks(), children_view(children1@), children_view(children2@), lc, k)
                ==> !names_key(diffs_view(ds@), k),
        r matches Ok(ds) ==> forall|k: Seq<u8>|
            shared_pair_key(store.chunks(), children_view(children1@), children_view(children2@), lc, k)
                ==> !names_key(diffs_view(ds@), k),
        store.reliable() ==> r is Ok,
    decreases 2 * lc + 2, 0nat,
{
    let ghost chunks = store.chunks();
    let ghost cs1 = children_view(children1@);
    let ghost cs2 = children_view(children2@);
    let mut diffs: Vec<DiffEntry> = Vec::new();
    let mut i1: usize = 0;
    let mut i2: usize = 0;
    proof {
        assert(diffs_view(diffs@) =~= Seq::<DiffModel>::empty());
    }
    while i1 < children1.len() || i2 < children2.len()
        invariant
            store.inv(),
            chunks == store.chunks(),
            cs1 == children_view(children1@),
            cs2 == children_view(children2@),
            children_wf(chunks, cs1, lc),
            children_wf(chunks, cs2, lc),
            child_merge_inv(
                chunks,
                diffs_view(diffs@),
                cs1,
                cs2,
                lc,
                i1 as int,
                i2 as int,
                entries_map(chunks, flat_concat(chunks, cs1, lc)),
                entries_map(chunks, flat_concat(chunks, cs2, lc)),
            ),
            aligned_children(chunks, cs1, cs2, lc) ==> (i1 == i2 && aligned_merge_inv(
                diffs_view(diffs@),
                entries_map(chunks, flat_concat(chunks, cs1, lc)),
                entries_map(chunks, flat_concat(chunks, cs2, lc)),
                cs1,
                i1 as int,
            )),
            merge_order_inv(cs1, cs2, i1 as int, i2 as int),
            forall|k: Seq<u8>| shared_pair_key(chunks, cs1, cs2, lc, k) ==> !names_key(diffs_view(diffs@), k),
        decreases (children1@.len() - i1) + (children2@.len() - i2),
    {
        let ghost ds = diffs_view(diffs@);
        let take_left: bool;
        let take_right: bool;
        if i1 < children1.len() && i2 < children2.len() {
            match crate::keys::compare_keys(children1[i1].boundary_key.as_slice(), children2[i2].boundary_key.as_slice()) {
                crate::keys::KeyOrder::Less => {
                    take_left = true;
                    take_right = false;
                },
                crate::keys::KeyOrder::Greater => {
                    take_left = false;
                    take_right = true;
                },
                crate::keys::KeyOrder::Equal => {
                    take_left = true;
                    take_right = true;
                },
            }
        } else if i1 < children1.len() {
            take_left = true;
            take_right = false;
        } else {
            take_left = false;
            take_right = true;
        }
        proof {
            if take_left {
                assert(cs1[i1 as int].hash == children1@[i1 as int].child_hash@);
                lemma_child_submap(chunks, cs1, lc, i1 as int);
                assert(child_ok(chunks, cs1[i1 as int], lc));
            }
            if take_right {
                assert(cs2[i2 as int].hash == children2@[i2 as int].child_hash@);
                lemma_child_submap(chunks, cs2, lc, i2 as int);
                assert(child_ok(chunks, cs2[i2 as int], lc));
            }
        }
        let mut child_diffs: Vec<DiffEntry>;
        if take_left && take_right {
            if crate::common::hash_eq(&children1[i1].child_hash, &children2[i2].child_hash) {
                child_diffs = Vec::new();
                proof {
                    lemma_diff_same(step_map(chunks, cs1, lc, i1 as int, true));
                    assert(diffs_view(child_diffs@) =~= Seq::<DiffModel>::empty());
                }
            } else {
                child_diffs = match recursive_diff(
                    Some(children1[i1].child_hash),
                    Some(children2[i2].child_hash),
                    store,
                    config,
                    Ghost(lc),
                    Ghost(lc),
                ) {
                    Ok(d) => d,
                    Err(e) => return Err(e),
                };
            }
        } else if take_left {
            child_diffs = match recursive_diff(Some(children1[i1].child_hash), None, store, config, Ghost(lc), Ghost(0)) {
                Ok(d) => d,
                Err(e) => return Err(e),
            };
        } else {
            child_diffs = match recursive_diff(None, Some(children2[i2].child_hash), store, config, Ghost(0), Ghost(lc)) {
                Ok(d) => d,
                Err(e) => return Err(e),
            };
        }
        let ghost dc = diffs_view(child_diffs@);
        proof {
            assert(side_map(chunks, None, 0) =~= Map::<Seq<u8>, Seq<u8>>::empty());
            lemma_child_merge_step(chunks, ds, dc, cs1, cs2, lc, i1 as int, i2 as int, take_left, take_right);
            lemma_merge_order_step(chunks, cs1, cs2, lc, i1 as int, i2 as int, take_left, take_right);
            lemma_shared_pair_step(chunks, ds, dc, cs1, cs2, lc, i1 as int, i2 as int, take_left, take_right);
            if aligned_children(chunks, cs1, cs2, lc) {
                lemma_aligned_at(chunks, cs1, cs2, lc, i1 as int);
                assert(take_left && take_right);
                lemma_aligned_step(chunks, ds, dc, cs1, cs2, lc, i1 as int);
            }
        }
        diffs.append(&mut child_diffs);
        proof {
            assert(diffs_view(diffs@) =~= ds + dc);
        }
        if take_left {
            i1 = i1 + 1;
        }
        if take_right {
            i2 = i2 + 1;
        }
    }
    proof {
        lemma_child_merge_done(chunks, diffs_view(diffs@), cs1, cs2, lc);
        assert forall|k: Seq<u8>| shared_child_key(chunks, cs1, cs2, lc, k) implies !names_key(diffs_view(diffs@), k) by {
            lemma_shared_child_is_pair(chunks, cs1, cs2, lc, k);
        }
    }
    Ok(diffs)
}

/// `k` is stored under a subtree that the trees rooted at `l` and `r`
/// share in the same place (see `shared_below`), both roots at one level.
pub open spec fn shared_in_trees(chunks: Map<Seq<u8>, Seq<u8>>, l: Option<Seq<u8>>, r: Option<Seq<u8>>, k: Seq<u8>) -> bool {
    &&& l is Some
    &&& r is Some
    &&& root_level(chunks, l) == root_level(chunks, r)
    &&& shared_below(chunks, l.unwrap(), r.unwrap(), root_level(chunks, l), k)
}

/// The level of the node under a root (0 for the empty tree).
pub open spec fn root_level(chunks: Map<Seq<u8>, Seq<u8>>, h: Option<Seq<u8>>) -> nat {
    match h {
        Some(x) => node_at(chunks, x).unwrap().level() as nat,
        None => 0,
    }
}

/// Two roots (`None`: the empty tree) name stored nodes at the same level
/// whose subtrees line up (see `aligned`).
pub open spec fn roots_aligned(chunks: Map<Seq<u8>, Seq<u8>>, l: Option<Seq<u8>>, r: Option<Seq<u8>>) -> bool {
    match (l, r) {
        (Some(a), Some(b)) => {
            &&& node_at(chunks, a) is Some
            &&& node_at(chunks, b) is Some
            &&& node_at(chunks, a).unwrap().level() == node_at(chunks, b).unwrap().level()
            &&& aligned(chunks, a, b, node_at(chunks, a).unwrap().level() as nat)
        },
        _ => false,
    }
}

/// The differences between the trees rooted at `left_root_hash` and
/// `right_root_hash` (`None`: the empty tree), both in `store`.
pub fn diff_trees<S: ChunkStore>(
    left_root_hash: Option<crate::common::Hash>,
    right_root_hash: Option<crate::common::Hash>,
    store: &S,
    config: &TreeConfig,
) -> (r: Result<Vec<DiffEntry>>)
    requires
        store.inv(),
        opt_hash_view(left_root_hash) != opt_hash_view(right_root_hash) ==> {
            &&& tree_entries(store.chunks(), opt_hash_view(left_root_hash)) is Some
            &&& values_resolve(store.chunks(), tree_entries(store.chunks(), opt_hash_view(left_root_hash)).unwrap())
            &&& tree_entries(store.chunks(), opt_hash_view(right_root_hash)) is Some
            &&& values_resolve(store.chunks(), tree_entries(store.chunks(), opt_hash_view(right_root_hash)).unwrap())
        },
    ensures
        r matches Ok(ds) ==> diff_ok(
            diffs_view(ds@),
            tree_map(store.chunks(), opt_hash_view(left_root_hash)),
            tree_map(store.chunks(), opt_hash_view(right_root_hash)),
        ),
        opt_hash_view(left_root_hash) == opt_hash_view(right_root_hash) ==> (r matches Ok(ds) && ds@.len() == 0),
        r matches Ok(ds) ==> (leaf_root(store.chunks(), opt_hash_view(left_root_hash)) && leaf_root(
            store.chunks(),
            opt_hash_view(right_root_hash),
        ) ==> diff_exact(diffs_view(ds@), tree_map(store.chunks(), opt_hash_view(left_root_hash)), tree_map(store.chunks(), opt_hash_view(right_root_hash)))),
        roots_aligned(store.chunks(), opt_hash_view(left_root_hash), opt_hash_view(right_root_hash)) ==> (r matches Ok(
            ds,
        ) ==> diff_exact(
            diffs_view(ds@),
            tree_map(store.chunks(), opt_hash_view(left_root_hash)),
            tree_map(store.chunks(), opt_hash_view(right_root_hash)),
        )),
        r matches Ok(ds) ==> forall|k: Seq<u8>|
            shared_in_trees(store.chunks(), opt_hash_view(left_root_hash), opt_hash_view(right_root_hash), k)
                ==> !names_key(diffs_view(ds@), k),
        root_level(store.chunks(), opt_hash_view(left_root_hash)) == root_level(store.chunks(), opt_hash_view(right_root_hash))
            ==> (r matches Ok(ds) ==> shared_children_untouched(
            store.chunks(),
            opt_hash_view(left_root_hash),
            opt_hash_view(right_root_hash),
            root_level(store.chunks(), opt_hash_view(left_root_hash)),
            diffs_view(ds@),
        )),
    store.reliable() ==> r is Ok,
{
    if crate::tree::prolly_tree::opt_hash_eq(&left_root_hash, &right_root_hash) {
        let none: Vec<DiffEntry> = Vec::new();
        proof {
            lemma_diff_same(tree_map(store.chunks(), opt_hash_view(left_root_hash)));
            assert(diffs_view(none@) =~= Seq::<DiffModel>::empty());
        }
        return Ok(none);
    }
    let ghost chunks = store.chunks();
    let ghost ll: nat = match left_root_hash {
        Some(h) => node_at(chunks, h@).unwrap().level() as nat,
        None => 0,
    };
    let ghost lr: nat = match right_root_hash {
        Some(h) => node_at(chunks, h@).unwrap().level() as nat,
        None => 0,
    };
    proof {
        assert(side_map(chunks, None, 0) =~= tree_map(chunks, None));
    }
    recursive_diff(left_root_hash, right_root_hash, store, config, Ghost(ll), Ghost(lr))
}

} // verus!

verus! {

/// The value some addition of `ds` gives `k`.
pub open spec fn added_value(ds: Seq<DiffModel>, k: Seq<u8>) -> Seq<u8> {
    ds[choose|i: int| 0 <= i < ds.len() && (#[trigger] ds[i]).key == k && ds[i].right is Some].right.unwrap()
}

/// `ml` with the deleted keys removed and the added ones put in.
pub open spec fn apply_diff(ml: Map<Seq<u8>, Seq<u8>>, ds: Seq<DiffModel>) -> Map<Seq<u8>, Seq<u8>> {
    Map::new(
        |k: Seq<u8>| (ml.contains_key(k) && !deleted(ds, k)) || added(ds, k),
        |k: Seq<u8>| if added(ds, k) {
            added_value(ds, k)
        } else {
            ml[k]
        },
    )
}

/// Applying a difference from `ml` to `mr` to `ml` gives `mr`.
pub proof fn law_diff_apply(ds: Seq<DiffModel>, ml: Map<Seq<u8>, Seq<u8>>, mr: Map<Seq<u8>, Seq<u8>>)
    requires
        diff_ok(ds, ml, mr),
    ensures
        apply_diff(ml, ds) == mr,
{
    let a = apply_diff(ml, ds);
    assert forall|k: Seq<u8>| #[trigger] a.dom().contains(k) == mr.dom().contains(k) by {
        if added(ds, k) {
            let i = choose|i: int| 0 <= i < ds.len() && (#[trigger] ds[i]).key == k && ds[i].right is Some;
        }
        if ml.contains_key(k) {
            assert(covered_left(ds, ml, mr, k));
        }
        if mr.contains_key(k) {
            assert(covered_right(ds, ml, mr, k));
        }
    }
    assert forall|k: Seq<u8>| #[trigger] a.dom().contains(k) implies a[k] == mr[k] by {
        if added(ds, k) {
            let i = choose|i: int| 0 <= i < ds.len() && (#[trigger] ds[i]).key == k && ds[i].right is Some;
        } else {
            assert(covered_right(ds, ml, mr, k));
        }
    }
    assert(a =~= mr);
}

} // verus!

verus! {

/// The entries of `ds` with their two sides exchanged.
pub open spec fn swap_sides(ds: Seq<DiffModel>) -> Seq<DiffModel> {
    ds.map_values(|d: DiffModel| DiffModel { key: d.key, left: d.right, right: d.left })
}

/// Some entry of `ds` is about `k`.
pub open spec fn names_key(ds: Seq<DiffModel>, k: Seq<u8>) -> bool {
    exists|i: int| 0 <= i < ds.len() && (#[trigger] ds[i]).key == k
}

/// An exact difference names exactly the keys the two maps read
/// differently.
proof fn lemma_exact_keys(ds: Seq<DiffModel>, ml: Map<Seq<u8>, Seq<u8>>, mr: Map<Seq<u8>, Seq<u8>>, k: Seq<u8>)
    requires
        diff_exact(ds, ml, mr),
    ensures
        names_key(ds, k) <==> map_get(ml, k) != map_get(mr, k),
{
    if map_get(ml, k) != map_get(mr, k) {
        if ml.contains_key(k) {
            assert(covered_left(ds, ml, mr, k));
        } else {
            assert(mr.contains_key(k));
            assert(covered_right(ds, ml, mr, k));
        }
    }
    if names_key(ds, k) {
        let i = choose|i: int| 0 <= i < ds.len() && (#[trigger] ds[i]).key == k;
        assert(ds[i].left != ds[i].right);
    }
}

/// Two lists whose keys increase strictly and which name the same keys
/// name them in the same places.
proof fn lemma_sorted_same_keys(a: Seq<DiffModel>, b: Seq<DiffModel>)
    requires
        forall|x: int, y: int| 0 <= x < y < a.len() ==> lex_lt(#[trigger] a[x].key, #[trigger] a[y].key),
        forall|x: int, y: int| 0 <= x < y < b.len() ==> lex_lt(#[trigger] b[x].key, #[trigger] b[y].key),
        forall|k: Seq<u8>| names_key(a, k) <==> names_key(b, k),
    ensures
        a.len() == b.len(),
        forall|i: int| 0 <= i < a.len() ==> (#[trigger] a[i]).key == b[i].key,
    decreases a.len() + b.len(),
{
    if a.len() == 0 {
        if b.len() > 0 {
            assert(names_key(b, b[0].key));
        }
    } else if b.len() == 0 {
        assert(names_key(a, a[0].key));
    } else {
        assert(names_key(a, a[0].key));
        assert(names_key(b, b[0].key));
        let j = choose|j: int| 0 <= j < b.len() && (#[trigger] b[j]).key == a[0].key;
        let i = choose|i: int| 0 <= i < a.len() && (#[trigger] a[i]).key == b[0].key;
        if j > 0 {
            assert(lex_lt(b[0].key, b[j].key));
            if i > 0 {
                assert(lex_lt(a[0].key, a[i].key));
                crate::keys::lemma_lex_lt_asymmetric(a[0].key, b[0].key);
            } else {
                crate::keys::lemma_lex_lt_irreflexive(b[0].key);
            }
        }
        assert(a[0].key == b[0].key);
        let a1 = a.drop_first();
        let b1 = b.drop_first();
        assert forall|k: Seq<u8>| names_key(a1, k) <==> names_key(b1, k) by {
            if names_key(a1, k) {
                let x = choose|x: int| 0 <= x < a1.len() && (#[trigger] a1[x]).key == k;
                assert(a[x + 1].key == k);
                assert(names_key(a, k));
                let y = choose|y: int| 0 <= y < b.len() && (#[trigger] b[y]).key == k;
                assert(lex_lt(a[0].key, a[x + 1].key));
                if y == 0 {
                    crate::keys::lemma_lex_lt_irreflexive(k);
                }
                assert(b1[y - 1].key == k);
            }
            if names_key(b1, k) {
                let x = choose|x: int| 0 <= x < b1.len() && (#[trigger] b1[x]).key == k;
                assert(b[x + 1].key == k);
                assert(names_key(b, k));
                let y = choose|y: int| 0 <= y < a.len() && (#[trigger] a[y]).key == k;
                assert(lex_lt(b[0].key, b[x + 1].key));
                if y == 0 {
                    crate::keys::lemma_lex_lt_irreflexive(k);
                }
                assert(a1[y - 1].key == k);
            }
        }
        assert forall|x: int, y: int| 0 <= x < y < a1.len() implies lex_lt(#[trigger] a1[x].key, #[trigger] a1[y].key) by {
            assert(a1[x] == a[x + 1] && a1[y] == a[y + 1]);
        }
        assert forall|x: int, y: int| 0 <= x < y < b1.len() implies lex_lt(#[trigger] b1[x].key, #[trigger] b1[y].key) by {
            assert(b1[x] == b[x + 1] && b1[y] == b[y + 1]);
        }
        lemma_sorted_same_keys(a1, b1);
        assert forall|i: int| 0 <= i < a.len() implies (#[trigger] a[i]).key == b[i].key by {
            if i > 0 {
                assert(a[i] == a1[i - 1] && b[i] == b1[i - 1]);
            }
        }
    }
}

/// The difference read backwards: an exact difference from `mr` to `ml`
/// is the exact difference from `ml` to `mr` with the two sides of each
/// entry exchanged.
pub proof fn law_diff_exact_swap(
    d1: Seq<DiffModel>,
    d2: Seq<DiffModel>,
    ml: Map<Seq<u8>, Seq<u8>>,
    mr: Map<Seq<u8>, Seq<u8>>,
)
    requires
        diff_exact(d1, ml, mr),
        diff_exact(d2, mr, ml),
    ensures
        d2 == swap_sides(d1),
{
    assert forall|k: Seq<u8>| names_key(d1, k) <==> names_key(d2, k) by {
        lemma_exact_keys(d1, ml, mr, k);
        lemma_exact_keys(d2, mr, ml, k);
    }
    lemma_sorted_same_keys(d1, d2);
    let s = swap_sides(d1);
    assert forall|i: int| 0 <= i < d2.len() implies d2[i] == s[i] by {
        assert(d1[i].key == d2[i].key);
    }
    assert(d2 =~= s);
}

} // verus!

verus! {

proof fn lemma_aligned_symmetric(chunks: Map<Seq<u8>, Seq<u8>>, l: Seq<u8>, r: Seq<u8>, level: nat)
    requires
        aligned(chunks, l, r, level),
    ensures
        aligned(chunks, r, l, level),
    decreases level, 0nat, 0nat,
{
    if l != r && level > 0 {
        match (node_at(chunks, l), node_at(chunks, r)) {
            (Some(NodeModel::Internal { children: cs1, .. }), Some(NodeModel::Internal { children: cs2, .. })) => {
                lemma_aligned_children_symmetric(chunks, cs1, cs2, (level - 1) as nat);
            },
            _ => {},
        }
    }
}

proof fn lemma_aligned_children_symmetric(chunks: Map<Seq<u8>, Seq<u8>>, cs1: Seq<ChildModel>, cs2: Seq<ChildModel>, level: nat)
    requires
        aligned_children(chunks, cs1, cs2, level),
    ensures
        aligned_children(chunks, cs2, cs1, level),
    decreases level, 1nat, cs1.len(),
{
    if cs1.len() > 0 {
        if cs1.last().hash != cs2.last().hash {
            lemma_aligned_symmetric(chunks, cs1.last().hash, cs2.last().hash, level);
        }
        lemma_aligned_children_symmetric(chunks, cs1.drop_last(), cs2.drop_last(), level);
    }
}

/// Whether two trees line up does not depend on their order, so `diff`
/// is exact both ways, and by `law_diff_exact_swap` one way is the other
/// with the sides exchanged.
pub proof fn law_roots_aligned_symmetric(chunks: Map<Seq<u8>, Seq<u8>>, l: Option<Seq<u8>>, r: Option<Seq<u8>>)
    requires
        roots_aligned(chunks, l, r),
    ensures
        roots_aligned(chunks, r, l),
{
    let a = l.unwrap();
    let b = r.unwrap();
    lemma_aligned_symmetric(chunks, a, b, node_at(chunks, a).unwrap().level() as nat);
}

} // verus!

verus! {

// ---------------- subtrees both versions share ----------------

/// `k` is stored under a child that the two lists share: a child of `cs1`
/// and a child of `cs2` with the same boundary and the same hash.
pub open spec fn shared_child_key(
    chunks: Map<Seq<u8>, Seq<u8>>,
    cs1: Seq<ChildModel>,
    cs2: Seq<ChildModel>,
    lc: nat,
    k: Seq<u8>,
) -> bool {
    exists|i: int, j: int|
        #![trigger cs1[i], cs2[j]]
        0 <= i < cs1.len() && 0 <= j < cs2.len() && cs1[i].boundary == cs2[j].boundary && cs1[i].hash
            == cs2[j].hash && has_key(subtree(chunks, cs1[i].hash, lc).unwrap(), k)
}

/// `k` is stored, with the same value, in the same place of the trees
/// under `a` and `b`, both at `level`: under the same node; or in two
/// leaves, each holding it with the same value; or, for two internal
/// nodes, so below a child of each with the same boundary.
pub open spec fn shared_below(chunks: Map<Seq<u8>, Seq<u8>>, a: Seq<u8>, b: Seq<u8>, level: nat, k: Seq<u8>) -> bool
    decreases level,
{
    if a == b {
        subtree(chunks, a, level) is Some && has_key(subtree(chunks, a, level).unwrap(), k)
    } else if level == 0 {
        match (node_at(chunks, a), node_at(chunks, b)) {
            (Some(NodeModel::Leaf { entries: e1, .. }), Some(NodeModel::Leaf { entries: e2, .. })) => {
                &&& has_key(e1, k)
                &&& has_key(e2, k)
                &&& entries_map(chunks, e1)[k] == entries_map(chunks, e2)[k]
            },
            _ => false,
        }
    } else {
        match (node_at(chunks, a), node_at(chunks, b)) {
            (Some(NodeModel::Internal { children: cs1, .. }), Some(NodeModel::Internal { children: cs2, .. })) => exists|
                i: int,
                j: int,
            |
                #![trigger cs1[i], cs2[j]]
                0 <= i < cs1.len() && 0 <= j < cs2.len() && cs1[i].boundary == cs2[j].boundary && shared_below(
                    chunks,
                    cs1[i].hash,
                    cs2[j].hash,
                    (level - 1) as nat,
                    k,
                ),
            _ => false,
        }
    }
}

/// `k` is stored under a shared subtree of a child of `cs1` and a child of
/// `cs2` with the same boundary.
pub open spec fn shared_pair_key(
    chunks: Map<Seq<u8>, Seq<u8>>,
    cs1: Seq<ChildModel>,
    cs2: Seq<ChildModel>,
    lc: nat,
    k: Seq<u8>,
) -> bool {
    exists|i: int, j: int|
        #![trigger cs1[i], cs2[j]]
        0 <= i < cs1.len() && 0 <= j < cs2.len() && cs1[i].boundary == cs2[j].boundary && shared_below(
            chunks,
            cs1[i].hash,
            cs2[j].hash,
            lc,
            k,
        )
}

/// A key under a child is under the list of children.
proof fn lemma_key_in_flat(chunks: Map<Seq<u8>, Seq<u8>>, cs: Seq<ChildModel>, level: nat, i: int, k: Seq<u8>)
    requires
        children_ok(chunks, cs, level),
        0 <= i < cs.len(),
        has_key(subtree(chunks, cs[i].hash, level).unwrap(), k),
    ensures
        has_key(flat_concat(chunks, cs, level), k),
{
    lemma_children_split(chunks, cs, level, i);
    let pre = flat_concat(chunks, cs.take(i), level);
    let x = subtree(chunks, cs[i].hash, level).unwrap();
    let suf = flat_concat(chunks, cs.skip(i + 1), level);
    let t = choose|t: int| 0 <= t < x.len() && x[t].key == k;
    assert((pre + x + suf)[pre.len() + t] == x[t]);
}

/// A key under a shared subtree is under both trees.
proof fn lemma_shared_below_keys(chunks: Map<Seq<u8>, Seq<u8>>, a: Seq<u8>, b: Seq<u8>, level: nat, k: Seq<u8>)
    requires
        subtree(chunks, a, level) is Some,
        subtree(chunks, b, level) is Some,
        shared_below(chunks, a, b, level, k),
    ensures
        has_key(subtree(chunks, a, level).unwrap(), k),
        has_key(subtree(chunks, b, level).unwrap(), k),
    decreases level,
{
    if a != b && level > 0 {
        let cs1 = node_at(chunks, a).unwrap()->Internal_children;
        let cs2 = node_at(chunks, b).unwrap()->Internal_children;
        let lc = (level - 1) as nat;
        let (i, j) = choose|i: int, j: int|
            #![trigger cs1[i], cs2[j]]
            0 <= i < cs1.len() && 0 <= j < cs2.len() && cs1[i].boundary == cs2[j].boundary && shared_below(
                chunks,
                cs1[i].hash,
                cs2[j].hash,
                lc,
                k,
            );
        lemma_children_flat_char(chunks, cs1, lc);
        lemma_children_flat_char(chunks, cs2, lc);
        assert(child_ok(chunks, cs1[i], lc));
        assert(child_ok(chunks, cs2[j], lc));
        lemma_shared_below_keys(chunks, cs1[i].hash, cs2[j].hash, lc, k);
        lemma_key_in_flat(chunks, cs1, lc, i, k);
        lemma_key_in_flat(chunks, cs2, lc, j, k);
    }
}

/// Two internal nodes at the same level (`lvl`) under `l` and `r`: no
/// difference in `ds` names a key stored under a child they share.
pub open spec fn shared_children_untouched(
    chunks: Map<Seq<u8>, Seq<u8>>,
    l: Option<Seq<u8>>,
    r: Option<Seq<u8>>,
    lvl: nat,
    ds: Seq<DiffModel>,
) -> bool {
    match (l, r) {
        (Some(a), Some(b)) => match (node_at(chunks, a), node_at(chunks, b)) {
            (Some(NodeModel::Internal { children: cs1, .. }), Some(NodeModel::Internal { children: cs2, .. })) => lvl > 0
                ==> forall|k: Seq<u8>| shared_child_key(chunks, cs1, cs2, (lvl - 1) as nat, k) ==> !names_key(ds, k),
            _ => true,
        },
        _ => true,
    }
}

/// The order facts of a merge of two lists of children by boundary: each
/// child done on one side has a boundary below the next child of the other.
pub open spec fn merge_order_inv(cs1: Seq<ChildModel>, cs2: Seq<ChildModel>, i1: int, i2: int) -> bool {
    &&& forall|a: int| 0 <= a < i1 && i2 < cs2.len() ==> lex_lt(#[trigger] cs1[a].boundary, cs2[i2].boundary)
    &&& forall|b: int| 0 <= b < i2 && i1 < cs1.len() ==> lex_lt(#[trigger] cs2[b].boundary, cs1[i1].boundary)
}

/// Two children of a list with the same boundary are the same child.
proof fn lemma_same_boundary(chunks: Map<Seq<u8>, Seq<u8>>, cs: Seq<ChildModel>, lc: nat, a: int, b: int)
    requires
        children_wf(chunks, cs, lc),
        0 <= a < cs.len(),
        0 <= b < cs.len(),
        cs[a].boundary == cs[b].boundary,
    ensures
        a == b,
{
    if a < b {
        crate::tree::model::lemma_boundaries_sorted(chunks, cs, lc, a, b);
        crate::keys::lemma_lex_lt_irreflexive(cs[a].boundary);
    } else if b < a {
        crate::tree::model::lemma_boundaries_sorted(chunks, cs, lc, b, a);
        crate::keys::lemma_lex_lt_irreflexive(cs[a].boundary);
    }
}

/// A key is under at most one child of a list.
proof fn lemma_one_child(chunks: Map<Seq<u8>, Seq<u8>>, cs: Seq<ChildModel>, lc: nat, a: int, b: int, k: Seq<u8>)
    requires
        children_wf(chunks, cs, lc),
        0 <= a < cs.len(),
        0 <= b < cs.len(),
        has_key(subtree(chunks, cs[a].hash, lc).unwrap(), k),
        has_key(subtree(chunks, cs[b].hash, lc).unwrap(), k),
    ensures
        a == b,
{
    if a < b {
        lemma_child_keys_ordered(chunks, cs, lc, a, b, k, k);
    } else if b < a {
        lemma_child_keys_ordered(chunks, cs, lc, b, a, k, k);
    }
}

/// A merge step keeps the order facts.
proof fn lemma_merge_order_step(
    chunks: Map<Seq<u8>, Seq<u8>>,
    cs1: Seq<ChildModel>,
    cs2: Seq<ChildModel>,
    lc: nat,
    i1: int,
    i2: int,
    tl: bool,
    tr: bool,
)
    requires
        children_wf(chunks, cs1, lc),
        children_wf(chunks, cs2, lc),
        0 <= i1 <= cs1.len(),
        0 <= i2 <= cs2.len(),
        merge_order_inv(cs1, cs2, i1, i2),
        tl ==> i1 < cs1.len(),
        tr ==> i2 < cs2.len(),
        tl && tr ==> cs1[i1].boundary == cs2[i2].boundary,
        tl && !tr ==> (i2 == cs2.len() || lex_lt(cs1[i1].boundary, cs2[i2].boundary)),
        !tl && tr ==> (i1 == cs1.len() || lex_lt(cs2[i2].boundary, cs1[i1].boundary)),
    ensures
        merge_order_inv(cs1, cs2, if tl { i1 + 1 } else { i1 }, if tr { i2 + 1 } else { i2 }),
{
    let n1 = if tl { i1 + 1 } else { i1 };
    let n2 = if tr { i2 + 1 } else { i2 };
    assert forall|a: int| 0 <= a < n1 && n2 < cs2.len() implies lex_lt(#[trigger] cs1[a].boundary, cs2[n2].boundary) by {
        if tr {
            crate::tree::model::lemma_boundaries_sorted(chunks, cs2, lc, i2, n2);
            if a < i1 {
                crate::keys::lemma_lex_lt_transitive(cs1[a].boundary, cs2[i2].boundary, cs2[n2].boundary);
            }
        }
    }
    assert forall|b: int| 0 <= b < n2 && n1 < cs1.len() implies lex_lt(#[trigger] cs2[b].boundary, cs1[n1].boundary) by {
        if tl {
            crate::tree::model::lemma_boundaries_sorted(chunks, cs1, lc, i1, n1);
            if b < i2 {
                crate::keys::lemma_lex_lt_transitive(cs2[b].boundary, cs1[i1].boundary, cs1[n1].boundary);
            }
        }
    }
}

/// A merge step that takes one of two shared children (the same boundary,
/// the same hash) takes both together.
proof fn lemma_shared_taken_together(
    chunks: Map<Seq<u8>, Seq<u8>>,
    cs1: Seq<ChildModel>,
    cs2: Seq<ChildModel>,
    lc: nat,
    i1: int,
    i2: int,
    tl: bool,
    tr: bool,
    i: int,
    j: int,
)
    requires
        children_wf(chunks, cs1, lc),
        children_wf(chunks, cs2, lc),
        0 <= i1 <= cs1.len(),
        0 <= i2 <= cs2.len(),
        merge_order_inv(cs1, cs2, i1, i2),
        tl ==> i1 < cs1.len(),
        tr ==> i2 < cs2.len(),
        tl && tr ==> cs1[i1].boundary == cs2[i2].boundary,
        tl && !tr ==> (i2 == cs2.len() || lex_lt(cs1[i1].boundary, cs2[i2].boundary)),
        !tl && tr ==> (i1 == cs1.len() || lex_lt(cs2[i2].boundary, cs1[i1].boundary)),
        0 <= i < cs1.len(),
        0 <= j < cs2.len(),
        cs1[i].boundary == cs2[j].boundary,
    ensures
        (tl && i1 == i) || (tr && i2 == j) ==> tl && tr && i1 == i && i2 == j,
{
    if tl && i1 == i {
        if tr {
            lemma_same_boundary(chunks, cs2, lc, i2, j);
        } else if j < i2 {
            assert(lex_lt(cs2[j].boundary, cs1[i1].boundary));
            crate::keys::lemma_lex_lt_irreflexive(cs1[i].boundary);
        } else if j == i2 {
            crate::keys::lemma_lex_lt_irreflexive(cs1[i].boundary);
        } else {
            crate::tree::model::lemma_boundaries_sorted(chunks, cs2, lc, i2, j);
            crate::keys::lemma_lex_lt_asymmetric(cs1[i].boundary, cs2[i2].boundary);
        }
    }
    if tr && i2 == j {
        if tl {
            lemma_same_boundary(chunks, cs1, lc, i1, i);
        } else if i < i1 {
            assert(lex_lt(cs1[i].boundary, cs2[i2].boundary));
            crate::keys::lemma_lex_lt_irreflexive(cs1[i].boundary);
        } else if i == i1 {
            crate::keys::lemma_lex_lt_irreflexive(cs1[i].boundary);
        } else {
            crate::tree::model::lemma_boundaries_sorted(chunks, cs1, lc, i1, i);
            crate::keys::lemma_lex_lt_asymmetric(cs2[j].boundary, cs1[i1].boundary);
        }
    }
}

/// A merge step names no key under a subtree the two lists share below a
/// pair of children with the same boundary: it takes neither child, or
/// both, whose comparison names no such key.
#[verifier::spinoff_prover]
proof fn lemma_shared_pair_step(
    chunks: Map<Seq<u8>, Seq<u8>>,
    ds: Seq<DiffModel>,
    dc: Seq<DiffModel>,
    cs1: Seq<ChildModel>,
    cs2: Seq<ChildModel>,
    lc: nat,
    i1: int,
    i2: int,
    tl: bool,
    tr: bool,
)
    requires
        children_wf(chunks, cs1, lc),
        children_wf(chunks, cs2, lc),
        0 <= i1 <= cs1.len(),
        0 <= i2 <= cs2.len(),
        merge_order_inv(cs1, cs2, i1, i2),
        tl ==> i1 < cs1.len(),
        tr ==> i2 < cs2.len(),
        tl && tr ==> cs1[i1].boundary == cs2[i2].boundary,
        tl && !tr ==> (i2 == cs2.len() || lex_lt(cs1[i1].boundary, cs2[i2].boundary)),
        !tl && tr ==> (i1 == cs1.len() || lex_lt(cs2[i2].boundary, cs1[i1].boundary)),
        tl && tr ==> forall|k: Seq<u8>| shared_below(chunks, cs1[i1].hash, cs2[i2].hash, lc, k) ==> !names_key(dc, k),
        diff_entries_ok(dc, step_map(chunks, cs1, lc, i1, tl), step_map(chunks, cs2, lc, i2, tr)),
        forall|k: Seq<u8>| shared_pair_key(chunks, cs1, cs2, lc, k) ==> !names_key(ds, k),
    ensures
        forall|k: Seq<u8>| shared_pair_key(chunks, cs1, cs2, lc, k) ==> !names_key(ds + dc, k),
{
    assert forall|k: Seq<u8>| shared_pair_key(chunks, cs1, cs2, lc, k) implies !names_key(ds + dc, k) by {
        let (i, j) = choose|i: int, j: int|
            #![trigger cs1[i], cs2[j]]
            0 <= i < cs1.len() && 0 <= j < cs2.len() && cs1[i].boundary == cs2[j].boundary && shared_below(
                chunks,
                cs1[i].hash,
                cs2[j].hash,
                lc,
                k,
            );
        assert(child_ok(chunks, cs1[i], lc));
        assert(child_ok(chunks, cs2[j], lc));
        lemma_shared_below_keys(chunks, cs1[i].hash, cs2[j].hash, lc, k);
        lemma_shared_taken_together(chunks, cs1, cs2, lc, i1, i2, tl, tr, i, j);
        if names_key(ds + dc, k) {
            let x = choose|x: int| 0 <= x < (ds + dc).len() && (#[trigger] (ds + dc)[x]).key == k;
            if x < ds.len() {
                assert((ds + dc)[x] == ds[x]);
                assert(names_key(ds, k));
            } else {
                let y = x - ds.len();
                assert((ds + dc)[x] == dc[y]);
                if tl && tr && i1 == i && i2 == j {
                    assert(names_key(dc, k));
                } else if dc[y].left is Some {
                    assert(step_map(chunks, cs1, lc, i1, tl).contains_key(k));
                    lemma_one_child(chunks, cs1, lc, i1, i, k);
                } else {
                    assert(step_map(chunks, cs2, lc, i2, tr).contains_key(k));
                    lemma_one_child(chunks, cs2, lc, i2, j, k);
                }
            }
        }
    }
}

/// A key under a shared child (the same boundary, the same hash) is under
/// a shared subtree of that pair.
proof fn lemma_shared_child_is_pair(chunks: Map<Seq<u8>, Seq<u8>>, cs1: Seq<ChildModel>, cs2: Seq<ChildModel>, lc: nat, k: Seq<u8>)
    requires
        children_wf(chunks, cs1, lc),
        shared_child_key(chunks, cs1, cs2, lc, k),
    ensures
        shared_pair_key(chunks, cs1, cs2, lc, k),
{
    let (i, j) = choose|i: int, j: int|
        #![trigger cs1[i], cs2[j]]
        0 <= i < cs1.len() && 0 <= j < cs2.len() && cs1[i].boundary == cs2[j].boundary && cs1[i].hash
            == cs2[j].hash && has_key(subtree(chunks, cs1[i].hash, lc).unwrap(), k);
    assert(child_ok(chunks, cs1[i], lc));
    assert(shared_below(chunks, cs1[i].hash, cs2[j].hash, lc, k));
}

} // verus!
