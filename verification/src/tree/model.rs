//! The meaning of a stored tree: the sorted entries under a node, read
//! through the chunk map, and the operations on sorted entry lists.
use vstd::prelude::*;
use crate::keys::{
    lemma_lex_le_lt_transitive, lemma_lex_lt_asymmetric, lemma_lex_lt_irreflexive,
    lemma_lex_lt_transitive, lemma_lex_trichotomy, lex_le, lex_lt,
};
use crate::node::definition::{ChildModel, EntryModel, NodeModel};
use crate::node::encoding::decode_node_spec;

verus! {

/// The node stored under `h`, if the chunk exists and decodes.
pub open spec fn node_at(chunks: Map<Seq<u8>, Seq<u8>>, h: Seq<u8>) -> Option<NodeModel> {
    if chunks.contains_key(h) {
        decode_node_spec(chunks[h])
    } else {
        None
    }
}

/// Keys strictly increase along the list.
pub open spec fn sorted_entries(es: Seq<EntryModel>) -> bool {
    forall|i: int, j: int| 0 <= i < j < es.len() ==> lex_lt(es[i].key, es[j].key)
}

/// The entries of the well-formed subtree rooted at `h` whose root sits at
/// `level`, in key order; `None` when the subtree is missing or malformed.
/// A well-formed subtree has nonempty nodes, leaves at level 0, children one
/// level below their parent, each internal entry naming the last key and
/// the number of entries below it, and strictly increasing keys.
pub open spec fn subtree(chunks: Map<Seq<u8>, Seq<u8>>, h: Seq<u8>, level: nat) -> Option<
    Seq<EntryModel>,
>
    decreases level, 0nat, 0nat,
{
    match node_at(chunks, h) {
        Some(NodeModel::Leaf { level: l, entries }) => if level == 0 && l == 0 && entries.len() > 0
            && sorted_entries(entries) {
            Some(entries)
        } else {
            None
        },
        Some(NodeModel::Internal { level: l, children }) => if level > 0 && l == level
            && children.len() > 0 {
            children_flat(chunks, children, (level - 1) as nat)
        } else {
            None
        },
        None => None,
    }
}

/// The entries below a list of children at `level`, concatenated.
pub open spec fn children_flat(chunks: Map<Seq<u8>, Seq<u8>>, cs: Seq<ChildModel>, level: nat) -> Option<
    Seq<EntryModel>,
>
    decreases level, 1nat, cs.len(),
{
    if cs.len() == 0 {
        Some(Seq::empty())
    } else {
        match children_flat(chunks, cs.drop_last(), level) {
            Some(a) => match subtree(chunks, cs.last().hash, level) {
                Some(b) => if b.len() > 0 && b.last().key == cs.last().boundary && b.len()
                    == cs.last().count
                    && sorted_entries(a + b) {
                    Some(a + b)
                } else {
                    None
                },
                None => None,
            },
            None => None,
        }
    }
}

/// The child is a well-formed subtree whose last key and size its entry records.
pub open spec fn child_ok(chunks: Map<Seq<u8>, Seq<u8>>, c: ChildModel, level: nat) -> bool {
    match subtree(chunks, c.hash, level) {
        Some(es) => es.len() > 0 && es.last().key == c.boundary && es.len() == c.count,
        None => false,
    }
}

pub open spec fn children_ok(chunks: Map<Seq<u8>, Seq<u8>>, cs: Seq<ChildModel>, level: nat) -> bool {
    forall|i: int| 0 <= i < cs.len() ==> child_ok(chunks, #[trigger] cs[i], level)
}

/// The concatenation of the children's entries.
pub open spec fn flat_concat(chunks: Map<Seq<u8>, Seq<u8>>, cs: Seq<ChildModel>, level: nat) -> Seq<
    EntryModel,
>
    decreases cs.len(),
{
    if cs.len() == 0 {
        Seq::empty()
    } else {
        flat_concat(chunks, cs.drop_last(), level) + subtree(chunks, cs.last().hash, level).unwrap()
    }
}

/// The entries of the tree rooted at `root`: the empty list for an empty tree.
pub open spec fn tree_entries(chunks: Map<Seq<u8>, Seq<u8>>, root: Option<Seq<u8>>) -> Option<
    Seq<EntryModel>,
> {
    match root {
        None => Some(Seq::empty()),
        Some(h) => match node_at(chunks, h) {
            Some(n) => subtree(chunks, h, n.level() as nat),
            None => None,
        },
    }
}

// ---------------- sortedness ----------------

pub proof fn lemma_sorted_split(a: Seq<EntryModel>, b: Seq<EntryModel>)
    requires
        sorted_entries(a + b),
    ensures
        sorted_entries(a),
        sorted_entries(b),
        forall|i: int, j: int|
            0 <= i < a.len() && 0 <= j < b.len() ==> lex_lt(#[trigger] a[i].key, #[trigger] b[j].key),
{
    assert forall|i: int, j: int| 0 <= i < j < a.len() implies lex_lt(a[i].key, a[j].key) by {
        assert((a + b)[i] == a[i] && (a + b)[j] == a[j]);
    }
    assert forall|i: int, j: int| 0 <= i < j < b.len() implies lex_lt(b[i].key, b[j].key) by {
        assert((a + b)[a.len() + i] == b[i] && (a + b)[a.len() + j] == b[j]);
    }
    assert forall|i: int, j: int|
        0 <= i < a.len() && 0 <= j < b.len() implies lex_lt(#[trigger] a[i].key, #[trigger] b[j].key) by {
        assert((a + b)[i] == a[i] && (a + b)[a.len() + j] == b[j]);
    }
}

/// In a sorted list every key is at most the last one.
pub proof fn lemma_sorted_le_last(es: Seq<EntryModel>, i: int)
    requires
        sorted_entries(es),
        0 <= i < es.len(),
    ensures
        lex_le(es[i].key, es.last().key),
{
}

// ---------------- children lists ----------------

pub proof fn lemma_flat_concat_add(
    chunks: Map<Seq<u8>, Seq<u8>>,
    a: Seq<ChildModel>,
    b: Seq<ChildModel>,
    level: nat,
)
    ensures
        flat_concat(chunks, a + b, level) == flat_concat(chunks, a, level) + flat_concat(
            chunks,
            b,
            level,
        ),
    decreases b.len(),
{
    if b.len() == 0 {
        assert(a + b =~= a);
        assert(flat_concat(chunks, a, level) + Seq::<EntryModel>::empty() =~= flat_concat(
            chunks,
            a,
            level,
        ));
    } else {
        assert((a + b).drop_last() =~= a + b.drop_last());
        assert((a + b).last() == b.last());
        lemma_flat_concat_add(chunks, a, b.drop_last(), level);
        let sb = subtree(chunks, b.last().hash, level).unwrap();
        assert(flat_concat(chunks, a, level) + flat_concat(chunks, b.drop_last(), level) + sb
            =~= flat_concat(chunks, a, level) + (flat_concat(chunks, b.drop_last(), level) + sb));
    }
}

pub proof fn lemma_flat_concat_one(chunks: Map<Seq<u8>, Seq<u8>>, c: ChildModel, level: nat)
    ensures
        flat_concat(chunks, seq![c], level) == subtree(chunks, c.hash, level).unwrap(),
{
    assert(seq![c].drop_last() =~= Seq::<ChildModel>::empty());
    assert(flat_concat(chunks, Seq::<ChildModel>::empty(), level) =~= Seq::<EntryModel>::empty());
    assert(Seq::<EntryModel>::empty() + subtree(chunks, c.hash, level).unwrap() =~= subtree(
        chunks,
        c.hash,
        level,
    ).unwrap());
}

/// `children_flat` holds exactly when every child is well formed and the
/// concatenation is sorted, and then it is the concatenation.
pub proof fn lemma_children_flat_char(chunks: Map<Seq<u8>, Seq<u8>>, cs: Seq<ChildModel>, level: nat)
    ensures
        children_flat(chunks, cs, level) == if children_ok(chunks, cs, level) && sorted_entries(
            flat_concat(chunks, cs, level),
        ) {
            Some(flat_concat(chunks, cs, level))
        } else {
            None::<Seq<EntryModel>>
        },
    decreases cs.len(),
{
    if cs.len() > 0 {
        let init = cs.drop_last();
        lemma_children_flat_char(chunks, init, level);
        let fa = flat_concat(chunks, init, level);
        let sb = subtree(chunks, cs.last().hash, level);
        if children_ok(chunks, cs, level) && sorted_entries(flat_concat(chunks, cs, level)) {
            assert forall|i: int| 0 <= i < init.len() implies child_ok(
                chunks,
                #[trigger] init[i],
                level,
            ) by {
                assert(init[i] == cs[i]);
            }
            lemma_sorted_split(fa, sb.unwrap());
            assert(child_ok(chunks, cs[cs.len() - 1], level));
        } else {
            if children_flat(chunks, cs, level) is Some {
                assert forall|i: int| 0 <= i < cs.len() implies child_ok(
                    chunks,
                    #[trigger] cs[i],
                    level,
                ) by {
                    if i < cs.len() - 1 {
                        assert(init[i] == cs[i]);
                    }
                }
            }
        }
    } else {
        assert(flat_concat(chunks, cs, level) =~= Seq::<EntryModel>::empty());
    }
}

/// A well-formed subtree is nonempty and sorted.
pub proof fn lemma_subtree_shape(chunks: Map<Seq<u8>, Seq<u8>>, h: Seq<u8>, level: nat)
    requires
        subtree(chunks, h, level) is Some,
    ensures
        subtree(chunks, h, level).unwrap().len() > 0,
        sorted_entries(subtree(chunks, h, level).unwrap()),
{
    match node_at(chunks, h) {
        Some(NodeModel::Internal { children, .. }) => {
            let lv = (level - 1) as nat;
            lemma_children_flat_char(chunks, children, lv);
            assert(child_ok(chunks, children[0], lv));
            assert(children =~= seq![children[0]] + children.drop_first());
            lemma_flat_concat_add(chunks, seq![children[0]], children.drop_first(), lv);
            lemma_flat_concat_one(chunks, children[0], lv);
        },
        _ => {},
    }
}

// ---------------- a growing store keeps every subtree ----------------

pub proof fn lemma_subtree_mono(
    c1: Map<Seq<u8>, Seq<u8>>,
    c2: Map<Seq<u8>, Seq<u8>>,
    h: Seq<u8>,
    level: nat,
)
    requires
        c1.submap_of(c2),
        subtree(c1, h, level) is Some,
    ensures
        subtree(c2, h, level) == subtree(c1, h, level),
    decreases level, 0nat, 0nat,
{
    assert(node_at(c2, h) == node_at(c1, h));
    match node_at(c1, h) {
        Some(NodeModel::Internal { children, .. }) => {
            lemma_children_flat_mono(c1, c2, children, (level - 1) as nat);
        },
        _ => {},
    }
}

pub proof fn lemma_children_flat_mono(
    c1: Map<Seq<u8>, Seq<u8>>,
    c2: Map<Seq<u8>, Seq<u8>>,
    cs: Seq<ChildModel>,
    level: nat,
)
    requires
        c1.submap_of(c2),
        children_flat(c1, cs, level) is Some,
    ensures
        children_flat(c2, cs, level) == children_flat(c1, cs, level),
    decreases level, 1nat, cs.len(),
{
    if cs.len() > 0 {
        lemma_children_flat_mono(c1, c2, cs.drop_last(), level);
        lemma_subtree_mono(c1, c2, cs.last().hash, level);
    }
}

pub proof fn lemma_child_ok_mono(
    c1: Map<Seq<u8>, Seq<u8>>,
    c2: Map<Seq<u8>, Seq<u8>>,
    c: ChildModel,
    level: nat,
)
    requires
        c1.submap_of(c2),
        child_ok(c1, c, level),
    ensures
        child_ok(c2, c, level),
        subtree(c2, c.hash, level) == subtree(c1, c.hash, level),
{
    lemma_subtree_mono(c1, c2, c.hash, level);
}

pub proof fn lemma_children_ok_mono(
    c1: Map<Seq<u8>, Seq<u8>>,
    c2: Map<Seq<u8>, Seq<u8>>,
    cs: Seq<ChildModel>,
    level: nat,
)
    requires
        c1.submap_of(c2),
        children_ok(c1, cs, level),
    ensures
        children_ok(c2, cs, level),
        flat_concat(c2, cs, level) == flat_concat(c1, cs, level),
    decreases cs.len(),
{
    assert forall|i: int| 0 <= i < cs.len() implies child_ok(c2, #[trigger] cs[i], level) by {
        lemma_child_ok_mono(c1, c2, cs[i], level);
    }
    if cs.len() > 0 {
        assert forall|i: int| 0 <= i < cs.drop_last().len() implies child_ok(
            c1,
            #[trigger] cs.drop_last()[i],
            level,
        ) by {
            assert(cs.drop_last()[i] == cs[i]);
        }
        lemma_children_ok_mono(c1, c2, cs.drop_last(), level);
        lemma_child_ok_mono(c1, c2, cs.last(), level);
    }
}

pub proof fn lemma_tree_entries_mono(
    c1: Map<Seq<u8>, Seq<u8>>,
    c2: Map<Seq<u8>, Seq<u8>>,
    root: Option<Seq<u8>>,
)
    requires
        c1.submap_of(c2),
        tree_entries(c1, root) is Some,
    ensures
        tree_entries(c2, root) == tree_entries(c1, root),
{
    match root {
        Some(h) => {
            assert(node_at(c2, h) == node_at(c1, h));
            lemma_subtree_mono(c1, c2, h, node_at(c1, h).unwrap().level() as nat);
        },
        None => {},
    }
}

// ---------------- sorted insert ----------------

/// `es` with `e` put in key order, replacing an entry with the same key.
pub open spec fn seq_insert(es: Seq<EntryModel>, e: EntryModel) -> Seq<EntryModel>
    decreases es.len(),
{
    if es.len() == 0 {
        seq![e]
    } else if es[0].key == e.key {
        seq![e] + es.drop_first()
    } else if lex_lt(e.key, es[0].key) {
        seq![e] + es
    } else {
        seq![es[0]] + seq_insert(es.drop_first(), e)
    }
}

/// `es` without the entry for key `k`.
pub open spec fn seq_remove(es: Seq<EntryModel>, k: Seq<u8>) -> Seq<EntryModel>
    decreases es.len(),
{
    if es.len() == 0 {
        Seq::empty()
    } else if es[0].key == k {
        seq_remove(es.drop_first(), k)
    } else {
        seq![es[0]] + seq_remove(es.drop_first(), k)
    }
}

pub open spec fn has_key(es: Seq<EntryModel>, k: Seq<u8>) -> bool {
    exists|i: int| 0 <= i < es.len() && es[i].key == k
}

/// `p` is where `k` belongs in `es`: every key before is smaller, none after is.
pub open spec fn is_lower_bound(es: Seq<EntryModel>, k: Seq<u8>, p: int) -> bool {
    &&& 0 <= p <= es.len()
    &&& forall|i: int| 0 <= i < p ==> lex_lt(#[trigger] es[i].key, k)
    &&& forall|i: int| p <= i < es.len() ==> !lex_lt(#[trigger] es[i].key, k)
}

pub proof fn lemma_seq_insert_at(es: Seq<EntryModel>, e: EntryModel, p: int)
    requires
        sorted_entries(es),
        is_lower_bound(es, e.key, p),
    ensures
        p < es.len() && es[p].key == e.key ==> seq_insert(es, e) == es.update(p, e),
        !(p < es.len() && es[p].key == e.key) ==> seq_insert(es, e) == es.take(p) + seq![e]
            + es.skip(p),
    decreases es.len(),
{
    if es.len() == 0 {
        assert(es.take(p) + seq![e] + es.skip(p) =~= seq![e]);
    } else if p == 0 {
        lemma_lex_trichotomy(es[0].key, e.key);
        if es[0].key == e.key {
            assert(seq![e] + es.drop_first() =~= es.update(0, e));
        } else {
            assert(seq![e] + es =~= es.take(0) + seq![e] + es.skip(0));
        }
    } else {
        let t = es.drop_first();
        assert(lex_lt(es[0].key, e.key));
        lemma_lex_lt_irreflexive(e.key);
        lemma_lex_lt_asymmetric(es[0].key, e.key);
        assert forall|i: int, j: int| 0 <= i < j < t.len() implies lex_lt(t[i].key, t[j].key) by {
            assert(t[i] == es[i + 1] && t[j] == es[j + 1]);
        }
        assert(is_lower_bound(t, e.key, p - 1)) by {
            assert forall|i: int| 0 <= i < p - 1 implies lex_lt(#[trigger] t[i].key, e.key) by {
                assert(t[i] == es[i + 1]);
            }
            assert forall|i: int| p - 1 <= i < t.len() implies !lex_lt(#[trigger] t[i].key, e.key) by {
                assert(t[i] == es[i + 1]);
            }
        }
        lemma_seq_insert_at(t, e, p - 1);
        if p < es.len() && es[p].key == e.key {
            assert(t[p - 1] == es[p]);
            assert(seq![es[0]] + t.update(p - 1, e) =~= es.update(p, e));
        } else {
            if p - 1 < t.len() {
                assert(t[p - 1] == es[p]);
            }
            assert(seq![es[0]] + (t.take(p - 1) + seq![e] + t.skip(p - 1)) =~= es.take(p) + seq![e]
                + es.skip(p));
        }
    }
}

/// Inserting after a prefix of smaller keys leaves the prefix in front.
pub proof fn lemma_seq_insert_after(a: Seq<EntryModel>, b: Seq<EntryModel>, e: EntryModel)
    requires
        forall|i: int| 0 <= i < a.len() ==> lex_lt(#[trigger] a[i].key, e.key),
    ensures
        seq_insert(a + b, e) == a + seq_insert(b, e),
    decreases a.len(),
{
    if a.len() == 0 {
        assert(a + b =~= b);
        assert(a + seq_insert(b, e) =~= seq_insert(b, e));
    } else {
        let a1 = a.drop_first();
        assert((a + b)[0] == a[0]);
        assert((a + b).drop_first() =~= a1 + b);
        lemma_lex_lt_irreflexive(e.key);
        lemma_lex_lt_asymmetric(a[0].key, e.key);
        assert forall|i: int| 0 <= i < a1.len() implies lex_lt(#[trigger] a1[i].key, e.key) by {
            assert(a1[i] == a[i + 1]);
        }
        lemma_seq_insert_after(a1, b, e);
        assert(seq![a[0]] + (a1 + seq_insert(b, e)) =~= a + seq_insert(b, e));
    }
}

/// Inserting a key no greater than the last of `a` leaves what follows `a` behind.
pub proof fn lemma_seq_insert_before(a: Seq<EntryModel>, b: Seq<EntryModel>, e: EntryModel)
    requires
        a.len() > 0,
        lex_le(e.key, a.last().key),
        sorted_entries(a),
    ensures
        seq_insert(a + b, e) == seq_insert(a, e) + b,
    decreases a.len(),
{
    assert((a + b)[0] == a[0]);
    assert((a + b).drop_first() =~= a.drop_first() + b);
    if a[0].key == e.key {
        assert(seq![e] + (a.drop_first() + b) =~= seq![e] + a.drop_first() + b);
    } else if lex_lt(e.key, a[0].key) {
        assert(seq![e] + (a + b) =~= seq![e] + a + b);
    } else {
        let a1 = a.drop_first();
        if a1.len() == 0 {
            assert(a.last() == a[0]);
            assert(false);
        }
        assert(a1.last() == a.last());
        assert forall|i: int, j: int| 0 <= i < j < a1.len() implies lex_lt(a1[i].key, a1[j].key) by {
            assert(a1[i] == a[i + 1] && a1[j] == a[j + 1]);
        }
        lemma_seq_insert_before(a1, b, e);
        assert(seq![a[0]] + (seq_insert(a1, e) + b) =~= seq![a[0]] + seq_insert(a1, e) + b);
    }
}

pub proof fn lemma_seq_insert_sorted(es: Seq<EntryModel>, e: EntryModel)
    requires
        sorted_entries(es),
    ensures
        sorted_entries(seq_insert(es, e)),
        seq_insert(es, e).len() > 0,
        forall|i: int|
            0 <= i < seq_insert(es, e).len() ==> (#[trigger] seq_insert(es, e)[i]).key == e.key
                || has_key(es, seq_insert(es, e)[i].key),
    decreases es.len(),
{
    if es.len() > 0 {
        let t = es.drop_first();
        assert forall|i: int, j: int| 0 <= i < j < t.len() implies lex_lt(t[i].key, t[j].key) by {
            assert(t[i] == es[i + 1] && t[j] == es[j + 1]);
        }
        lemma_lex_trichotomy(e.key, es[0].key);
        if es[0].key == e.key {
            let r = seq![e] + t;
            assert forall|i: int, j: int| 0 <= i < j < r.len() implies lex_lt(r[i].key, r[j].key) by {
                assert(r[j] == es[j]);
                if i > 0 {
                    assert(r[i] == es[i]);
                }
            }
            assert forall|i: int| 0 <= i < r.len() implies (#[trigger] r[i]).key == e.key || has_key(
                es,
                r[i].key,
            ) by {
                if i > 0 {
                    assert(r[i] == es[i]);
                }
            }
        } else if lex_lt(e.key, es[0].key) {
            let r = seq![e] + es;
            assert forall|i: int, j: int| 0 <= i < j < r.len() implies lex_lt(r[i].key, r[j].key) by {
                assert(r[j] == es[j - 1]);
                if i > 0 {
                    assert(r[i] == es[i - 1]);
                } else if j - 1 > 0 {
                    lemma_lex_lt_transitive(e.key, es[0].key, es[j - 1].key);
                }
            }
            assert forall|i: int| 0 <= i < r.len() implies (#[trigger] r[i]).key == e.key || has_key(
                es,
                r[i].key,
            ) by {
                if i > 0 {
                    assert(r[i] == es[i - 1]);
                }
            }
        } else {
            lemma_seq_insert_sorted(t, e);
            let s = seq_insert(t, e);
            let r = seq![es[0]] + s;
            assert forall|i: int| 0 <= i < r.len() implies (#[trigger] r[i]).key == e.key || has_key(
                es,
                r[i].key,
            ) by {
                if i > 0 {
                    assert(r[i] == s[i - 1]);
                    if s[i - 1].key != e.key {
                        let j = choose|j: int| 0 <= j < t.len() && t[j].key == s[i - 1].key;
                        assert(es[j + 1] == t[j]);
                    }
                }
            }
            assert forall|i: int, j: int| 0 <= i < j < r.len() implies lex_lt(r[i].key, r[j].key) by {
                assert(r[j] == s[j - 1]);
                if i > 0 {
                    assert(r[i] == s[i - 1]);
                } else {
                    if s[j - 1].key == e.key {
                    } else {
                        let m = choose|m: int| 0 <= m < t.len() && t[m].key == s[j - 1].key;
                        assert(es[m + 1] == t[m]);
                    }
                }
            }
        }
    }
}

// ---------------- removal ----------------

pub proof fn lemma_seq_remove_add(a: Seq<EntryModel>, b: Seq<EntryModel>, k: Seq<u8>)
    ensures
        seq_remove(a + b, k) == seq_remove(a, k) + seq_remove(b, k),
    decreases a.len(),
{
    if a.len() == 0 {
        assert(a + b =~= b);
        assert(Seq::<EntryModel>::empty() + seq_remove(b, k) =~= seq_remove(b, k));
    } else {
        assert((a + b)[0] == a[0]);
        assert((a + b).drop_first() =~= a.drop_first() + b);
        lemma_seq_remove_add(a.drop_first(), b, k);
        if a[0].key != k {
            assert(seq![a[0]] + (seq_remove(a.drop_first(), k) + seq_remove(b, k)) =~= seq![a[0]]
                + seq_remove(a.drop_first(), k) + seq_remove(b, k));
        }
    }
}

pub proof fn lemma_seq_remove_absent(es: Seq<EntryModel>, k: Seq<u8>)
    requires
        !has_key(es, k),
    ensures
        seq_remove(es, k) == es,
    decreases es.len(),
{
    if es.len() > 0 {
        let t = es.drop_first();
        assert(es[0].key != k);
        assert(!has_key(t, k)) by {
            if has_key(t, k) {
                let i = choose|i: int| 0 <= i < t.len() && t[i].key == k;
                assert(es[i + 1] == t[i]);
            }
        }
        lemma_seq_remove_absent(t, k);
        assert(seq![es[0]] + t =~= es);
    }
}

pub proof fn lemma_seq_remove_at(es: Seq<EntryModel>, p: int)
    requires
        sorted_entries(es),
        0 <= p < es.len(),
    ensures
        seq_remove(es, es[p].key) == es.remove(p),
    decreases es.len(),
{
    let k = es[p].key;
    let t = es.drop_first();
    assert forall|i: int, j: int| 0 <= i < j < t.len() implies lex_lt(t[i].key, t[j].key) by {
        assert(t[i] == es[i + 1] && t[j] == es[j + 1]);
    }
    if p == 0 {
        assert(!has_key(t, k)) by {
            if has_key(t, k) {
                let i = choose|i: int| 0 <= i < t.len() && t[i].key == k;
                assert(es[i + 1] == t[i]);
                lemma_lex_lt_irreflexive(k);
            }
        }
        lemma_seq_remove_absent(t, k);
        assert(t =~= es.remove(0));
    } else {
        assert(es[0].key != k) by {
            lemma_lex_lt_irreflexive(k);
        }
        assert(t[p - 1] == es[p]);
        lemma_seq_remove_at(t, p - 1);
        assert(seq![es[0]] + t.remove(p - 1) =~= es.remove(p));
    }
}

pub proof fn lemma_seq_remove_sorted(es: Seq<EntryModel>, k: Seq<u8>)
    requires
        sorted_entries(es),
    ensures
        sorted_entries(seq_remove(es, k)),
        !has_key(seq_remove(es, k), k),
        forall|i: int|
            0 <= i < seq_remove(es, k).len() ==> has_key(es, (#[trigger] seq_remove(es, k)[i]).key),
    decreases es.len(),
{
    if es.len() > 0 {
        let t = es.drop_first();
        assert forall|i: int, j: int| 0 <= i < j < t.len() implies lex_lt(t[i].key, t[j].key) by {
            assert(t[i] == es[i + 1] && t[j] == es[j + 1]);
        }
        lemma_seq_remove_sorted(t, k);
        let s = seq_remove(t, k);
        assert forall|i: int| 0 <= i < s.len() implies has_key(es, (#[trigger] s[i]).key) by {
            let j = choose|j: int| 0 <= j < t.len() && t[j].key == s[i].key;
            assert(es[j + 1] == t[j]);
        }
        if es[0].key != k {
            let r = seq![es[0]] + s;
            assert forall|i: int, j: int| 0 <= i < j < r.len() implies lex_lt(r[i].key, r[j].key) by {
                assert(r[j] == s[j - 1]);
                if i > 0 {
                    assert(r[i] == s[i - 1]);
                } else {
                    let m = choose|m: int| 0 <= m < t.len() && t[m].key == s[j - 1].key;
                    assert(es[m + 1] == t[m]);
                }
            }
            assert forall|i: int| 0 <= i < r.len() implies has_key(es, (#[trigger] r[i]).key) by {
                if i > 0 {
                    assert(r[i] == s[i - 1]);
                }
            }
            assert(!has_key(r, k)) by {
                if has_key(r, k) {
                    let i = choose|i: int| 0 <= i < r.len() && r[i].key == k;
                    if i > 0 {
                        assert(r[i] == s[i - 1]);
                    }
                }
            }
        }
    }
}

} // verus!

verus! {

// ---------------- routing a key to a child ----------------

/// The entries under `cs`, split around child `i`.
pub proof fn lemma_children_split(chunks: Map<Seq<u8>, Seq<u8>>, cs: Seq<ChildModel>, level: nat, i: int)
    requires
        children_ok(chunks, cs, level),
        0 <= i < cs.len(),
    ensures
        flat_concat(chunks, cs, level) == flat_concat(chunks, cs.take(i), level) + subtree(
            chunks,
            cs[i].hash,
            level,
        ).unwrap() + flat_concat(chunks, cs.skip(i + 1), level),
        i > 0 ==> flat_concat(chunks, cs.take(i), level).len() > 0 && flat_concat(
            chunks,
            cs.take(i),
            level,
        ).last().key == cs[i - 1].boundary,
        i + 1 < cs.len() ==> flat_concat(chunks, cs.skip(i + 1), level).len() > 0,
{
    assert(cs =~= cs.take(i) + seq![cs[i]] + cs.skip(i + 1));
    lemma_flat_concat_add(chunks, cs.take(i) + seq![cs[i]], cs.skip(i + 1), level);
    lemma_flat_concat_add(chunks, cs.take(i), seq![cs[i]], level);
    lemma_flat_concat_one(chunks, cs[i], level);
    assert(child_ok(chunks, cs[i], level));
    if i > 0 {
        let t = cs.take(i);
        assert(t.drop_last() =~= cs.take(i - 1));
        assert(t.last() == cs[i - 1]);
        assert(child_ok(chunks, cs[i - 1], level));
    }
    if i + 1 < cs.len() {
        let t = cs.skip(i + 1);
        assert(t =~= seq![cs[i + 1]] + t.drop_first());
        lemma_flat_concat_add(chunks, seq![cs[i + 1]], t.drop_first(), level);
        lemma_flat_concat_one(chunks, cs[i + 1], level);
        assert(child_ok(chunks, cs[i + 1], level));
    }
}

/// Where a key lands when it is routed to child `i`: everything before
/// that child is smaller, everything after it larger.
pub proof fn lemma_route(chunks: Map<Seq<u8>, Seq<u8>>, cs: Seq<ChildModel>, level: nat, i: int, k: Seq<u8>)
    requires
        children_ok(chunks, cs, level),
        sorted_entries(flat_concat(chunks, cs, level)),
        0 <= i < cs.len(),
        i > 0 ==> lex_lt(cs[i - 1].boundary, k),
        i + 1 < cs.len() ==> lex_le(k, cs[i].boundary),
    ensures
        ({
            let pre = flat_concat(chunks, cs.take(i), level);
            let x = subtree(chunks, cs[i].hash, level).unwrap();
            let suf = flat_concat(chunks, cs.skip(i + 1), level);
            &&& flat_concat(chunks, cs, level) == pre + x + suf
            &&& x.len() > 0
            &&& sorted_entries(x)
            &&& x.last().key == cs[i].boundary
            &&& forall|j: int| 0 <= j < pre.len() ==> lex_lt(#[trigger] pre[j].key, k)
            &&& forall|j: int| 0 <= j < suf.len() ==> lex_lt(k, #[trigger] suf[j].key)
            &&& suf.len() > 0 ==> lex_le(k, x.last().key)
        }),
{
    lemma_children_split(chunks, cs, level, i);
    let pre = flat_concat(chunks, cs.take(i), level);
    let x = subtree(chunks, cs[i].hash, level).unwrap();
    let suf = flat_concat(chunks, cs.skip(i + 1), level);
    assert(child_ok(chunks, cs[i], level));
    lemma_sorted_split(pre + x, suf);
    lemma_sorted_split(pre, x);
    assert forall|j: int| 0 <= j < pre.len() implies lex_lt(#[trigger] pre[j].key, k) by {
        lemma_sorted_le_last(pre, j);
        lemma_lex_le_lt_transitive(pre[j].key, pre.last().key, k);
    }
    assert forall|j: int| 0 <= j < suf.len() implies lex_lt(k, #[trigger] suf[j].key) by {
        assert((pre + x)[pre.len() + x.len() - 1] == x.last());
        assert(lex_lt(x.last().key, suf[j].key));
        crate::keys::lemma_lex_le_lt_transitive(k, x.last().key, suf[j].key);
    }
}

pub proof fn lemma_sorted_unique(es: Seq<EntryModel>, i: int, j: int)
    requires
        sorted_entries(es),
        0 <= i < es.len(),
        0 <= j < es.len(),
        es[i].key == es[j].key,
    ensures
        i == j,
{
    if i < j || j < i {
        lemma_lex_lt_irreflexive(es[i].key);
    }
}

/// The value stored for `k`, if any.
pub open spec fn lookup(es: Seq<EntryModel>, k: Seq<u8>) -> Option<crate::node::definition::ValueModel> {
    if has_key(es, k) {
        Some(es[choose|i: int| 0 <= i < es.len() && es[i].key == k].value)
    } else {
        None
    }
}

pub proof fn lemma_lookup_at(es: Seq<EntryModel>, i: int)
    requires
        sorted_entries(es),
        0 <= i < es.len(),
    ensures
        lookup(es, es[i].key) == Some(es[i].value),
{
    let k = es[i].key;
    assert(has_key(es, k));
    let j = choose|j: int| 0 <= j < es.len() && es[j].key == k;
    lemma_sorted_unique(es, i, j);
}

/// Looking a key up in the routed child is looking it up in the whole list.
pub proof fn lemma_lookup_middle(pre: Seq<EntryModel>, x: Seq<EntryModel>, suf: Seq<EntryModel>, k: Seq<u8>)
    requires
        sorted_entries(pre + x + suf),
        forall|j: int| 0 <= j < pre.len() ==> lex_lt(#[trigger] pre[j].key, k),
        forall|j: int| 0 <= j < suf.len() ==> lex_lt(k, #[trigger] suf[j].key),
    ensures
        lookup(pre + x + suf, k) == lookup(x, k),
        has_key(pre + x + suf, k) == has_key(x, k),
{
    let all = pre + x + suf;
    lemma_sorted_split(pre + x, suf);
    lemma_sorted_split(pre, x);
    lemma_lex_lt_irreflexive(k);
    if has_key(all, k) {
        let i = choose|i: int| 0 <= i < all.len() && all[i].key == k;
        if i < pre.len() {
            assert(all[i] == pre[i]);
        } else if i >= pre.len() + x.len() {
            assert(all[i] == suf[i - pre.len() - x.len()]);
        } else {
            assert(all[i] == x[i - pre.len()]);
            lemma_lookup_at(all, i);
            lemma_lookup_at(x, i - pre.len());
        }
    }
    if has_key(x, k) {
        let j = choose|j: int| 0 <= j < x.len() && x[j].key == k;
        assert(all[pre.len() + j] == x[j]);
    }
}

pub proof fn lemma_has_key_outside(pre: Seq<EntryModel>, k: Seq<u8>, lt: bool)
    requires
        lt ==> forall|j: int| 0 <= j < pre.len() ==> lex_lt(#[trigger] pre[j].key, k),
        !lt ==> forall|j: int| 0 <= j < pre.len() ==> lex_lt(k, #[trigger] pre[j].key),
    ensures
        !has_key(pre, k),
{
    lemma_lex_lt_irreflexive(k);
}

/// Boundaries of well-formed children strictly increase.
pub proof fn lemma_boundaries_sorted(chunks: Map<Seq<u8>, Seq<u8>>, cs: Seq<ChildModel>, level: nat, a: int, b: int)
    requires
        children_ok(chunks, cs, level),
        sorted_entries(flat_concat(chunks, cs, level)),
        0 <= a < b < cs.len(),
    ensures
        lex_lt(cs[a].boundary, cs[b].boundary),
{
    lemma_children_split(chunks, cs, level, b);
    let pre = flat_concat(chunks, cs.take(b), level);
    let x = subtree(chunks, cs[b].hash, level).unwrap();
    let suf = flat_concat(chunks, cs.skip(b + 1), level);
    lemma_sorted_split(pre + x, suf);
    lemma_sorted_split(pre, x);
    let tk = cs.take(b);
    assert forall|i: int| 0 <= i < tk.len() implies child_ok(chunks, #[trigger] tk[i], level) by {
        assert(tk[i] == cs[i]);
    }
    lemma_children_split(chunks, tk, level, a);
    assert(tk[a] == cs[a]);
    let xa = subtree(chunks, cs[a].hash, level).unwrap();
    let pa = flat_concat(chunks, tk.take(a), level);
    assert(child_ok(chunks, cs[a], level));
    assert(pre[pa.len() + xa.len() - 1] == xa.last());
    assert(child_ok(chunks, cs[b], level));
    assert(lex_lt(pre[pa.len() + xa.len() - 1].key, x[x.len() - 1].key));
}

// ---------------- sizes ----------------

/// The sum of the children's recorded sizes.
pub open spec fn sum_counts(cs: Seq<ChildModel>) -> nat
    decreases cs.len(),
{
    if cs.len() == 0 {
        0
    } else {
        sum_counts(cs.drop_last()) + cs.last().count as nat
    }
}

pub proof fn lemma_sum_counts_len(chunks: Map<Seq<u8>, Seq<u8>>, cs: Seq<ChildModel>, level: nat)
    requires
        children_ok(chunks, cs, level),
    ensures
        sum_counts(cs) == flat_concat(chunks, cs, level).len(),
    decreases cs.len(),
{
    if cs.len() > 0 {
        assert forall|i: int| 0 <= i < cs.drop_last().len() implies child_ok(
            chunks,
            #[trigger] cs.drop_last()[i],
            level,
        ) by {
            assert(cs.drop_last()[i] == cs[i]);
        }
        lemma_sum_counts_len(chunks, cs.drop_last(), level);
        assert(child_ok(chunks, cs[cs.len() - 1], level));
    }
}

} // verus!

verus! {

pub proof fn lemma_children_ok_add(
    chunks: Map<Seq<u8>, Seq<u8>>,
    a: Seq<ChildModel>,
    b: Seq<ChildModel>,
    level: nat,
)
    requires
        children_ok(chunks, a, level),
        children_ok(chunks, b, level),
    ensures
        children_ok(chunks, a + b, level),
{
    assert forall|i: int| 0 <= i < (a + b).len() implies child_ok(chunks, #[trigger] (a + b)[i], level) by {
        if i < a.len() {
            assert((a + b)[i] == a[i]);
        } else {
            assert((a + b)[i] == b[i - a.len()]);
        }
    }
}

pub proof fn lemma_children_ok_sub(
    chunks: Map<Seq<u8>, Seq<u8>>,
    cs: Seq<ChildModel>,
    lo: int,
    hi: int,
    level: nat,
)
    requires
        children_ok(chunks, cs, level),
        0 <= lo <= hi <= cs.len(),
    ensures
        children_ok(chunks, cs.subrange(lo, hi), level),
        children_ok(chunks, cs.take(lo), level),
        children_ok(chunks, cs.skip(hi), level),
{
    assert forall|i: int| 0 <= i < cs.subrange(lo, hi).len() implies child_ok(
        chunks,
        #[trigger] cs.subrange(lo, hi)[i],
        level,
    ) by {
        assert(cs.subrange(lo, hi)[i] == cs[lo + i]);
    }
    assert forall|i: int| 0 <= i < cs.take(lo).len() implies child_ok(
        chunks,
        #[trigger] cs.take(lo)[i],
        level,
    ) by {
        assert(cs.take(lo)[i] == cs[i]);
    }
    assert forall|i: int| 0 <= i < cs.skip(hi).len() implies child_ok(
        chunks,
        #[trigger] cs.skip(hi)[i],
        level,
    ) by {
        assert(cs.skip(hi)[i] == cs[hi + i]);
    }
}

/// Replacing children `lo..hi` by `n`, under a store that only grew.
#[verifier::spinoff_prover]
#[verifier::rlimit(40)]
pub proof fn lemma_splice_children(
    c0: Map<Seq<u8>, Seq<u8>>,
    c1: Map<Seq<u8>, Seq<u8>>,
    cs: Seq<ChildModel>,
    level: nat,
    lo: int,
    hi: int,
    n: Seq<ChildModel>,
)
    requires
        c0.submap_of(c1),
        children_ok(c0, cs, level),
        0 <= lo <= hi <= cs.len(),
        children_ok(c1, n, level),
    ensures
        children_ok(c1, cs.take(lo) + n + cs.skip(hi), level),
        flat_concat(c1, cs.take(lo) + n + cs.skip(hi), level) == flat_concat(c0, cs.take(lo), level)
            + flat_concat(c1, n, level) + flat_concat(c0, cs.skip(hi), level),
        flat_concat(c0, cs, level) == flat_concat(c0, cs.take(lo), level) + flat_concat(
            c0,
            cs.subrange(lo, hi),
            level,
        ) + flat_concat(c0, cs.skip(hi), level),
{
    lemma_children_ok_sub(c0, cs, lo, hi, level);
    lemma_children_ok_mono(c0, c1, cs.take(lo), level);
    lemma_children_ok_mono(c0, c1, cs.skip(hi), level);
    lemma_children_ok_add(c1, cs.take(lo), n, level);
    lemma_children_ok_add(c1, cs.take(lo) + n, cs.skip(hi), level);
    lemma_flat_concat_add(c1, cs.take(lo) + n, cs.skip(hi), level);
    lemma_flat_concat_add(c1, cs.take(lo), n, level);
    assert(cs =~= cs.take(lo) + cs.subrange(lo, hi) + cs.skip(hi));
    lemma_flat_concat_add(c0, cs.take(lo) + cs.subrange(lo, hi), cs.skip(hi), level);
    lemma_flat_concat_add(c0, cs.take(lo), cs.subrange(lo, hi), level);
}

/// Children that are well formed with a sorted concatenation form a
/// well-formed subtree list.
pub proof fn lemma_children_flat_intro(chunks: Map<Seq<u8>, Seq<u8>>, cs: Seq<ChildModel>, level: nat)
    requires
        children_ok(chunks, cs, level),
        sorted_entries(flat_concat(chunks, cs, level)),
    ensures
        children_flat(chunks, cs, level) == Some(flat_concat(chunks, cs, level)),
{
    lemma_children_flat_char(chunks, cs, level);
}

pub proof fn lemma_flat_concat_two(chunks: Map<Seq<u8>, Seq<u8>>, a: ChildModel, b: ChildModel, level: nat)
    ensures
        flat_concat(chunks, seq![a, b], level) == subtree(chunks, a.hash, level).unwrap() + subtree(
            chunks,
            b.hash,
            level,
        ).unwrap(),
{
    assert(seq![a, b] =~= seq![a] + seq![b]);
    lemma_flat_concat_add(chunks, seq![a], seq![b], level);
    lemma_flat_concat_one(chunks, a, level);
    lemma_flat_concat_one(chunks, b, level);
}

/// The entries of a split list of children, each half well formed.
pub proof fn lemma_children_halves(chunks: Map<Seq<u8>, Seq<u8>>, cs: Seq<ChildModel>, level: nat, mid: int)
    requires
        children_ok(chunks, cs, level),
        sorted_entries(flat_concat(chunks, cs, level)),
        0 <= mid <= cs.len(),
    ensures
        children_ok(chunks, cs.take(mid), level),
        children_ok(chunks, cs.skip(mid), level),
        flat_concat(chunks, cs, level) == flat_concat(chunks, cs.take(mid), level) + flat_concat(
            chunks,
            cs.skip(mid),
            level,
        ),
        sorted_entries(flat_concat(chunks, cs.take(mid), level)),
        sorted_entries(flat_concat(chunks, cs.skip(mid), level)),
{
    lemma_children_ok_sub(chunks, cs, mid, mid, level);
    assert(cs =~= cs.take(mid) + cs.skip(mid));
    lemma_flat_concat_add(chunks, cs.take(mid), cs.skip(mid), level);
    lemma_sorted_split(flat_concat(chunks, cs.take(mid), level), flat_concat(chunks, cs.skip(mid), level));
}

pub proof fn lemma_lower_bound_absent(es: Seq<EntryModel>, k: Seq<u8>, p: int)
    requires
        sorted_entries(es),
        is_lower_bound(es, k, p),
        !(p < es.len() && es[p].key == k),
    ensures
        !has_key(es, k),
{
    if has_key(es, k) {
        let i = choose|i: int| 0 <= i < es.len() && es[i].key == k;
        lemma_lex_lt_irreflexive(k);
        if i > p {
            lemma_lex_trichotomy(es[p].key, k);
            lemma_lex_lt_transitive(k, es[p].key, es[i].key);
        }
    }
}

} // verus!

verus! {

/// The last entry under a nonempty list of children is the last child's boundary.
pub proof fn lemma_flat_last(chunks: Map<Seq<u8>, Seq<u8>>, cs: Seq<ChildModel>, level: nat)
    requires
        children_ok(chunks, cs, level),
        cs.len() > 0,
    ensures
        flat_concat(chunks, cs, level).len() > 0,
        flat_concat(chunks, cs, level).last().key == cs.last().boundary,
{
    assert(child_ok(chunks, cs[cs.len() - 1], level));
}

/// An internal node over well-formed children is a well-formed subtree,
/// and an entry for it with its last boundary and the summed size is well formed.
pub proof fn lemma_internal_node_ok(
    chunks: Map<Seq<u8>, Seq<u8>>,
    h: Seq<u8>,
    level: nat,
    cs: Seq<ChildModel>,
    count: nat,
)
    requires
        0 < level <= 255,
        node_at(chunks, h) == Some(NodeModel::Internal { level: level as u8, children: cs }),
        cs.len() > 0,
        children_ok(chunks, cs, (level - 1) as nat),
        sorted_entries(flat_concat(chunks, cs, (level - 1) as nat)),
        count == sum_counts(cs),
    ensures
        subtree(chunks, h, level) == Some(flat_concat(chunks, cs, (level - 1) as nat)),
        count <= u64::MAX ==> child_ok(
            chunks,
            ChildModel { boundary: cs.last().boundary, hash: h, count: count as u64 },
            level,
        ),
{
    lemma_children_flat_intro(chunks, cs, (level - 1) as nat);
    lemma_flat_last(chunks, cs, (level - 1) as nat);
    lemma_sum_counts_len(chunks, cs, (level - 1) as nat);
}

/// A leaf with sorted nonempty entries is a well-formed subtree.
pub proof fn lemma_leaf_node_ok(chunks: Map<Seq<u8>, Seq<u8>>, h: Seq<u8>, es: Seq<EntryModel>)
    requires
        node_at(chunks, h) == Some(NodeModel::Leaf { level: 0, entries: es }),
        es.len() > 0,
        sorted_entries(es),
        es.len() <= u64::MAX,
    ensures
        subtree(chunks, h, 0) == Some(es),
        child_ok(
            chunks,
            ChildModel { boundary: es.last().key, hash: h, count: es.len() as u64 },
            0,
        ),
{
}

pub proof fn lemma_node_at_mono(c1: Map<Seq<u8>, Seq<u8>>, c2: Map<Seq<u8>, Seq<u8>>, h: Seq<u8>)
    requires
        c1.submap_of(c2),
        node_at(c1, h) is Some,
    ensures
        node_at(c2, h) == node_at(c1, h),
{
}

pub proof fn lemma_submap_trans(c1: Map<Seq<u8>, Seq<u8>>, c2: Map<Seq<u8>, Seq<u8>>, c3: Map<Seq<u8>, Seq<u8>>)
    requires
        c1.submap_of(c2),
        c2.submap_of(c3),
    ensures
        c1.submap_of(c3),
{
    assert forall|k: Seq<u8>| #[trigger] c1.dom().contains(k) implies c3.dom().contains(k) && c1[k]
        == c3[k] by {
        assert(c1.dom().contains(k) && c2.dom().contains(k));
        assert(c1[k] == c2[k]);
        assert(c2.dom().contains(k) && c3.dom().contains(k));
        assert(c2[k] == c3[k]);
    }
}

} // verus!

verus! {

// ---------------- one node's content ----------------

/// The entries below node `n` when it stands at `level`: what `subtree`
/// gives for a hash under which `n` is stored.
pub open spec fn node_content(chunks: Map<Seq<u8>, Seq<u8>>, n: NodeModel, level: nat) -> Option<Seq<EntryModel>> {
    match n {
        NodeModel::Leaf { level: l, entries } => if level == 0 && l == 0 && entries.len() > 0
            && sorted_entries(entries) {
            Some(entries)
        } else {
            None
        },
        NodeModel::Internal { level: l, children } => if level > 0 && l == level && children.len() > 0 {
            children_flat(chunks, children, (level - 1) as nat)
        } else {
            None
        },
    }
}

pub proof fn lemma_subtree_node_content(chunks: Map<Seq<u8>, Seq<u8>>, h: Seq<u8>, level: nat)
    requires
        node_at(chunks, h) is Some,
    ensures
        subtree(chunks, h, level) == node_content(chunks, node_at(chunks, h).unwrap(), level),
{
}

/// A node of a well-formed subtree carries the subtree's level.
pub proof fn lemma_subtree_level(chunks: Map<Seq<u8>, Seq<u8>>, h: Seq<u8>, level: nat)
    requires
        subtree(chunks, h, level) is Some,
    ensures
        node_at(chunks, h) is Some,
        node_at(chunks, h).unwrap().level() == level,
{
}

pub proof fn lemma_node_content_mono(
    c1: Map<Seq<u8>, Seq<u8>>,
    c2: Map<Seq<u8>, Seq<u8>>,
    n: NodeModel,
    level: nat,
)
    requires
        c1.submap_of(c2),
        node_content(c1, n, level) is Some,
    ensures
        node_content(c2, n, level) == node_content(c1, n, level),
{
    match n {
        NodeModel::Internal { children, .. } => {
            lemma_children_flat_mono(c1, c2, children, (level - 1) as nat);
        },
        _ => {},
    }
}

/// Two neighbouring children of a well-formed list: both well formed, and
/// their entries in a row are sorted.
pub proof fn lemma_pair_context(chunks: Map<Seq<u8>, Seq<u8>>, cs: Seq<ChildModel>, level: nat, lo: int)
    requires
        children_ok(chunks, cs, level),
        sorted_entries(flat_concat(chunks, cs, level)),
        0 <= lo,
        lo + 2 <= cs.len(),
    ensures
        child_ok(chunks, cs[lo], level),
        child_ok(chunks, cs[lo + 1], level),
        sorted_entries(
            subtree(chunks, cs[lo].hash, level).unwrap() + subtree(chunks, cs[lo + 1].hash, level).unwrap(),
        ),
{
    lemma_splice_children(chunks, chunks, cs, level, lo, lo + 2, cs.subrange(lo, lo + 2));
    assert(cs.subrange(lo, lo + 2) =~= seq![cs[lo], cs[lo + 1]]);
    lemma_flat_concat_two(chunks, cs[lo], cs[lo + 1], level);
    lemma_sorted_split(
        flat_concat(chunks, cs.take(lo), level) + flat_concat(chunks, cs.subrange(lo, lo + 2), level),
        flat_concat(chunks, cs.skip(lo + 2), level),
    );
    lemma_sorted_split(
        flat_concat(chunks, cs.take(lo), level),
        flat_concat(chunks, cs.subrange(lo, lo + 2), level),
    );
}

/// Replacing two neighbouring children by children holding the same
/// entries keeps the list well formed with the same entries.
pub proof fn lemma_replace_pair(
    c0: Map<Seq<u8>, Seq<u8>>,
    c1: Map<Seq<u8>, Seq<u8>>,
    cs: Seq<ChildModel>,
    level: nat,
    lo: int,
    n: Seq<ChildModel>,
)
    requires
        c0.submap_of(c1),
        children_ok(c0, cs, level),
        0 <= lo,
        lo + 2 <= cs.len(),
        children_ok(c1, n, level),
        flat_concat(c1, n, level) == subtree(c0, cs[lo].hash, level).unwrap() + subtree(
            c0,
            cs[lo + 1].hash,
            level,
        ).unwrap(),
    ensures
        children_ok(c1, cs.take(lo) + n + cs.skip(lo + 2), level),
        flat_concat(c1, cs.take(lo) + n + cs.skip(lo + 2), level) == flat_concat(c0, cs, level),
{
    lemma_splice_children(c0, c1, cs, level, lo, lo + 2, n);
    assert(cs.subrange(lo, lo + 2) =~= seq![cs[lo], cs[lo + 1]]);
    lemma_flat_concat_two(c0, cs[lo], cs[lo + 1], level);
}

} // verus!
