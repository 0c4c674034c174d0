//! A tree seen as a map from keys to value bytes, and how sorted insert and
//! remove act on that map.
use vstd::prelude::*;
use crate::keys::{lemma_lex_lt_transitive, lex_lt};
use crate::node::definition::EntryModel;
use super::io::{lemma_resolve_mono, resolve_value};
use super::model::{
    has_key, is_lower_bound, lemma_lookup_at, lemma_seq_insert_at, lemma_seq_insert_sorted,
    lemma_seq_remove_absent, lemma_seq_remove_at, lemma_seq_remove_sorted, lookup, seq_insert,
    seq_remove, sorted_entries, tree_entries,
};

verus! {

/// Every value of the list can be read back from the chunks.
pub open spec fn values_resolve(chunks: Map<Seq<u8>, Seq<u8>>, es: Seq<EntryModel>) -> bool {
    forall|i: int| 0 <= i < es.len() ==> (#[trigger] resolve_value(chunks, es[i].value)) is Some
}

/// The key-value map a sorted entry list stands for, values read from the chunks.
pub open spec fn entries_map(chunks: Map<Seq<u8>, Seq<u8>>, es: Seq<EntryModel>) -> Map<Seq<u8>, Seq<u8>> {
    Map::new(
        |k: Seq<u8>| has_key(es, k),
        |k: Seq<u8>| resolve_value(chunks, lookup(es, k).unwrap()).unwrap(),
    )
}

/// The key-value map of the tree rooted at `root`; empty when the tree is malformed.
pub open spec fn tree_map(chunks: Map<Seq<u8>, Seq<u8>>, root: Option<Seq<u8>>) -> Map<Seq<u8>, Seq<u8>> {
    match tree_entries(chunks, root) {
        Some(es) => entries_map(chunks, es),
        None => Map::empty(),
    }
}

/// Every key has a place in a sorted list.
pub proof fn lemma_lower_bound_exists(es: Seq<EntryModel>, k: Seq<u8>) -> (p: int)
    requires
        sorted_entries(es),
    ensures
        is_lower_bound(es, k, p),
    decreases es.len(),
{
    if es.len() == 0 {
        0
    } else {
        let init = es.drop_last();
        assert forall|i: int, j: int| 0 <= i < j < init.len() implies lex_lt(init[i].key, init[j].key) by {
            assert(init[i] == es[i] && init[j] == es[j]);
        }
        let p0 = lemma_lower_bound_exists(init, k);
        if lex_lt(es.last().key, k) {
            assert forall|i: int| 0 <= i < es.len() implies lex_lt(#[trigger] es[i].key, k) by {
                if i < es.len() - 1 {
                    lemma_lex_lt_transitive(es[i].key, es.last().key, k);
                }
            }
            es.len() as int
        } else {
            assert forall|i: int| 0 <= i < p0 implies lex_lt(#[trigger] es[i].key, k) by {
                assert(es[i] == init[i]);
            }
            assert forall|i: int| p0 <= i < es.len() implies !lex_lt(#[trigger] es[i].key, k) by {
                if i < es.len() - 1 {
                    assert(es[i] == init[i]);
                }
            }
            p0
        }
    }
}

/// Looking a key up after a sorted insert.
pub proof fn lemma_seq_insert_lookup(es: Seq<EntryModel>, e: EntryModel, k: Seq<u8>)
    requires
        sorted_entries(es),
    ensures
        has_key(seq_insert(es, e), k) == (k == e.key || has_key(es, k)),
        lookup(seq_insert(es, e), k) == if k == e.key {
            Some(e.value)
        } else {
            lookup(es, k)
        },
{
    let p = lemma_lower_bound_exists(es, e.key);
    lemma_seq_insert_at(es, e, p);
    lemma_seq_insert_sorted(es, e);
    let r = seq_insert(es, e);
    if p < es.len() && es[p].key == e.key {
        assert(r[p] == e);
        if k == e.key {
            lemma_lookup_at(r, p);
        } else {
            if has_key(es, k) {
                let j = choose|j: int| 0 <= j < es.len() && es[j].key == k;
                assert(r[j] == es[j]);
                lemma_lookup_at(r, j);
                lemma_lookup_at(es, j);
            }
            if has_key(r, k) {
                let j = choose|j: int| 0 <= j < r.len() && r[j].key == k;
                assert(r[j] == es[j]);
            }
        }
    } else {
        assert(r[p] == e);
        if k == e.key {
            lemma_lookup_at(r, p);
        } else {
            if has_key(es, k) {
                let j = choose|j: int| 0 <= j < es.len() && es[j].key == k;
                let jr = if j < p {
                    j
                } else {
                    j + 1
                };
                assert(r[jr] == es[j]);
                lemma_lookup_at(r, jr);
                lemma_lookup_at(es, j);
            }
            if has_key(r, k) {
                let j = choose|j: int| 0 <= j < r.len() && r[j].key == k;
                let je = if j < p {
                    j
                } else {
                    j - 1
                };
                assert(r[j] == es[je]);
            }
        }
    }
}

/// Looking a key up after removing one.
pub proof fn lemma_seq_remove_lookup(es: Seq<EntryModel>, k: Seq<u8>, j: Seq<u8>)
    requires
        sorted_entries(es),
    ensures
        has_key(seq_remove(es, k), j) == (j != k && has_key(es, j)),
        lookup(seq_remove(es, k), j) == if j == k {
            None
        } else {
            lookup(es, j)
        },
{
    lemma_seq_remove_sorted(es, k);
    let r = seq_remove(es, k);
    if !has_key(es, k) {
        lemma_seq_remove_absent(es, k);
    } else {
        let p = choose|p: int| 0 <= p < es.len() && es[p].key == k;
        lemma_seq_remove_at(es, p);
        assert(r == es.remove(p));
        if j != k {
            if has_key(es, j) {
                let i = choose|i: int| 0 <= i < es.len() && es[i].key == j;
                let ir = if i < p {
                    i
                } else {
                    i - 1
                };
                assert(i != p);
                assert(r[ir] == es[i]);
                lemma_lookup_at(r, ir);
                lemma_lookup_at(es, i);
            }
            if has_key(r, j) {
                let i = choose|i: int| 0 <= i < r.len() && r[i].key == j;
                let ie = if i < p {
                    i
                } else {
                    i + 1
                };
                assert(r[i] == es[ie]);
            }
        }
    }
}

/// The value found for a present key can be read back.
pub proof fn lemma_lookup_resolves(chunks: Map<Seq<u8>, Seq<u8>>, es: Seq<EntryModel>, k: Seq<u8>)
    requires
        values_resolve(chunks, es),
        has_key(es, k),
    ensures
        resolve_value(chunks, lookup(es, k).unwrap()) is Some,
{
    let j = choose|j: int| 0 <= j < es.len() && es[j].key == k;
    assert(resolve_value(chunks, es[j].value) is Some);
}

/// Values of a sorted list resolve when every key's value does.
proof fn lemma_values_resolve_by_lookup(chunks: Map<Seq<u8>, Seq<u8>>, es: Seq<EntryModel>)
    requires
        sorted_entries(es),
        forall|k: Seq<u8>| has_key(es, k) ==> resolve_value(chunks, #[trigger] lookup(es, k).unwrap()) is Some,
    ensures
        values_resolve(chunks, es),
{
    assert forall|i: int| 0 <= i < es.len() implies (#[trigger] resolve_value(chunks, es[i].value)) is Some by {
        lemma_lookup_at(es, i);
        assert(has_key(es, es[i].key));
        assert(resolve_value(chunks, lookup(es, es[i].key).unwrap()) is Some);
    }
}

/// A sorted insert puts the key's new value in the map and keeps the rest,
/// while the chunks only grow.
pub proof fn lemma_insert_map(
    c1: Map<Seq<u8>, Seq<u8>>,
    c2: Map<Seq<u8>, Seq<u8>>,
    es: Seq<EntryModel>,
    e: EntryModel,
)
    requires
        c1.submap_of(c2),
        sorted_entries(es),
        values_resolve(c1, es),
        resolve_value(c2, e.value) is Some,
    ensures
        values_resolve(c2, seq_insert(es, e)),
        entries_map(c2, seq_insert(es, e)) == entries_map(c1, es).insert(
            e.key,
            resolve_value(c2, e.value).unwrap(),
        ),
{
    let r = seq_insert(es, e);
    lemma_seq_insert_sorted(es, e);
    assert forall|k: Seq<u8>| has_key(r, k) implies (#[trigger] resolve_value(c2, lookup(r, k).unwrap()))
        is Some && (k != e.key ==> resolve_value(c2, lookup(r, k).unwrap()) == resolve_value(
        c1,
        lookup(es, k).unwrap(),
    )) by {
        lemma_seq_insert_lookup(es, e, k);
        if k != e.key {
            lemma_lookup_resolves(c1, es, k);
            lemma_resolve_mono(c1, c2, lookup(es, k).unwrap());
        }
    }
    lemma_values_resolve_by_lookup(c2, r);
    assert forall|k: Seq<u8>| #[trigger] entries_map(c2, r).dom().contains(k) == entries_map(c1, es).insert(
        e.key,
        resolve_value(c2, e.value).unwrap(),
    ).dom().contains(k) by {
        lemma_seq_insert_lookup(es, e, k);
    }
    let m = entries_map(c1, es).insert(e.key, resolve_value(c2, e.value).unwrap());
    assert forall|k: Seq<u8>| #[trigger] entries_map(c2, r).dom().contains(k) implies entries_map(c2, r)[k]
        == m[k] by {
        lemma_seq_insert_lookup(es, e, k);
    }
    assert(entries_map(c2, r) =~= m);
}

/// Removing a key takes it out of the map and keeps the rest, while the
/// chunks only grow.
pub proof fn lemma_remove_map(
    c1: Map<Seq<u8>, Seq<u8>>,
    c2: Map<Seq<u8>, Seq<u8>>,
    es: Seq<EntryModel>,
    k: Seq<u8>,
)
    requires
        c1.submap_of(c2),
        sorted_entries(es),
        values_resolve(c1, es),
    ensures
        values_resolve(c2, seq_remove(es, k)),
        entries_map(c2, seq_remove(es, k)) == entries_map(c1, es).remove(k),
{
    let r = seq_remove(es, k);
    lemma_seq_remove_sorted(es, k);
    assert forall|j: Seq<u8>| has_key(r, j) implies (#[trigger] resolve_value(c2, lookup(r, j).unwrap()))
        is Some && resolve_value(c2, lookup(r, j).unwrap()) == resolve_value(c1, lookup(es, j).unwrap()) by {
        lemma_seq_remove_lookup(es, k, j);
        lemma_lookup_resolves(c1, es, j);
        lemma_resolve_mono(c1, c2, lookup(es, j).unwrap());
    }
    lemma_values_resolve_by_lookup(c2, r);
    assert forall|j: Seq<u8>| #[trigger] entries_map(c2, r).dom().contains(j) == entries_map(c1, es).remove(
        k,
    ).dom().contains(j) by {
        lemma_seq_remove_lookup(es, k, j);
    }
    assert(entries_map(c2, r) =~= entries_map(c1, es).remove(k));
}

/// A growing store keeps what every value resolves to.
pub proof fn lemma_values_resolve_mono(c1: Map<Seq<u8>, Seq<u8>>, c2: Map<Seq<u8>, Seq<u8>>, es: Seq<EntryModel>)
    requires
        c1.submap_of(c2),
        values_resolve(c1, es),
    ensures
        values_resolve(c2, es),
        entries_map(c2, es) == entries_map(c1, es),
{
    assert forall|i: int| 0 <= i < es.len() implies (#[trigger] resolve_value(c2, es[i].value)) is Some by {
        assert(resolve_value(c1, es[i].value) is Some);
        lemma_resolve_mono(c1, c2, es[i].value);
    }
    assert forall|k: Seq<u8>| #[trigger] entries_map(c2, es).dom().contains(k) implies entries_map(c2, es)[k]
        == entries_map(c1, es)[k] by {
        lemma_lookup_resolves(c1, es, k);
        lemma_resolve_mono(c1, c2, lookup(es, k).unwrap());
    }
    assert(entries_map(c2, es) =~= entries_map(c1, es));
}

} // verus!

verus! {

/// The map of a sorted list has one key per entry.
pub proof fn lemma_entries_map_len(chunks: Map<Seq<u8>, Seq<u8>>, es: Seq<EntryModel>)
    requires
        sorted_entries(es),
    ensures
        entries_map(chunks, es).dom() == es.map_values(|e: EntryModel| e.key).to_set(),
        entries_map(chunks, es).len() == es.len(),
{
    let ks = es.map_values(|e: EntryModel| e.key);
    assert forall|k: Seq<u8>| #[trigger] entries_map(chunks, es).dom().contains(k) == ks.to_set().contains(k) by {
        if has_key(es, k) {
            let i = choose|i: int| 0 <= i < es.len() && es[i].key == k;
            assert(ks[i] == k);
        }
        if ks.to_set().contains(k) {
            let i = choose|i: int| 0 <= i < ks.len() && ks[i] == k;
            assert(es[i].key == k);
        }
    }
    assert(entries_map(chunks, es).dom() =~= ks.to_set());
    assert forall|i: int, j: int| 0 <= i < j < ks.len() implies ks[i] != ks[j] by {
        crate::keys::lemma_lex_lt_irreflexive(ks[i]);
    }
    ks.unique_seq_to_set();
}

} // verus!

verus! {

/// Versions persist: the store only gains chunks (every update writes new
/// nodes beside the old ones), so a root that held a tree still holds the
/// same entries and the same keys and values afterwards.
pub proof fn law_version_persists(c1: Map<Seq<u8>, Seq<u8>>, c2: Map<Seq<u8>, Seq<u8>>, root: Option<Seq<u8>>)
    requires
        c1.submap_of(c2),
        tree_entries(c1, root) is Some,
        values_resolve(c1, tree_entries(c1, root).unwrap()),
    ensures
        tree_entries(c2, root) == tree_entries(c1, root),
        values_resolve(c2, tree_entries(c2, root).unwrap()),
        tree_map(c2, root) == tree_map(c1, root),
{
    super::model::lemma_tree_entries_mono(c1, c2, root);
    lemma_values_resolve_mono(c1, c2, tree_entries(c1, root).unwrap());
}

} // verus!

verus! {

/// An insert undone: deleting a key from the map that inserting it into a
/// map without the key gave (the maps `insert` and `delete` promise on
/// success) gives back the map from before the insert.
pub proof fn law_insert_then_delete(
    before: Map<Seq<u8>, Seq<u8>>,
    after_insert: Map<Seq<u8>, Seq<u8>>,
    after_delete: Map<Seq<u8>, Seq<u8>>,
    k: Seq<u8>,
    v: Seq<u8>,
)
    requires
        !before.contains_key(k),
        after_insert == before.insert(k, v),
        after_delete == after_insert.remove(k),
    ensures
        after_delete == before,
{
    assert(after_delete =~= before);
}

} // verus!
