//! Searching within a node.
use vstd::prelude::*;
use crate::keys::{
    compare_keys, lemma_lex_lt_asymmetric, lemma_lex_lt_transitive, lex_le, lex_lt, KeyOrder,
};
use crate::node::definition::{children_view, entries_view, ChildModel, InternalEntry, LeafEntry};
use super::model::{is_lower_bound, sorted_entries};

verus! {

/// Binary search for `key` among sorted entries: whether it is present,
/// and the position where it is or belongs.
pub fn search_entries(entries: &Vec<LeafEntry>, key: &[u8]) -> (r: (bool, usize))
    requires
        sorted_entries(entries_view(entries@)),
    ensures
        is_lower_bound(entries_view(entries@), key@, r.1 as int),
        r.0 == (r.1 < entries@.len() && entries_view(entries@)[r.1 as int].key == key@),
{
    let ghost es = entries_view(entries@);
    let mut lo: usize = 0;
    let mut hi: usize = entries.len();
    while lo < hi
        invariant
            es == entries_view(entries@),
            sorted_entries(es),
            0 <= lo <= hi <= entries@.len(),
            forall|i: int| 0 <= i < lo ==> lex_lt(#[trigger] es[i].key, key@),
            forall|i: int| hi <= i < es.len() ==> !lex_lt(#[trigger] es[i].key, key@),
        decreases hi - lo,
    {
        let mid = lo + (hi - lo) / 2;
        let c = compare_keys(entries[mid].key.as_slice(), key);
        assert(es[mid as int].key == entries@[mid as int].key@);
        match c {
            KeyOrder::Less => {
                assert forall|i: int| 0 <= i < mid + 1 implies lex_lt(#[trigger] es[i].key, key@) by {
                    if i < mid {
                        lemma_lex_lt_transitive(es[i].key, es[mid as int].key, key@);
                    }
                }
                lo = mid + 1;
            },
            _ => {
                assert forall|i: int| mid <= i < es.len() implies !lex_lt(#[trigger] es[i].key, key@) by {
                    if i > mid {
                        lemma_lex_lt_asymmetric(es[i].key, key@);
                        if lex_lt(es[i].key, key@) {
                            lemma_lex_lt_transitive(es[mid as int].key, es[i].key, key@);
                        }
                    }
                }
                hi = mid;
            },
        }
    }
    if lo < entries.len() {
        let c = compare_keys(entries[lo].key.as_slice(), key);
        assert(es[lo as int].key == entries@[lo as int].key@);
        match c {
            KeyOrder::Equal => (true, lo),
            _ => (false, lo),
        }
    } else {
        (false, lo)
    }
}

/// The boundary keys strictly increase.
pub open spec fn boundaries_sorted(cs: Seq<ChildModel>) -> bool {
    forall|i: int, j: int| 0 <= i < j < cs.len() ==> lex_lt(cs[i].boundary, cs[j].boundary)
}

/// Binary search for `key` among strictly increasing boundary keys: the
/// first position whose boundary is not below `key`.
pub fn search_boundaries(children: &Vec<InternalEntry>, key: &[u8]) -> (r: usize)
    requires
        boundaries_sorted(children_view(children@)),
    ensures
        r <= children@.len(),
        forall|i: int| 0 <= i < r ==> lex_lt(#[trigger] children_view(children@)[i].boundary, key@),
        forall|i: int|
            r <= i < children@.len() ==> !lex_lt(#[trigger] children_view(children@)[i].boundary, key@),
{
    let ghost cs = children_view(children@);
    let mut lo: usize = 0;
    let mut hi: usize = children.len();
    while lo < hi
        invariant
            cs == children_view(children@),
            boundaries_sorted(cs),
            0 <= lo <= hi <= children@.len(),
            forall|i: int| 0 <= i < lo ==> lex_lt(#[trigger] cs[i].boundary, key@),
            forall|i: int| hi <= i < cs.len() ==> !lex_lt(#[trigger] cs[i].boundary, key@),
        decreases hi - lo,
    {
        let mid = lo + (hi - lo) / 2;
        let c = compare_keys(children[mid].boundary_key.as_slice(), key);
        assert(cs[mid as int].boundary == children@[mid as int].boundary_key@);
        match c {
            KeyOrder::Less => {
                assert forall|i: int| 0 <= i < mid + 1 implies lex_lt(#[trigger] cs[i].boundary, key@) by {
                    if i < mid {
                        lemma_lex_lt_transitive(cs[i].boundary, cs[mid as int].boundary, key@);
                    }
                }
                lo = mid + 1;
            },
            _ => {
                assert forall|i: int| mid <= i < cs.len() implies !lex_lt(#[trigger] cs[i].boundary, key@) by {
                    if i > mid {
                        if lex_lt(cs[i].boundary, key@) {
                            lemma_lex_lt_transitive(cs[mid as int].boundary, cs[i].boundary, key@);
                        }
                    }
                }
                hi = mid;
            },
        }
    }
    lo
}

/// The child to descend into for `key`: the first whose boundary is at
/// least `key`, else the last.
pub fn route_child(children: &Vec<InternalEntry>, key: &[u8]) -> (i: usize)
    requires
        children@.len() > 0,
    ensures
        i < children@.len(),
        forall|j: int| 0 <= j < i ==> lex_lt(#[trigger] children_view(children@)[j].boundary, key@),
        i + 1 < children@.len() ==> lex_le(key@, children_view(children@)[i as int].boundary),
{
    let ghost cs = children_view(children@);
    let mut child_idx = children.len() - 1;
    let mut idx: usize = 0;
    while idx < children.len()
        invariant
            cs == children_view(children@),
            children@.len() > 0,
            idx <= children@.len(),
            child_idx == children@.len() - 1,
            forall|j: int| 0 <= j < idx ==> lex_lt(#[trigger] cs[j].boundary, key@),
        decreases children@.len() - idx,
    {
        let c = compare_keys(key, children[idx].boundary_key.as_slice());
        assert(cs[idx as int].boundary == children@[idx as int].boundary_key@);
        match c {
            KeyOrder::Greater => {},
            _ => {
                return idx;
            },
        }
        idx = idx + 1;
    }
    child_idx
}

} // verus!
