//! The byte encoding of nodes: the layout of bincode's default options
//! (little-endian fixed-width integers, `u64` lengths, `u32` variant tags).
use vstd::prelude::*;
use crate::error::{ProllyError, Result};
use crate::codec::{
    holds_at, lemma_holds_at_index, lemma_holds_at_split, lemma_holds_at_whole, lemma_parse_u32_le,
    lemma_parse_u64_le, parse_u32_le_at, parse_u64_le_at, push_all, push_u32_le, push_u64_le,
    u32_le_bytes, u64_le_bytes, read_u32_le, read_u64_le, copy_range,
};
use super::definition::{
    children_view, entries_view, hashes_view, ChildModel, EntryModel, InternalEntry, LeafEntry, Node,
    NodeModel, ValueModel, ValueRepr,
};

verus! {

// ---------------- encoding, as spec ----------------

pub open spec fn enc_bytes(b: Seq<u8>) -> Seq<u8> {
    u64_le_bytes(b.len() as u64) + b
}

pub open spec fn enc_hashes(hs: Seq<Seq<u8>>) -> Seq<u8>
    decreases hs.len(),
{
    if hs.len() == 0 {
        Seq::empty()
    } else {
        enc_hashes(hs.drop_last()) + hs.last()
    }
}

pub open spec fn enc_value(v: ValueModel) -> Seq<u8> {
    match v {
        ValueModel::Inline(b) => u32_le_bytes(0) + enc_bytes(b),
        ValueModel::Chunked(h) => u32_le_bytes(1) + h,
        ValueModel::ChunkedSequence { hashes, total_size } => u32_le_bytes(2) + u64_le_bytes(
            hashes.len() as u64,
        ) + enc_hashes(hashes) + u64_le_bytes(total_size),
    }
}

pub open spec fn enc_entry(e: EntryModel) -> Seq<u8> {
    enc_bytes(e.key) + enc_value(e.value)
}

pub open spec fn enc_entries(es: Seq<EntryModel>) -> Seq<u8>
    decreases es.len(),
{
    if es.len() == 0 {
        Seq::empty()
    } else {
        enc_entries(es.drop_last()) + enc_entry(es.last())
    }
}

pub open spec fn enc_child(c: ChildModel) -> Seq<u8> {
    enc_bytes(c.boundary) + c.hash + u64_le_bytes(c.count)
}

pub open spec fn enc_children(cs: Seq<ChildModel>) -> Seq<u8>
    decreases cs.len(),
{
    if cs.len() == 0 {
        Seq::empty()
    } else {
        enc_children(cs.drop_last()) + enc_child(cs.last())
    }
}

/// The bytes of a node.
pub open spec fn enc_node(n: NodeModel) -> Seq<u8> {
    match n {
        NodeModel::Leaf { level, entries } => u32_le_bytes(0) + seq![level] + u64_le_bytes(
            entries.len() as u64,
        ) + enc_entries(entries),
        NodeModel::Internal { level, children } => u32_le_bytes(1) + seq![level] + u64_le_bytes(
            children.len() as u64,
        ) + enc_children(children),
    }
}

// ---------------- models that encode faithfully ----------------

pub open spec fn len_fits(n: nat) -> bool {
    n <= u64::MAX
}

pub open spec fn value_wf(v: ValueModel) -> bool {
    match v {
        ValueModel::Inline(b) => len_fits(b.len()),
        ValueModel::Chunked(h) => h.len() == 32,
        ValueModel::ChunkedSequence { hashes, .. } => len_fits(hashes.len()) && forall|i: int|
            0 <= i < hashes.len() ==> (#[trigger] hashes[i]).len() == 32,
    }
}

pub open spec fn entry_wf(e: EntryModel) -> bool {
    len_fits(e.key.len()) && value_wf(e.value)
}

pub open spec fn child_wf(c: ChildModel) -> bool {
    len_fits(c.boundary.len()) && c.hash.len() == 32
}

pub open spec fn node_model_wf(n: NodeModel) -> bool {
    match n {
        NodeModel::Leaf { entries, .. } => len_fits(entries.len()) && forall|i: int|
            0 <= i < entries.len() ==> entry_wf(#[trigger] entries[i]),
        NodeModel::Internal { children, .. } => len_fits(children.len()) && forall|i: int|
            0 <= i < children.len() ==> child_wf(#[trigger] children[i]),
    }
}

// ---------------- parsing, as spec ----------------

pub open spec fn parse_bytes_at(s: Seq<u8>, pos: int) -> Option<(Seq<u8>, int)> {
    match parse_u64_le_at(s, pos) {
        Some((len, p)) => if p + len <= s.len() {
            Some((s.subrange(p, p + len), p + len))
        } else {
            None
        },
        None => None,
    }
}

pub open spec fn parse_hash_at(s: Seq<u8>, pos: int) -> Option<(Seq<u8>, int)> {
    if 0 <= pos && pos + 32 <= s.len() {
        Some((s.subrange(pos, pos + 32), pos + 32))
    } else {
        None
    }
}

pub open spec fn parse_hashes_at(s: Seq<u8>, pos: int, n: nat) -> Option<(Seq<Seq<u8>>, int)>
    decreases n,
{
    if n == 0 {
        Some((Seq::empty(), pos))
    } else {
        match parse_hashes_at(s, pos, (n - 1) as nat) {
            Some((hs, p)) => match parse_hash_at(s, p) {
                Some((h, q)) => Some((hs.push(h), q)),
                None => None,
            },
            None => None,
        }
    }
}

pub open spec fn parse_value_at(s: Seq<u8>, pos: int) -> Option<(ValueModel, int)> {
    match parse_u32_le_at(s, pos) {
        Some((tag, p)) => if tag == 0 {
            match parse_bytes_at(s, p) {
                Some((b, q)) => Some((ValueModel::Inline(b), q)),
                None => None,
            }
        } else if tag == 1 {
            match parse_hash_at(s, p) {
                Some((h, q)) => Some((ValueModel::Chunked(h), q)),
                None => None,
            }
        } else if tag == 2 {
            match parse_u64_le_at(s, p) {
                Some((n, p1)) => match parse_hashes_at(s, p1, n as nat) {
                    Some((hs, p2)) => match parse_u64_le_at(s, p2) {
                        Some((total, p3)) => Some(
                            (ValueModel::ChunkedSequence { hashes: hs, total_size: total }, p3),
                        ),
                        None => None,
                    },
                    None => None,
                },
                None => None,
            }
        } else {
            None
        },
        None => None,
    }
}

pub open spec fn parse_entry_at(s: Seq<u8>, pos: int) -> Option<(EntryModel, int)> {
    match parse_bytes_at(s, pos) {
        Some((k, p)) => match parse_value_at(s, p) {
            Some((v, q)) => Some((EntryModel { key: k, value: v }, q)),
            None => None,
        },
        None => None,
    }
}

pub open spec fn parse_entries_at(s: Seq<u8>, pos: int, n: nat) -> Option<(Seq<EntryModel>, int)>
    decreases n,
{
    if n == 0 {
        Some((Seq::empty(), pos))
    } else {
        match parse_entries_at(s, pos, (n - 1) as nat) {
            Some((es, p)) => match parse_entry_at(s, p) {
                Some((e, q)) => Some((es.push(e), q)),
                None => None,
            },
            None => None,
        }
    }
}

pub open spec fn parse_child_at(s: Seq<u8>, pos: int) -> Option<(ChildModel, int)> {
    match parse_bytes_at(s, pos) {
        Some((b, p)) => match parse_hash_at(s, p) {
            Some((h, p1)) => match parse_u64_le_at(s, p1) {
                Some((c, p2)) => Some((ChildModel { boundary: b, hash: h, count: c }, p2)),
                None => None,
            },
            None => None,
        },
        None => None,
    }
}

pub open spec fn parse_children_at(s: Seq<u8>, pos: int, n: nat) -> Option<
    (Seq<ChildModel>, int),
>
    decreases n,
{
    if n == 0 {
        Some((Seq::empty(), pos))
    } else {
        match parse_children_at(s, pos, (n - 1) as nat) {
            Some((cs, p)) => match parse_child_at(s, p) {
                Some((c, q)) => Some((cs.push(c), q)),
                None => None,
            },
            None => None,
        }
    }
}

pub open spec fn parse_node_at(s: Seq<u8>, pos: int) -> Option<(NodeModel, int)> {
    match parse_u32_le_at(s, pos) {
        Some((tag, p)) => if p < s.len() && (tag == 0 || tag == 1) {
            let level = s[p];
            match parse_u64_le_at(s, p + 1) {
                Some((n, p1)) => if tag == 0 {
                    match parse_entries_at(s, p1, n as nat) {
                        Some((es, p2)) => Some((NodeModel::Leaf { level, entries: es }, p2)),
                        None => None,
                    }
                } else {
                    match parse_children_at(s, p1, n as nat) {
                        Some((cs, p2)) => Some((NodeModel::Internal { level, children: cs }, p2)),
                        None => None,
                    }
                },
                None => None,
            }
        } else {
            None
        },
        None => None,
    }
}

/// The node that a byte string decodes to; bytes after the node are ignored.
pub open spec fn decode_node_spec(s: Seq<u8>) -> Option<NodeModel> {
    match parse_node_at(s, 0) {
        Some((n, _)) => Some(n),
        None => None,
    }
}

// ---------------- round trip ----------------

proof fn lemma_parse_bytes(s: Seq<u8>, pos: int, b: Seq<u8>)
    requires
        holds_at(s, pos, enc_bytes(b)),
        len_fits(b.len()),
    ensures
        parse_bytes_at(s, pos) == Some((b, pos + enc_bytes(b).len())),
{
    lemma_holds_at_split(s, pos, u64_le_bytes(b.len() as u64), b);
    lemma_parse_u64_le(s, pos, b.len() as u64);
}

proof fn lemma_parse_hashes(s: Seq<u8>, pos: int, hs: Seq<Seq<u8>>)
    requires
        holds_at(s, pos, enc_hashes(hs)),
        forall|i: int| 0 <= i < hs.len() ==> (#[trigger] hs[i]).len() == 32,
    ensures
        parse_hashes_at(s, pos, hs.len()) == Some((hs, pos + enc_hashes(hs).len())),
    decreases hs.len(),
{
    if hs.len() > 0 {
        let init = hs.drop_last();
        lemma_holds_at_split(s, pos, enc_hashes(init), hs.last());
        lemma_parse_hashes(s, pos, init);
        assert(init.push(hs.last()) =~= hs);
    } else {
        assert(hs =~= Seq::<Seq<u8>>::empty());
    }
}

proof fn lemma_parse_value(s: Seq<u8>, pos: int, v: ValueModel)
    requires
        holds_at(s, pos, enc_value(v)),
        value_wf(v),
    ensures
        parse_value_at(s, pos) == Some((v, pos + enc_value(v).len())),
{
    match v {
        ValueModel::Inline(b) => {
            lemma_holds_at_split(s, pos, u32_le_bytes(0), enc_bytes(b));
            lemma_parse_u32_le(s, pos, 0);
            lemma_parse_bytes(s, pos + 4, b);
        },
        ValueModel::Chunked(h) => {
            lemma_holds_at_split(s, pos, u32_le_bytes(1), h);
            lemma_parse_u32_le(s, pos, 1);
        },
        ValueModel::ChunkedSequence { hashes, total_size } => {
            let a = u32_le_bytes(2);
            let b = u64_le_bytes(hashes.len() as u64);
            let c = enc_hashes(hashes);
            let d = u64_le_bytes(total_size);
            lemma_holds_at_split(s, pos, a + b + c, d);
            lemma_holds_at_split(s, pos, a + b, c);
            lemma_holds_at_split(s, pos, a, b);
            lemma_parse_u32_le(s, pos, 2);
            lemma_parse_u64_le(s, pos + 4, hashes.len() as u64);
            lemma_parse_hashes(s, pos + 12, hashes);
            lemma_parse_u64_le(s, pos + 12 + c.len(), total_size);
        },
    }
}

proof fn lemma_parse_entry(s: Seq<u8>, pos: int, e: EntryModel)
    requires
        holds_at(s, pos, enc_entry(e)),
        entry_wf(e),
    ensures
        parse_entry_at(s, pos) == Some((e, pos + enc_entry(e).len())),
{
    lemma_holds_at_split(s, pos, enc_bytes(e.key), enc_value(e.value));
    lemma_parse_bytes(s, pos, e.key);
    lemma_parse_value(s, pos + enc_bytes(e.key).len(), e.value);
}

proof fn lemma_parse_entries(s: Seq<u8>, pos: int, es: Seq<EntryModel>)
    requires
        holds_at(s, pos, enc_entries(es)),
        forall|i: int| 0 <= i < es.len() ==> entry_wf(#[trigger] es[i]),
    ensures
        parse_entries_at(s, pos, es.len()) == Some((es, pos + enc_entries(es).len())),
    decreases es.len(),
{
    if es.len() > 0 {
        let init = es.drop_last();
        lemma_holds_at_split(s, pos, enc_entries(init), enc_entry(es.last()));
        lemma_parse_entries(s, pos, init);
        lemma_parse_entry(s, pos + enc_entries(init).len(), es.last());
        assert(init.push(es.last()) =~= es);
    } else {
        assert(es =~= Seq::<EntryModel>::empty());
    }
}

proof fn lemma_parse_child(s: Seq<u8>, pos: int, c: ChildModel)
    requires
        holds_at(s, pos, enc_child(c)),
        child_wf(c),
    ensures
        parse_child_at(s, pos) == Some((c, pos + enc_child(c).len())),
{
    let a = enc_bytes(c.boundary);
    lemma_holds_at_split(s, pos, a + c.hash, u64_le_bytes(c.count));
    lemma_holds_at_split(s, pos, a, c.hash);
    lemma_parse_bytes(s, pos, c.boundary);
    lemma_parse_u64_le(s, pos + a.len() + 32, c.count);
}

proof fn lemma_parse_children(s: Seq<u8>, pos: int, cs: Seq<ChildModel>)
    requires
        holds_at(s, pos, enc_children(cs)),
        forall|i: int| 0 <= i < cs.len() ==> child_wf(#[trigger] cs[i]),
    ensures
        parse_children_at(s, pos, cs.len()) == Some((cs, pos + enc_children(cs).len())),
    decreases cs.len(),
{
    if cs.len() > 0 {
        let init = cs.drop_last();
        lemma_holds_at_split(s, pos, enc_children(init), enc_child(cs.last()));
        lemma_parse_children(s, pos, init);
        lemma_parse_child(s, pos + enc_children(init).len(), cs.last());
        assert(init.push(cs.last()) =~= cs);
    } else {
        assert(cs =~= Seq::<ChildModel>::empty());
    }
}

proof fn lemma_decode_encode_leaf(level: u8, entries: Seq<EntryModel>)
    requires
        node_model_wf(NodeModel::Leaf { level, entries }),
    ensures
        decode_node_spec(enc_node(NodeModel::Leaf { level, entries })) == Some(
            NodeModel::Leaf { level, entries },
        ),
{
    let s = enc_node(NodeModel::Leaf { level, entries });
    lemma_holds_at_whole(s);
    let a = u32_le_bytes(0);
    let b = seq![level];
    let c = u64_le_bytes(entries.len() as u64);
    lemma_holds_at_split(s, 0, a + b + c, enc_entries(entries));
    lemma_holds_at_split(s, 0, a + b, c);
    lemma_holds_at_split(s, 0, a, b);
    lemma_parse_u32_le(s, 0, 0);
    lemma_holds_at_index(s, 4, b, 0);
    lemma_parse_u64_le(s, 5, entries.len() as u64);
    lemma_parse_entries(s, 13, entries);
}

proof fn lemma_decode_encode_internal(level: u8, children: Seq<ChildModel>)
    requires
        node_model_wf(NodeModel::Internal { level, children }),
    ensures
        decode_node_spec(enc_node(NodeModel::Internal { level, children })) == Some(
            NodeModel::Internal { level, children },
        ),
{
    let s = enc_node(NodeModel::Internal { level, children });
    lemma_holds_at_whole(s);
    let a = u32_le_bytes(1);
    let b = seq![level];
    let c = u64_le_bytes(children.len() as u64);
    lemma_holds_at_split(s, 0, a + b + c, enc_children(children));
    lemma_holds_at_split(s, 0, a + b, c);
    lemma_holds_at_split(s, 0, a, b);
    lemma_parse_u32_le(s, 0, 1);
    lemma_holds_at_index(s, 4, b, 0);
    lemma_parse_u64_le(s, 5, children.len() as u64);
    lemma_parse_children(s, 13, children);
}

/// Decoding gives back the node that was encoded.
pub proof fn lemma_decode_encode(n: NodeModel)
    requires
        node_model_wf(n),
    ensures
        decode_node_spec(enc_node(n)) == Some(n),
{
    match n {
        NodeModel::Leaf { level, entries } => lemma_decode_encode_leaf(level, entries),
        NodeModel::Internal { level, children } => lemma_decode_encode_internal(level, children),
    }
}

// ---------------- exec encoding ----------------

fn push_bytes(out: &mut Vec<u8>, b: &Vec<u8>)
    ensures
        final(out)@ == old(out)@ + enc_bytes(b@),
        len_fits(b@.len()),
{
    push_u64_le(out, b.len() as u64);
    push_all(out, b.as_slice());
    assert(out@ =~= old(out)@ + enc_bytes(b@));
}

fn push_hash(out: &mut Vec<u8>, h: &crate::common::Hash)
    ensures
        final(out)@ == old(out)@ + h@,
{
    push_all(out, h.as_slice());
}

fn push_value(out: &mut Vec<u8>, v: &ValueRepr)
    ensures
        final(out)@ == old(out)@ + enc_value(v@),
        value_wf(v@),
{
    match v {
        ValueRepr::Inline(b) => {
            push_u32_le(out, 0);
            push_bytes(out, b);
            assert(out@ =~= old(out)@ + enc_value(v@));
        },
        ValueRepr::Chunked(h) => {
            push_u32_le(out, 1);
            push_hash(out, h);
            assert(out@ =~= old(out)@ + enc_value(v@));
        },
        ValueRepr::ChunkedSequence { chunk_hashes, total_size } => {
            push_u32_le(out, 2);
            push_u64_le(out, chunk_hashes.len() as u64);
            let ghost mid = out@;
            assert forall|j: int| 0 <= j < chunk_hashes@.len() implies (#[trigger] hashes_view(chunk_hashes@)[j]).len() == 32 by {
                assert(chunk_hashes@[j]@.len() == 32);
            }
            let mut i: usize = 0;
            while i < chunk_hashes.len()
                invariant
                    i <= chunk_hashes@.len(),
                    out@ == mid + enc_hashes(hashes_view(chunk_hashes@).take(i as int)),
                    forall|j: int| 0 <= j < chunk_hashes@.len() ==> (#[trigger] hashes_view(chunk_hashes@)[j]).len() == 32,
                decreases chunk_hashes@.len() - i,
            {
                push_hash(out, &chunk_hashes[i]);
                i = i + 1;
                assert(hashes_view(chunk_hashes@).take(i as int).drop_last() =~= hashes_view(
                    chunk_hashes@,
                ).take(i - 1));
                assert(out@ =~= mid + enc_hashes(hashes_view(chunk_hashes@).take(i as int)));
            }
            assert(hashes_view(chunk_hashes@).take(i as int) =~= hashes_view(chunk_hashes@));
            push_u64_le(out, *total_size);
            assert(out@ =~= old(out)@ + enc_value(v@));
        },
    }
}

fn push_entry(out: &mut Vec<u8>, e: &LeafEntry)
    ensures
        final(out)@ == old(out)@ + enc_entry(e@),
        entry_wf(e@),
{
    push_bytes(out, &e.key);
    push_value(out, &e.value);
    assert(out@ =~= old(out)@ + enc_entry(e@));
}

fn push_child(out: &mut Vec<u8>, c: &InternalEntry)
    ensures
        final(out)@ == old(out)@ + enc_child(c@),
        child_wf(c@),
{
    push_bytes(out, &c.boundary_key);
    push_hash(out, &c.child_hash);
    push_u64_le(out, c.num_items_subtree);
    assert(out@ =~= old(out)@ + enc_child(c@));
}

/// The bytes of `n`.
pub fn encode_node(n: &Node) -> (r: Vec<u8>)
    ensures
        r@ == enc_node(n@),
        node_model_wf(n@),
{
    let mut out: Vec<u8> = Vec::new();
    match n {
        Node::Leaf { level, entries } => {
            push_u32_le(&mut out, 0);
            out.push(*level);
            push_u64_le(&mut out, entries.len() as u64);
            let ghost mid = out@;
            let mut i: usize = 0;
            while i < entries.len()
                invariant
                    i <= entries@.len(),
                    out@ == mid + enc_entries(entries_view(entries@).take(i as int)),
                    forall|j: int| 0 <= j < i ==> entry_wf(#[trigger] entries_view(entries@)[j]),
                decreases entries@.len() - i,
            {
                push_entry(&mut out, &entries[i]);
                i = i + 1;
                assert(entries_view(entries@).take(i as int).drop_last() =~= entries_view(
                    entries@,
                ).take(i - 1));
                assert(out@ =~= mid + enc_entries(entries_view(entries@).take(i as int)));
            }
            assert(entries_view(entries@).take(i as int) =~= entries_view(entries@));
            assert(out@ =~= enc_node(n@));
        },
        Node::Internal { level, children } => {
            push_u32_le(&mut out, 1);
            out.push(*level);
            push_u64_le(&mut out, children.len() as u64);
            let ghost mid = out@;
            let mut i: usize = 0;
            while i < children.len()
                invariant
                    i <= children@.len(),
                    out@ == mid + enc_children(children_view(children@).take(i as int)),
                    forall|j: int| 0 <= j < i ==> child_wf(#[trigger] children_view(children@)[j]),
                decreases children@.len() - i,
            {
                push_child(&mut out, &children[i]);
                i = i + 1;
                assert(children_view(children@).take(i as int).drop_last() =~= children_view(
                    children@,
                ).take(i - 1));
                assert(out@ =~= mid + enc_children(children_view(children@).take(i as int)));
            }
            assert(children_view(children@).take(i as int) =~= children_view(children@));
            assert(out@ =~= enc_node(n@));
        },
    }
    out
}

} // verus!

verus! {

// ---------------- exec decoding ----------------

fn read_bytes(s: &[u8], pos: usize) -> (r: Option<(Vec<u8>, usize)>)
    ensures
        match parse_bytes_at(s@, pos as int) {
            Some((b, p)) => (r matches Some((v, q)) && v@ == b && q == p),
            None => r is None,
        },
{
    match read_u64_le(s, pos) {
        Some((len, p)) => {
            if len > (s.len() - p) as u64 {
                return None;
            }
            let v = copy_range(s, p, len as usize);
            Some((v, p + len as usize))
        },
        None => None,
    }
}

fn read_hash(s: &[u8], pos: usize) -> (r: Option<(crate::common::Hash, usize)>)
    ensures
        match parse_hash_at(s@, pos as int) {
            Some((b, p)) => (r matches Some((h, q)) && h@ == b && q == p),
            None => r is None,
        },
{
    if s.len() < 32 || pos > s.len() - 32 {
        return None;
    }
    let mut h: crate::common::Hash = [0u8; 32];
    let mut i: usize = 0;
    while i < 32
        invariant
            i <= 32,
            pos + 32 <= s.len(),
            h@.len() == 32,
            forall|j: int| 0 <= j < i ==> h@[j] == s@[pos + j],
        decreases 32 - i,
    {
        h[i] = s[pos + i];
        i = i + 1;
    }
    assert(h@ =~= s@.subrange(pos as int, pos + 32));
    Some((h, pos + 32))
}

proof fn lemma_parse_hashes_stuck(s: Seq<u8>, pos: int, i: nat, n: nat)
    requires
        i < n,
        parse_hashes_at(s, pos, i) is Some,
        parse_hash_at(s, parse_hashes_at(s, pos, i).unwrap().1) is None,
    ensures
        parse_hashes_at(s, pos, n) is None,
    decreases n,
{
    if n - 1 > i {
        lemma_parse_hashes_stuck(s, pos, i, (n - 1) as nat);
    }
}

proof fn lemma_parse_entries_stuck(s: Seq<u8>, pos: int, i: nat, n: nat)
    requires
        i < n,
        parse_entries_at(s, pos, i) is Some,
        parse_entry_at(s, parse_entries_at(s, pos, i).unwrap().1) is None,
    ensures
        parse_entries_at(s, pos, n) is None,
    decreases n,
{
    if n - 1 > i {
        lemma_parse_entries_stuck(s, pos, i, (n - 1) as nat);
    }
}

proof fn lemma_parse_children_stuck(s: Seq<u8>, pos: int, i: nat, n: nat)
    requires
        i < n,
        parse_children_at(s, pos, i) is Some,
        parse_child_at(s, parse_children_at(s, pos, i).unwrap().1) is None,
    ensures
        parse_children_at(s, pos, n) is None,
    decreases n,
{
    if n - 1 > i {
        lemma_parse_children_stuck(s, pos, i, (n - 1) as nat);
    }
}

fn read_hashes(s: &[u8], pos: usize, n: u64) -> (r: Option<(Vec<crate::common::Hash>, usize)>)
    ensures
        match parse_hashes_at(s@, pos as int, n as nat) {
            Some((hs, p)) => (r matches Some((v, q)) && hashes_view(v@) == hs && q == p),
            None => r is None,
        },
{
    let mut out: Vec<crate::common::Hash> = Vec::new();
    let mut cur = pos;
    let mut i: u64 = 0;
    assert(hashes_view(out@) =~= Seq::<Seq<u8>>::empty());
    while i < n
        invariant
            i <= n,
            parse_hashes_at(s@, pos as int, i as nat) == Some((hashes_view(out@), cur as int)),
        decreases n - i,
    {
        match read_hash(s, cur) {
            Some((h, q)) => {
                let ghost prev = out@;
                out.push(h);
                cur = q;
                i = i + 1;
                assert(hashes_view(out@) =~= hashes_view(prev).push(h@));
            },
            None => {
                proof {
                    lemma_parse_hashes_stuck(s@, pos as int, i as nat, n as nat);
                }
                return None;
            },
        }
    }
    Some((out, cur))
}

fn read_value(s: &[u8], pos: usize) -> (r: Option<(ValueRepr, usize)>)
    ensures
        match parse_value_at(s@, pos as int) {
            Some((m, p)) => (r matches Some((v, q)) && v@ == m && q == p),
            None => r is None,
        },
{
    let (tag, p) = match read_u32_le(s, pos) {
        Some(x) => x,
        None => return None,
    };
    if tag == 0 {
        match read_bytes(s, p) {
            Some((b, q)) => Some((ValueRepr::Inline(b), q)),
            None => None,
        }
    } else if tag == 1 {
        match read_hash(s, p) {
            Some((h, q)) => Some((ValueRepr::Chunked(h), q)),
            None => None,
        }
    } else if tag == 2 {
        let (n, p1) = match read_u64_le(s, p) {
            Some(x) => x,
            None => return None,
        };
        let (hs, p2) = match read_hashes(s, p1, n) {
            Some(x) => x,
            None => return None,
        };
        match read_u64_le(s, p2) {
            Some((total, p3)) => Some(
                (ValueRepr::ChunkedSequence { chunk_hashes: hs, total_size: total }, p3),
            ),
            None => None,
        }
    } else {
        None
    }
}

fn read_entry(s: &[u8], pos: usize) -> (r: Option<(LeafEntry, usize)>)
    ensures
        match parse_entry_at(s@, pos as int) {
            Some((m, p)) => (r matches Some((e, q)) && e@ == m && q == p),
            None => r is None,
        },
{
    let (k, p) = match read_bytes(s, pos) {
        Some(x) => x,
        None => return None,
    };
    match read_value(s, p) {
        Some((v, q)) => Some((LeafEntry { key: k, value: v }, q)),
        None => None,
    }
}

fn read_child(s: &[u8], pos: usize) -> (r: Option<(InternalEntry, usize)>)
    ensures
        match parse_child_at(s@, pos as int) {
            Some((m, p)) => (r matches Some((c, q)) && c@ == m && q == p),
            None => r is None,
        },
{
    let (b, p) = match read_bytes(s, pos) {
        Some(x) => x,
        None => return None,
    };
    let (h, p1) = match read_hash(s, p) {
        Some(x) => x,
        None => return None,
    };
    match read_u64_le(s, p1) {
        Some((c, p2)) => Some(
            (InternalEntry { boundary_key: b, child_hash: h, num_items_subtree: c }, p2),
        ),
        None => None,
    }
}

fn read_entries(s: &[u8], pos: usize, n: u64) -> (r: Option<(Vec<LeafEntry>, usize)>)
    ensures
        match parse_entries_at(s@, pos as int, n as nat) {
            Some((es, p)) => (r matches Some((v, q)) && entries_view(v@) == es && q == p),
            None => r is None,
        },
{
    let mut out: Vec<LeafEntry> = Vec::new();
    let mut cur = pos;
    let mut i: u64 = 0;
    assert(entries_view(out@) =~= Seq::<EntryModel>::empty());
    while i < n
        invariant
            i <= n,
            parse_entries_at(s@, pos as int, i as nat) == Some((entries_view(out@), cur as int)),
        decreases n - i,
    {
        match read_entry(s, cur) {
            Some((e, q)) => {
                let ghost prev = out@;
                let ghost em = e@;
                out.push(e);
                cur = q;
                i = i + 1;
                assert(entries_view(out@) =~= entries_view(prev).push(em));
            },
            None => {
                proof {
                    lemma_parse_entries_stuck(s@, pos as int, i as nat, n as nat);
                }
                return None;
            },
        }
    }
    Some((out, cur))
}

fn read_children(s: &[u8], pos: usize, n: u64) -> (r: Option<(Vec<InternalEntry>, usize)>)
    ensures
        match parse_children_at(s@, pos as int, n as nat) {
            Some((cs, p)) => (r matches Some((v, q)) && children_view(v@) == cs && q == p),
            None => r is None,
        },
{
    let mut out: Vec<InternalEntry> = Vec::new();
    let mut cur = pos;
    let mut i: u64 = 0;
    assert(children_view(out@) =~= Seq::<ChildModel>::empty());
    while i < n
        invariant
            i <= n,
            parse_children_at(s@, pos as int, i as nat) == Some((children_view(out@), cur as int)),
        decreases n - i,
    {
        match read_child(s, cur) {
            Some((c, q)) => {
                let ghost prev = out@;
                let ghost cm = c@;
                out.push(c);
                cur = q;
                i = i + 1;
                assert(children_view(out@) =~= children_view(prev).push(cm));
            },
            None => {
                proof {
                    lemma_parse_children_stuck(s@, pos as int, i as nat, n as nat);
                }
                return None;
            },
        }
    }
    Some((out, cur))
}

/// Decodes a node from the front of `s`.
pub fn decode_node(s: &[u8]) -> (r: Option<Node>)
    ensures
        match decode_node_spec(s@) {
            Some(m) => (r matches Some(n) && n@ == m),
            None => r is None,
        },
{
    let (tag, p) = match read_u32_le(s, 0) {
        Some(x) => x,
        None => return None,
    };
    if p >= s.len() || !(tag == 0 || tag == 1) {
        return None;
    }
    let level = s[p];
    let (n, p1) = match read_u64_le(s, p + 1) {
        Some(x) => x,
        None => return None,
    };
    if tag == 0 {
        match read_entries(s, p1, n) {
            Some((es, _)) => Some(Node::Leaf { level, entries: es }),
            None => None,
        }
    } else {
        match read_children(s, p1, n) {
            Some((cs, _)) => Some(Node::Internal { level, children: cs }),
            None => None,
        }
    }
}

impl Node {
    /// The node's bytes. Never fails.
    pub fn encode(&self) -> (r: Result<Vec<u8>>)
        ensures
            r matches Ok(b) && b@ == enc_node(self@),
            node_model_wf(self@),
    {
        Ok(encode_node(self))
    }

    /// Decodes a node; fails exactly when the bytes do not start with a node.
    pub fn decode(bytes: &[u8]) -> (r: Result<Node>)
        ensures
            match decode_node_spec(bytes@) {
                Some(m) => (r matches Ok(n) && n@ == m),
                None => r matches Err(ProllyError::NodeDeserialization(_)),
            },
    {
        match decode_node(bytes) {
            Some(n) => Ok(n),
            None => Err(ProllyError::NodeDeserialization("failed to decode node".to_string())),
        }
    }
}

} // verus!
