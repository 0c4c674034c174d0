//! Storing and loading nodes and values.
use vstd::prelude::*;
use crate::chunk::hash_bytes;
use crate::common::TreeConfig;
use crate::error::{ProllyError, Result};
use crate::node::definition::{Node, NodeModel, ValueModel, ValueRepr};
use crate::node::encoding::lemma_decode_encode;
use crate::store::ChunkStore;
use super::model::node_at;

verus! {

/// The last key of a nonempty node.
pub open spec fn node_last_key(n: NodeModel) -> Seq<u8> {
    match n {
        NodeModel::Leaf { entries, .. } => entries.last().key,
        NodeModel::Internal { children, .. } => children.last().boundary,
    }
}

/// The store only gained chunks, and kept its invariant.
pub open spec fn store_grew(c1: Map<Seq<u8>, Seq<u8>>, c2: Map<Seq<u8>, Seq<u8>>) -> bool {
    c1.submap_of(c2)
}

/// Loads and decodes the node stored under `hash`.
pub fn load_node<S: ChunkStore>(store: &S, hash: &crate::common::Hash) -> (r: Result<Node>)
    requires
        store.inv(),
    ensures
        r matches Ok(n) ==> node_at(store.chunks(), hash@) == Some(n@),
        !store.chunks().contains_key(hash@) ==> r is Err,
        store.reliable() && node_at(store.chunks(), hash@) is Some ==> r is Ok,
        store.reliable() && !store.chunks().contains_key(hash@) ==> (r matches Err(
            ProllyError::ChunkNotFound(h),
        ) && h == *hash),
        store.reliable() && store.chunks().contains_key(hash@) && node_at(store.chunks(), hash@) is None
            ==> r matches Err(ProllyError::NodeDeserialization(_)),
{
    match store.get(hash) {
        Ok(Some(bytes)) => Node::decode(bytes.as_slice()),
        Ok(None) => Err(ProllyError::ChunkNotFound(*hash)),
        Err(e) => Err(e),
    }
}

/// Stores a node and returns its last key and hash. The node is stored
/// before its emptiness is checked, as an empty node has no last key.
pub fn store_node_and_get_key_hash_pair<S: ChunkStore>(store: &mut S, node: &Node) -> (r: Result<
    (Vec<u8>, crate::common::Hash),
>)
    requires
        old(store).inv(),
    ensures
        final(store).inv(),
        store_grew(old(store).chunks(), final(store).chunks()),
        r matches Ok((k, h)) ==> {
            &&& node_at(final(store).chunks(), h@) == Some(node@)
            &&& node@.num_entries() > 0
            &&& k@ == node_last_key(node@)
        },
        r is Err ==> node@.num_entries() == 0 || final(store).chunks() == old(store).chunks(),
    final(store).refusals() >= old(store).refusals(),
    final(store).reliable() == old(store).reliable(),
    old(store).reliable() && r is Err ==> final(store).refusals() > old(store).refusals() || node@.num_entries() == 0,
{
    let bytes = match node.encode() {
        Ok(b) => b,
        Err(e) => return Err(e),
    };
    let ghost enc = bytes@;
    let hash = match store.put(bytes) {
        Ok(h) => h,
        Err(e) => return Err(e),
    };
    proof {
        assert(old(store).chunks().submap_of(store.chunks()));
        lemma_decode_encode(node@);
    }
    match node {
        Node::Leaf { entries, .. } => {
            if entries.len() == 0 {
                return Err(
                    ProllyError::InternalError(
                        "Attempted to get boundary key from empty or invalid node".to_string(),
                    ),
                );
            }
            Ok((entries[entries.len() - 1].key.clone(), hash))
        },
        Node::Internal { children, .. } => {
            if children.len() == 0 {
                return Err(
                    ProllyError::InternalError(
                        "Attempted to get boundary key from empty or invalid node".to_string(),
                    ),
                );
            }
            Ok((children[children.len() - 1].boundary_key.clone(), hash))
        },
    }
}

/// The bytes of the chunks `hs`, concatenated; `None` if one is missing.
pub open spec fn concat_chunks(chunks: Map<Seq<u8>, Seq<u8>>, hs: Seq<Seq<u8>>) -> Option<Seq<u8>>
    decreases hs.len(),
{
    if hs.len() == 0 {
        Some(Seq::empty())
    } else {
        match concat_chunks(chunks, hs.drop_last()) {
            Some(a) => if chunks.contains_key(hs.last()) {
                Some(a + chunks[hs.last()])
            } else {
                None
            },
            None => None,
        }
    }
}

/// The bytes a stored value stands for; `None` if a chunk is missing.
pub open spec fn resolve_value(chunks: Map<Seq<u8>, Seq<u8>>, v: ValueModel) -> Option<Seq<u8>> {
    match v {
        ValueModel::Inline(b) => Some(b),
        ValueModel::Chunked(h) => if chunks.contains_key(h) {
            Some(chunks[h])
        } else {
            None
        },
        ValueModel::ChunkedSequence { hashes, .. } => concat_chunks(chunks, hashes),
    }
}

pub proof fn lemma_concat_chunks_mono(
    c1: Map<Seq<u8>, Seq<u8>>,
    c2: Map<Seq<u8>, Seq<u8>>,
    hs: Seq<Seq<u8>>,
)
    requires
        c1.submap_of(c2),
        concat_chunks(c1, hs) is Some,
    ensures
        concat_chunks(c2, hs) == concat_chunks(c1, hs),
    decreases hs.len(),
{
    if hs.len() > 0 {
        lemma_concat_chunks_mono(c1, c2, hs.drop_last());
    }
}

/// A value that resolves keeps resolving to the same bytes as the store grows.
pub proof fn lemma_resolve_mono(c1: Map<Seq<u8>, Seq<u8>>, c2: Map<Seq<u8>, Seq<u8>>, v: ValueModel)
    requires
        c1.submap_of(c2),
        resolve_value(c1, v) is Some,
    ensures
        resolve_value(c2, v) == resolve_value(c1, v),
{
    match v {
        ValueModel::ChunkedSequence { hashes, .. } => lemma_concat_chunks_mono(c1, c2, hashes),
        _ => {},
    }
}

/// Reads the bytes a stored value stands for.
pub fn load_value_repr<S: ChunkStore>(store: &S, value_repr: &ValueRepr) -> (r: Result<Vec<u8>>)
    requires
        store.inv(),
    ensures
        r matches Ok(b) ==> resolve_value(store.chunks(), value_repr@) == Some(b@),
        resolve_value(store.chunks(), value_repr@) is None ==> r is Err,
        store.reliable() && resolve_value(store.chunks(), value_repr@) is Some ==> r is Ok,
{
    match value_repr {
        ValueRepr::Inline(val) => Ok(val.clone()),
        ValueRepr::Chunked(data_hash) => match store.get(data_hash) {
            Ok(Some(b)) => Ok(b),
            Ok(None) => Err(ProllyError::ChunkNotFound(*data_hash)),
            Err(e) => Err(e),
        },
        ValueRepr::ChunkedSequence { chunk_hashes, total_size } => {
            let ghost hs = crate::node::definition::hashes_view(chunk_hashes@);
            let mut out: Vec<u8> = Vec::new();
            let mut i: usize = 0;
            while i < chunk_hashes.len()
                invariant
                    store.inv(),
                    i <= chunk_hashes@.len(),
                    hs == crate::node::definition::hashes_view(chunk_hashes@),
                    concat_chunks(store.chunks(), hs.take(i as int)) == Some(out@),
                    resolve_value(store.chunks(), value_repr@) == concat_chunks(store.chunks(), hs),
                decreases chunk_hashes@.len() - i,
            {
                let h = &chunk_hashes[i];
                assert(hs.take(i + 1).drop_last() =~= hs.take(i as int));
                assert(hs.take(i + 1).last() == h@);
                match store.get(h) {
                    Ok(Some(b)) => {
                        crate::codec::push_all(&mut out, b.as_slice());
                    },
                    Ok(None) => {
                        proof {
                            lemma_concat_chunks_missing(store.chunks(), hs, i as int);
                        }
                        return Err(ProllyError::ChunkNotFound(*h));
                    },
                    Err(e) => return Err(e),
                }
                i = i + 1;
            }
            assert(hs.take(i as int) =~= hs);
            Ok(out)
        },
    }
}

proof fn lemma_concat_chunks_missing(chunks: Map<Seq<u8>, Seq<u8>>, hs: Seq<Seq<u8>>, i: int)
    requires
        0 <= i < hs.len(),
        !chunks.contains_key(hs[i]),
    ensures
        concat_chunks(chunks, hs) is None,
    decreases hs.len(),
{
    if i < hs.len() - 1 {
        assert(hs.drop_last()[i] == hs[i]);
        lemma_concat_chunks_missing(chunks, hs.drop_last(), i);
    }
}

} // verus!

verus! {

/// The chunks (offset, length) that fastcdc's 2020 chunker cuts `data` into.
pub uninterp spec fn spec_fastcdc_v2020(data: Seq<u8>, min_size: u32, avg_size: u32, max_size: u32) -> Seq<(usize, usize)>;

/// Total length of the chunks.
pub open spec fn sum_lens(cuts: Seq<(usize, usize)>) -> nat
    decreases cuts.len(),
{
    if cuts.len() == 0 {
        0
    } else {
        sum_lens(cuts.drop_last()) + cuts.last().1 as nat
    }
}

/// The chunks follow each other without gap from offset 0, none is empty,
/// and together they cover `len` bytes.
pub open spec fn cuts_partition(cuts: Seq<(usize, usize)>, len: nat) -> bool {
    &&& forall|i: int|
        0 <= i < cuts.len() ==> (#[trigger] cuts[i]).0 == sum_lens(cuts.take(i)) && cuts[i].1 > 0
    &&& sum_lens(cuts) == len
}

/// Cuts `data` with `fastcdc::v2020::FastCDC::new(data, min, avg, max)`
/// and returns each chunk's offset and length. The contract names the
/// result and claims what the iterator's `next` shows in its source: each
/// chunk starts where the one before ended, the first at 0, every chunk is
/// nonempty, and the chunks reach the end of the data. The size limits are
/// the ones `FastCDC::new` asserts, and the average may not exceed the
/// maximum: otherwise the cutting reads past the end of data whose length
/// lies between the two.
#[verifier::external_body]
fn fastcdc_cut_points(data: &[u8], min_size: u32, avg_size: u32, max_size: u32) -> (r: Vec<(usize, usize)>)
    requires
        64 <= min_size <= 1_048_576,
        256 <= avg_size <= 4_194_304,
        1024 <= max_size <= 16_777_216,
        avg_size <= max_size,
    ensures
        r@ == spec_fastcdc_v2020(data@, min_size, avg_size, max_size),
        cuts_partition(r@, data@.len()),
{
    fastcdc::v2020::FastCDC::new(data, min_size, avg_size, max_size).map(|c| (c.offset, c.length)).collect()
}

proof fn lemma_sum_lens_take(cuts: Seq<(usize, usize)>, i: int)
    requires
        0 <= i < cuts.len(),
    ensures
        sum_lens(cuts.take(i + 1)) == sum_lens(cuts.take(i)) + cuts[i].1,
        sum_lens(cuts.take(i + 1)) <= sum_lens(cuts),
    decreases cuts.len(),
{
    assert(cuts.take(i + 1).drop_last() =~= cuts.take(i));
    if i + 1 < cuts.len() {
        lemma_sum_lens_take(cuts.drop_last(), i);
        assert(cuts.drop_last().take(i + 1) =~= cuts.take(i + 1));
    } else {
        assert(cuts.take(i + 1) =~= cuts);
    }
}

/// The cuts fastcdc makes in `value` with the tree's chunking settings.
pub open spec fn config_cuts(config: TreeConfig, value: Seq<u8>) -> Seq<(usize, usize)> {
    spec_fastcdc_v2020(value, config.cdc_min_size as u32, config.cdc_avg_size as u32, config.cdc_max_size as u32)
}

/// The Blake3 digests of the slices of `value` at the given cuts.
pub open spec fn cut_hashes(value: Seq<u8>, cuts: Seq<(usize, usize)>) -> Seq<Seq<u8>> {
    cuts.map_values(|c: (usize, usize)| crate::chunk::spec_blake3(value.subrange(c.0 as int, c.0 + c.1)))
}

/// The representation of a value longer than the inline limit: one chunk
/// per fastcdc cut, each named by the Blake3 digest of its slice; a single
/// chunk is stored as `Chunked`.
pub open spec fn chunked_repr_ok(config: TreeConfig, value: Seq<u8>, v: ValueModel) -> bool {
    let cuts = config_cuts(config, value);
    match v {
        ValueModel::Inline(_) => cuts.len() == 0,
        ValueModel::Chunked(h) => cuts.len() == 1 && h == cut_hashes(value, cuts)[0],
        ValueModel::ChunkedSequence { hashes, total_size } => cuts.len() > 1 && hashes == cut_hashes(value, cuts)
            && total_size == value.len(),
    }
}

/// How a value is stored: inline when short, else as content-defined chunks
/// written to the store.
pub fn prepare_value_repr<S: ChunkStore>(store: &mut S, config: &TreeConfig, value: Vec<u8>) -> (r: Result<ValueRepr>)
    requires
        old(store).inv(),
        value@.len() <= config.max_inline_value_size || config.cdc_valid(),
    ensures
        final(store).inv(),
        store_grew(old(store).chunks(), final(store).chunks()),
        r matches Ok(v) ==> resolve_value(final(store).chunks(), v@) == Some(value@),
        value@.len() <= config.max_inline_value_size ==> r == Ok::<ValueRepr, ProllyError>(ValueRepr::Inline(value)),
        value@.len() > config.max_inline_value_size ==> (r matches Ok(v) ==> chunked_repr_ok(*config, value@, v@)),
    final(store).refusals() >= old(store).refusals(),
    final(store).reliable() == old(store).reliable(),
    old(store).reliable() && r is Err ==> final(store).refusals() > old(store).refusals() || false,
{
    if value.len() <= config.max_inline_value_size {
        return Ok(ValueRepr::Inline(value));
    }
    let cuts = fastcdc_cut_points(
        value.as_slice(),
        config.cdc_min_size as u32,
        config.cdc_avg_size as u32,
        config.cdc_max_size as u32,
    );
    let mut chunk_hashes: Vec<crate::common::Hash> = Vec::new();
    let total_size = value.len() as u64;
    let mut i: usize = 0;
    assert(crate::node::definition::hashes_view(chunk_hashes@) =~= Seq::<Seq<u8>>::empty());
    assert(value@.subrange(0, 0) =~= Seq::<u8>::empty());
    while i < cuts.len()
        invariant
            store.inv(),
            store_grew(old(store).chunks(), store.chunks()),
            value@.len() > config.max_inline_value_size,
            i <= cuts@.len(),
            cuts_partition(cuts@, value@.len()),
            sum_lens(cuts@.take(i as int)) <= value@.len(),
            concat_chunks(store.chunks(), crate::node::definition::hashes_view(chunk_hashes@))
                == Some(value@.subrange(0, sum_lens(cuts@.take(i as int)) as int)),
            chunk_hashes@.len() == i,
            store.refusals() == old(store).refusals(),
            store.reliable() == old(store).reliable(),
            cuts@ == config_cuts(*config, value@),
            crate::node::definition::hashes_view(chunk_hashes@) == cut_hashes(value@, cuts@.take(i as int)),
        decreases cuts@.len() - i,
    {
        let (offset, length) = cuts[i];
        proof {
            lemma_sum_lens_take(cuts@, i as int);
            assert(cuts@[i as int].0 == sum_lens(cuts@.take(i as int)));
        }
        let chunk_data = crate::codec::copy_range(value.as_slice(), offset, length);
        let chunk_hash = hash_bytes(chunk_data.as_slice());
        let ghost before = store.chunks();
        let ghost hv = crate::node::definition::hashes_view(chunk_hashes@);
        let ghost cd = chunk_data@;
        match store.put(chunk_data) {
            Ok(_) => {},
            Err(e) => return Err(e),
        }
        let ghost prev_hashes = chunk_hashes@;
        chunk_hashes.push(chunk_hash);
        proof {
            assert(before.submap_of(store.chunks()));
            assert(old(store).chunks().submap_of(store.chunks())) by {
                assert forall|k| old(store).chunks().contains_key(k) implies store.chunks().contains_key(k)
                    && store.chunks()[k] == old(store).chunks()[k] by {
                    assert(before.contains_key(k));
                }
            }
            lemma_concat_chunks_mono(before, store.chunks(), hv);
            let nv = crate::node::definition::hashes_view(chunk_hashes@);
            assert(nv.drop_last() =~= hv);
            let ch = cut_hashes(value@, cuts@.take(i + 1));
            assert(cuts@.take(i + 1)[i as int] == (offset, length));
            assert(cd == value@.subrange(offset as int, offset + length));
            assert(ch[i as int] == crate::chunk::spec_blake3(cd));
            assert forall|j: int| 0 <= j < nv.len() implies nv[j] == ch[j] by {
                if j < i {
                    assert(nv[j] == hv[j]);
                    assert(cuts@.take(i + 1)[j] == cuts@.take(i as int)[j]);
                }
            }
            assert(nv =~= ch);
            assert(nv.last() == chunk_hash@);
            assert(store.chunks()[chunk_hash@] == cd);
            assert(value@.subrange(0, sum_lens(cuts@.take(i + 1)) as int) =~= value@.subrange(
                0,
                sum_lens(cuts@.take(i as int)) as int,
            ) + cd);
        }
        i = i + 1;
    }
    assert(cuts@.take(i as int) =~= cuts@);
    assert(value@.subrange(0, value@.len() as int) =~= value@);
    assert(crate::node::definition::hashes_view(chunk_hashes@) == cut_hashes(value@, cuts@));
    if chunk_hashes.len() == 0 {
        return Ok(ValueRepr::Inline(value));
    } else if chunk_hashes.len() == 1 {
        let h = chunk_hashes[0];
        proof {
            let hv = crate::node::definition::hashes_view(chunk_hashes@);
            assert(hv.drop_last() =~= Seq::<Seq<u8>>::empty());
            assert(concat_chunks(store.chunks(), hv.drop_last()) == Some(Seq::<u8>::empty()));
            assert(hv.last() == h@);
            assert(Seq::<u8>::empty() + store.chunks()[h@] =~= store.chunks()[h@]);
        }
        return Ok(ValueRepr::Chunked(h));
    }
    Ok(ValueRepr::ChunkedSequence { chunk_hashes, total_size })
}

} // verus!
