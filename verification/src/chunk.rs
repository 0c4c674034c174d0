//! Blake3 hashing and the encoding of a node into one chunk.
use vstd::prelude::*;

verus! {

/// The Blake3 digest of a byte string.
pub uninterp spec fn spec_blake3(bytes: Seq<u8>) -> Seq<u8>;

/// Blake3 digest of `bytes`, through `blake3::Hasher`
/// (`new`, `update`, `finalize`). The contract claims only that the
/// 32 bytes returned are the Blake3 digest of the input, a function of the
/// input alone.
#[verifier::external_body]
pub fn hash_bytes(bytes: &[u8]) -> (h: crate::common::Hash)
    ensures
        h@ == spec_blake3(bytes@),
{
    blake3::Hasher::new().update(bytes).finalize().into()
}

/// A node's chunk: the hash of its encoding, and the encoding.
pub fn chunk_node(node: &crate::node::definition::Node) -> (r: (crate::common::Hash, Vec<u8>))
    ensures
        r.1@ == crate::node::encoding::enc_node(node@),
        r.0@ == spec_blake3(r.1@),
{
    let encoded = crate::node::encoding::encode_node(node);
    (hash_bytes(encoded.as_slice()), encoded)
}

} // verus!
