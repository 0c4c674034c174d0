//! Writing a tree's chunks and metadata into one version-2 file, and
//! reading them back. The metadata travels as JSON bytes, which the caller
//! produces and parses.
use vstd::prelude::*;
use crate::codec::{
    lemma_holds_at_compose, lemma_holds_at_index, lemma_holds_at_split, lemma_holds_at_whole, push_all,
    push_u32_be, u32_be_bytes, u64_be_bytes,
};

use crate::error::{ProllyError, Result};
use crate::keys::{lex_lt, compare_keys, KeyOrder};
use super::format_v2::{
    calculate_blake3_hash, calculate_crc32, envelope_bytes, file_signature_spec, index_entry_bytes,
    reversed_signature_v2, spec_crc32, ChunkIndexEntryV2, ContentBlockEnvelope, EofBlockV2,
    FileHeaderV2, TAG_CHUNK_INDEX_BLOCK, TAG_EOF_BLOCK, TAG_METADATA_BLOCK,
};

verus! {

/// The chunks as byte strings.
pub open spec fn chunk_pairs(chunks: Seq<(crate::common::Hash, Vec<u8>)>) -> Seq<(Seq<u8>, Seq<u8>)> {
    chunks.map_values(|c: (crate::common::Hash, Vec<u8>)| (c.0@, c.1@))
}

/// The chunks' bytes, one after the other.
pub open spec fn chunk_data(chunks: Seq<(crate::common::Hash, Vec<u8>)>) -> Seq<u8>
    decreases chunks.len(),
{
    if chunks.len() == 0 {
        Seq::empty()
    } else {
        chunk_data(chunks.drop_last()) + chunks.last().1@
    }
}

/// The index entry of chunk `i`: its hash, where its bytes start in the
/// file (after the 42-byte header and the chunks before it) and its length.
pub open spec fn unsorted_entry(chunks: Seq<(crate::common::Hash, Vec<u8>)>, i: int) -> ChunkIndexEntryV2 {
    ChunkIndexEntryV2 {
        hash: chunks[i].0,
        offset: (42 + chunk_data(chunks.take(i)).len()) as u64,
        length: chunks[i].1@.len() as u32,
        chunk_type_flags: 0,
    }
}

/// The index entries in the chunks' order.
pub open spec fn unsorted_index(chunks: Seq<(crate::common::Hash, Vec<u8>)>) -> Seq<ChunkIndexEntryV2> {
    Seq::new(chunks.len(), |i: int| unsorted_entry(chunks, i))
}

/// Hashes strictly increase along the entries.
pub open spec fn index_sorted(es: Seq<ChunkIndexEntryV2>) -> bool {
    forall|i: int, j: int| 0 <= i < j < es.len() ==> lex_lt(es[i].hash@, es[j].hash@)
}

/// The entries, sorted by hash.
pub open spec fn sorted_index(chunks: Seq<(crate::common::Hash, Vec<u8>)>) -> Seq<ChunkIndexEntryV2> {
    choose|s: Seq<ChunkIndexEntryV2>|
        index_sorted(s) && s.to_multiset() == unsorted_index(chunks).to_multiset()
}

/// The bytes of a list of index entries.
pub open spec fn entries_bytes(es: Seq<ChunkIndexEntryV2>) -> Seq<u8>
    decreases es.len(),
{
    if es.len() == 0 {
        Seq::empty()
    } else {
        entries_bytes(es.drop_last()) + index_entry_bytes(es.last())
    }
}

/// The content of the chunk index block: the number of entries, then the entries.
pub open spec fn index_content(es: Seq<ChunkIndexEntryV2>) -> Seq<u8> {
    u32_be_bytes(es.len() as u32) + entries_bytes(es)
}

/// No two chunks have the same hash.
pub open spec fn distinct_hashes(chunks: Seq<(crate::common::Hash, Vec<u8>)>) -> bool {
    forall|i: int, j: int| 0 <= i < j < chunks.len() ==> chunks[i].0@ != chunks[j].0@
}

/// The size of the file written for `chunks` and `json`.
pub open spec fn file_v2_size(chunks: Seq<(crate::common::Hash, Vec<u8>)>, json: Seq<u8>) -> int {
    (42 + chunk_data(chunks).len() + 9 + 4 + 45 * chunks.len() + 9 + json.len() + 57) as int
}

/// The header of a file whose metadata block, chunk index block and end
/// block begin at `om`, `oi` and `oe`.
pub open spec fn header_v2_bytes(om: int, oi: int, oe: int) -> Seq<u8> {
    file_signature_spec() + seq![2u8, 0u8] + u64_be_bytes(om as u64) + u64_be_bytes(oi as u64)
        + u64_be_bytes(oe as u64) + seq![0u8, 0u8, 0u8, 0u8, 0u8, 0u8, 0u8, 0u8]
}

/// A content block: tag, length, CRC32, content.
pub open spec fn block_v2_bytes(tag: u8, content: Seq<u8>) -> Seq<u8> {
    seq![tag] + u32_be_bytes(content.len() as u32) + u32_be_bytes(spec_crc32(content)) + content
}

/// An end block after `pre`.
pub open spec fn eof_v2_bytes(om: int, oi: int, pre: Seq<u8>) -> Seq<u8> {
    seq![TAG_EOF_BLOCK] + u64_be_bytes(om as u64) + u64_be_bytes(oi as u64) + file_signature_spec().reverse()
        + crate::chunk::spec_blake3(pre)
}

/// What a file holds up to its end block.
#[verifier::opaque]
pub open spec fn file_v2_prefix(chunks: Seq<(crate::common::Hash, Vec<u8>)>, json: Seq<u8>) -> Seq<u8> {
    let data = chunk_data(chunks);
    let idx = index_content(sorted_index(chunks));
    let off_idx: int = 42 + data.len() as int;
    let off_meta: int = off_idx + 9 + idx.len();
    let off_eof: int = off_meta + 9 + json.len();
    header_v2_bytes(off_meta, off_idx, off_eof) + data + block_v2_bytes(TAG_CHUNK_INDEX_BLOCK, idx)
        + block_v2_bytes(TAG_METADATA_BLOCK, json)
}

/// The file written for `chunks` and `json`: the header (signature,
/// version 2, the offsets of the metadata block, the chunk index block and
/// the end block, reserved zeros), the chunks' bytes in their order, the
/// chunk index block (entries sorted by hash), the metadata block, then
/// the end block with the offsets and the reversed signature repeated and
/// the Blake3 digest of everything before it.
#[verifier::opaque]
pub open spec fn file_v2_bytes(chunks: Seq<(crate::common::Hash, Vec<u8>)>, json: Seq<u8>) -> Seq<u8> {
    let data = chunk_data(chunks);
    let idx = index_content(sorted_index(chunks));
    let off_idx: int = 42 + data.len() as int;
    let off_meta: int = off_idx + 9 + idx.len();
    let pre = file_v2_prefix(chunks, json);
    pre + eof_v2_bytes(off_meta, off_idx, pre)
}

/// The sizes the format can record: each chunk and the metadata fit a
/// `u32` length, the index fits a `u32` length, the file fits memory.
pub open spec fn fits_v2(chunks: Seq<(crate::common::Hash, Vec<u8>)>, json: Seq<u8>) -> bool {
    &&& forall|i: int| 0 <= i < chunks.len() ==> (#[trigger] chunks[i]).1@.len() <= u32::MAX
    &&& 4 + 45 * chunks.len() <= u32::MAX
    &&& json.len() <= u32::MAX
    &&& file_v2_size(chunks, json) <= usize::MAX
}

/// Whether the hash `a` is below the hash `b`.
fn hash_lt(a: &crate::common::Hash, b: &crate::common::Hash) -> (r: bool)
    ensures
        r == lex_lt(a@, b@),
{
    match compare_keys(a.as_slice(), b.as_slice()) {
        KeyOrder::Less => true,
        _ => false,
    }
}

/// A copy of an index entry.
fn copy_entry(e: &ChunkIndexEntryV2) -> (r: ChunkIndexEntryV2)
    ensures
        r == *e,
{
    ChunkIndexEntryV2 { hash: e.hash, offset: e.offset, length: e.length, chunk_type_flags: e.chunk_type_flags }
}

/// The entries sorted by hash. The hashes must be distinct.
fn sort_index_entries(entries: &Vec<ChunkIndexEntryV2>) -> (r: Vec<ChunkIndexEntryV2>)
    requires
        forall|i: int, j: int| 0 <= i < j < entries@.len() ==> entries@[i].hash@ != entries@[j].hash@,
    ensures
        index_sorted(r@),
        r@.to_multiset() == entries@.to_multiset(),
{
    let mut out: Vec<ChunkIndexEntryV2> = Vec::new();
    let mut i: usize = 0;
    assert(out@ =~= entries@.take(0));
    while i < entries.len()
        invariant
            i <= entries@.len(),
            forall|a: int, b: int| 0 <= a < b < entries@.len() ==> entries@[a].hash@ != entries@[b].hash@,
            index_sorted(out@),
            out@.to_multiset() == entries@.take(i as int).to_multiset(),
        decreases entries@.len() - i,
    {
        let e = copy_entry(&entries[i]);
        let mut k: usize = 0;
        while k < out.len() && !hash_lt(&e.hash, &out[k].hash)
            invariant
                k <= out@.len(),
                forall|j: int| 0 <= j < k ==> !lex_lt(e.hash@, #[trigger] out@[j].hash@),
            decreases out@.len() - k,
        {
            k = k + 1;
        }
        proof {
            assert forall|j: int| 0 <= j < out@.len() implies (#[trigger] out@[j]).hash@ != e.hash@ by {
                out@.to_multiset_ensures();
                entries@.take(i as int).to_multiset_ensures();
                assert(out@.contains(out@[j]));
                assert(out@.to_multiset().count(out@[j]) > 0);
                assert(entries@.take(i as int).contains(out@[j]));
                let a = choose|a: int| 0 <= a < i && entries@.take(i as int)[a] == out@[j];
                assert(entries@[a] == out@[j]);
            }
            assert forall|j: int| 0 <= j < k implies lex_lt((#[trigger] out@[j]).hash@, e.hash@) by {
                crate::keys::lemma_lex_trichotomy(out@[j].hash@, e.hash@);
            }
            if k < out@.len() {
                assert forall|j: int| k <= j < out@.len() implies lex_lt(e.hash@, (#[trigger] out@[j]).hash@) by {
                    if j > k {
                        crate::keys::lemma_lex_lt_transitive(e.hash@, out@[k as int].hash@, out@[j].hash@);
                    }
                }
            }
        }
        let ghost before = out@;
        out.insert(k, e);
        proof {
            assert(out@ == before.insert(k as int, e));
            assert forall|a: int, b: int| 0 <= a < b < out@.len() implies lex_lt(out@[a].hash@, out@[b].hash@) by {
                if a < k && b < k {
                } else if a < k && b == k {
                } else if a < k {
                    assert(out@[b] == before[b - 1]);
                    crate::keys::lemma_lex_lt_transitive(out@[a].hash@, e.hash@, out@[b].hash@);
                } else if a == k {
                    assert(out@[b] == before[b - 1]);
                } else {
                    assert(out@[a] == before[a - 1]);
                    assert(out@[b] == before[b - 1]);
                }
            }
            vstd::seq_lib::to_multiset_insert(before, k as int, e);
            assert(entries@.take(i + 1) =~= entries@.take(i as int).push(entries@[i as int]));
            entries@.take(i as int).to_multiset_ensures();
            assert(entries@.take(i as int).push(entries@[i as int]).to_multiset() =~= entries@.take(
                i as int,
            ).to_multiset().insert(entries@[i as int]));
        }
        i = i + 1;
    }
    proof {
        assert(entries@.take(i as int) =~= entries@);
    }
    out
}

/// Two lists of entries with strictly increasing hashes that hold the same
/// entries are the same list.
pub proof fn lemma_sorted_index_unique(s: Seq<ChunkIndexEntryV2>, t: Seq<ChunkIndexEntryV2>)
    requires
        index_sorted(s),
        index_sorted(t),
        s.to_multiset() == t.to_multiset(),
    ensures
        s == t,
    decreases s.len(),
{
    s.to_multiset_ensures();
    t.to_multiset_ensures();
    if s.len() == 0 {
        assert(t.len() == 0);
        assert(s =~= t);
    } else {
        assert(t.len() == s.len());
        assert(s.contains(s[0]));
        assert(s.to_multiset().count(s[0]) > 0);
        assert(t.to_multiset().count(s[0]) > 0);
        assert(t.contains(s[0]));
        let j = choose|j: int| 0 <= j < t.len() && t[j] == s[0];
        assert(t.contains(t[0]));
        assert(t.to_multiset().count(t[0]) > 0);
        assert(s.to_multiset().count(t[0]) > 0);
        assert(s.contains(t[0]));
        let i = choose|i: int| 0 <= i < s.len() && s[i] == t[0];
        if j > 0 {
            assert(lex_lt(t[0].hash@, t[j].hash@));
            if i > 0 {
                assert(lex_lt(s[0].hash@, s[i].hash@));
                crate::keys::lemma_lex_lt_asymmetric(s[0].hash@, s[i].hash@);
            } else {
                crate::keys::lemma_lex_lt_irreflexive(t[0].hash@);
            }
        }
        assert(s[0] == t[0]);
        let s1 = s.drop_first();
        let t1 = t.drop_first();
        assert(s.remove(0) =~= s1);
        assert(t.remove(0) =~= t1);
        assert(s1.to_multiset() == s.to_multiset().remove(s[0]));
        assert(t1.to_multiset() == t.to_multiset().remove(t[0]));
        assert forall|a: int, b: int| 0 <= a < b < s1.len() implies lex_lt(s1[a].hash@, s1[b].hash@) by {
            assert(s1[a] == s[a + 1] && s1[b] == s[b + 1]);
        }
        assert forall|a: int, b: int| 0 <= a < b < t1.len() implies lex_lt(t1[a].hash@, t1[b].hash@) by {
            assert(t1[a] == t[a + 1] && t1[b] == t[b + 1]);
        }
        lemma_sorted_index_unique(s1, t1);
        assert(s =~= t) by {
            assert forall|k: int| 0 <= k < s.len() implies s[k] == t[k] by {
                if k > 0 {
                    assert(s[k] == s1[k - 1]);
                    assert(t[k] == t1[k - 1]);
                }
            }
        }
    }
}

/// The entries sorted by hash are the ones `sorted_index` names.
proof fn lemma_is_sorted_index(chunks: Seq<(crate::common::Hash, Vec<u8>)>, s: Seq<ChunkIndexEntryV2>)
    requires
        index_sorted(s),
        s.to_multiset() == unsorted_index(chunks).to_multiset(),
    ensures
        sorted_index(chunks) == s,
{
    let c = sorted_index(chunks);
    assert(index_sorted(c) && c.to_multiset() == unsorted_index(chunks).to_multiset());
    lemma_sorted_index_unique(c, s);
}

proof fn lemma_chunk_data_step(chunks: Seq<(crate::common::Hash, Vec<u8>)>, i: int)
    requires
        0 <= i < chunks.len(),
    ensures
        chunk_data(chunks.take(i + 1)) == chunk_data(chunks.take(i)) + chunks[i].1@,
{
    assert(chunks.take(i + 1).drop_last() =~= chunks.take(i));
}

proof fn lemma_chunk_data_mono(chunks: Seq<(crate::common::Hash, Vec<u8>)>, i: int, j: int)
    requires
        0 <= i <= j <= chunks.len(),
    ensures
        chunk_data(chunks.take(i)).len() <= chunk_data(chunks.take(j)).len(),
    decreases j - i,
{
    if i < j {
        lemma_chunk_data_step(chunks, j - 1);
        lemma_chunk_data_mono(chunks, i, j - 1);
    }
}

proof fn lemma_entries_bytes_len(es: Seq<ChunkIndexEntryV2>)
    ensures
        entries_bytes(es).len() == 45 * es.len(),
    decreases es.len(),
{
    if es.len() > 0 {
        lemma_entries_bytes_len(es.drop_last());
    }
}

/// The total size of the chunks' bytes.
pub fn total_chunk_data_bytes(chunks: &Vec<(crate::common::Hash, Vec<u8>)>) -> (r: u64)
    requires
        chunk_data(chunks@).len() <= u64::MAX,
    ensures
        r == chunk_data(chunks@).len(),
{
    let mut total: u64 = 0;
    let mut i: usize = 0;
    while i < chunks.len()
        invariant
            i <= chunks@.len(),
            chunk_data(chunks@).len() <= u64::MAX,
            total == chunk_data(chunks@.take(i as int)).len(),
        decreases chunks@.len() - i,
    {
        proof {
            lemma_chunk_data_step(chunks@, i as int);
            lemma_chunk_data_mono(chunks@, i + 1, chunks@.len() as int);
            assert(chunks@.take(chunks@.len() as int) =~= chunks@);
        }
        total = total + chunks[i].1.len() as u64;
        i = i + 1;
    }
    proof {
        assert(chunks@.take(i as int) =~= chunks@);
    }
    total
}

/// The chunks' bytes one after the other, and their index entries in that
/// order.
fn layout_chunks(chunks: &Vec<(crate::common::Hash, Vec<u8>)>) -> (r: (Vec<u8>, Vec<ChunkIndexEntryV2>))
    requires
        fits_v2(chunks@, Seq::empty()),
    ensures
        r.0@ == chunk_data(chunks@),
        r.1@ == unsorted_index(chunks@),
{
    let header_size = FileHeaderV2::size();
    let mut chunk_index_entries: Vec<ChunkIndexEntryV2> = Vec::new();
    let mut current_chunk_data_offset: u64 = header_size as u64;
    let mut chunk_data_to_write: Vec<u8> = Vec::new();
    let mut i: usize = 0;
    proof {
        assert(chunks@.take(0) =~= Seq::<(crate::common::Hash, Vec<u8>)>::empty());
        lemma_chunk_data_mono(chunks@, 0, chunks@.len() as int);
        assert(chunks@.take(chunks@.len() as int) =~= chunks@);
    }
    while i < chunks.len()
        invariant
            i <= chunks@.len(),
            fits_v2(chunks@, Seq::empty()),
            chunk_data_to_write@ == chunk_data(chunks@.take(i as int)),
            current_chunk_data_offset == 42 + chunk_data(chunks@.take(i as int)).len(),
            chunk_index_entries@.len() == i,
            forall|j: int| 0 <= j < i ==> chunk_index_entries@[j] == unsorted_entry(chunks@, j),
        decreases chunks@.len() - i,
    {
        proof {
            lemma_chunk_data_step(chunks@, i as int);
            lemma_chunk_data_mono(chunks@, i + 1, chunks@.len() as int);
            assert(chunks@.take(chunks@.len() as int) =~= chunks@);
            assert(chunks@[i as int].1@.len() <= u32::MAX);
        }
        let data = &chunks[i].1;
        push_all(&mut chunk_data_to_write, data.as_slice());
        let ghost before = chunk_index_entries@;
        chunk_index_entries.push(
            ChunkIndexEntryV2 {
                hash: chunks[i].0,
                offset: current_chunk_data_offset,
                length: data.len() as u32,
                chunk_type_flags: 0,
            },
        );
        current_chunk_data_offset = current_chunk_data_offset + data.len() as u64;
        proof {
            assert forall|j: int| 0 <= j < i + 1 implies chunk_index_entries@[j] == unsorted_entry(chunks@, j) by {
                if j < i {
                    assert(chunk_index_entries@[j] == before[j]);
                }
            }
        }
        i = i + 1;
    }
    proof {
        assert(chunks@.take(i as int) =~= chunks@);
        assert(chunk_index_entries@ =~= unsorted_index(chunks@));
    }
    (chunk_data_to_write, chunk_index_entries)
}

/// The content of the chunk index block for the entries.
fn index_block_content(entries: &Vec<ChunkIndexEntryV2>) -> (r: Vec<u8>)
    requires
        entries@.len() <= u32::MAX,
    ensures
        r@ == index_content(entries@),
        r@.len() == 4 + 45 * entries@.len(),
{
    let mut content: Vec<u8> = Vec::new();
    push_u32_be(&mut content, entries.len() as u32);
    let mut k: usize = 0;
    proof {
        assert(entries@.take(0) =~= Seq::<ChunkIndexEntryV2>::empty());
        assert(content@ =~= u32_be_bytes(entries@.len() as u32) + entries_bytes(entries@.take(0)));
    }
    while k < entries.len()
        invariant
            k <= entries@.len(),
            content@ == u32_be_bytes(entries@.len() as u32) + entries_bytes(entries@.take(k as int)),
        decreases entries@.len() - k,
    {
        entries[k].write_to(&mut content);
        proof {
            assert(entries@.take(k + 1).drop_last() =~= entries@.take(k as int));
            assert(content@ =~= u32_be_bytes(entries@.len() as u32) + entries_bytes(entries@.take(k + 1)));
        }
        k = k + 1;
    }
    proof {
        assert(entries@.take(k as int) =~= entries@);
        lemma_entries_bytes_len(entries@);
    }
    content
}

/// The file for the chunks and the metadata JSON: the header, the chunks'
/// bytes in their order, the chunk index block (entries sorted by hash),
/// the metadata block, and the end block with the Blake3 digest of all
/// before it. The hashes must be distinct (they are a map's keys), and the
/// sizes within what the format records.
pub fn write_prly_tree_v2(chunks: &Vec<(crate::common::Hash, Vec<u8>)>, metadata_json: &Vec<u8>) -> (r: Vec<u8>)
    requires
        distinct_hashes(chunks@),
        fits_v2(chunks@, metadata_json@),
    ensures
        r@ == file_v2_bytes(chunks@, metadata_json@),
        roundtrip_ok(chunks@, metadata_json@, parse_file_v2(r@)),
{
    let (chunk_data_to_write, chunk_index_entries) = layout_chunks(chunks);
    let sorted = sort_index_entries(&chunk_index_entries);
    proof {
        lemma_is_sorted_index(chunks@, sorted@);
        sorted@.to_multiset_ensures();
        unsorted_index(chunks@).to_multiset_ensures();
    }
    let chunk_index_content_bytes = index_block_content(&sorted);
    let chunk_idx_checksum = calculate_crc32(chunk_index_content_bytes.as_slice());
    let chunk_index_envelope = ContentBlockEnvelope::new(
        TAG_CHUNK_INDEX_BLOCK,
        chunk_index_content_bytes.len() as u32,
        chunk_idx_checksum,
    );
    let metadata_checksum = calculate_crc32(metadata_json.as_slice());
    let metadata_envelope = ContentBlockEnvelope::new(
        TAG_METADATA_BLOCK,
        metadata_json.len() as u32,
        metadata_checksum,
    );
    let offset_chunk_index_block_envelope_start: u64 = FileHeaderV2::size() as u64
        + chunk_data_to_write.len() as u64;
    let offset_metadata_block_envelope_start: u64 = offset_chunk_index_block_envelope_start
        + ContentBlockEnvelope::size() as u64 + chunk_index_content_bytes.len() as u64;
    let offset_eof_block_begins: u64 = offset_metadata_block_envelope_start
        + ContentBlockEnvelope::size() as u64 + metadata_json.len() as u64;
    let final_header = FileHeaderV2::new(
        offset_metadata_block_envelope_start,
        offset_chunk_index_block_envelope_start,
        offset_eof_block_begins,
    );
    let mut file_buffer: Vec<u8> = Vec::new();
    final_header.write_to(&mut file_buffer);
    push_all(&mut file_buffer, chunk_data_to_write.as_slice());
    chunk_index_envelope.write_to(&mut file_buffer);
    push_all(&mut file_buffer, chunk_index_content_bytes.as_slice());
    metadata_envelope.write_to(&mut file_buffer);
    push_all(&mut file_buffer, metadata_json.as_slice());
    proof {
        reveal(file_v2_prefix);
        assert(file_buffer@ =~= file_v2_prefix(chunks@, metadata_json@));
    }
    let overall_file_blake3_checksum = calculate_blake3_hash(file_buffer.as_slice());
    let eof_block = EofBlockV2 {
        tag: TAG_EOF_BLOCK,
        offset_metadata_repeated: offset_metadata_block_envelope_start,
        offset_chunk_index_repeated: offset_chunk_index_block_envelope_start,
        signature_repeated: reversed_signature_v2(),
        overall_file_checksum: Some(overall_file_blake3_checksum),
    };
    eof_block.write_to(&mut file_buffer);
    proof {
        reveal(file_v2_bytes);
        assert(file_buffer@ =~= file_v2_bytes(chunks@, metadata_json@));
        lemma_file_roundtrip(chunks@, metadata_json@);
    }
    file_buffer
}

// ---------------- reading ----------------

/// The `u64` whose big-endian bytes are at `p`.
pub open spec fn be64_at(f: Seq<u8>, p: int) -> u64 {
    choose|x: u64| u64_be_bytes(x) == f.subrange(p, p + 8)
}

/// The `u32` whose big-endian bytes are at `p`.
pub open spec fn be32_at(f: Seq<u8>, p: int) -> u32 {
    choose|x: u32| u32_be_bytes(x) == f.subrange(p, p + 4)
}

proof fn lemma_be64_at(f: Seq<u8>, p: int, x: u64)
    requires
        u64_be_bytes(x) == f.subrange(p, p + 8),
    ensures
        be64_at(f, p) == x,
{
    let y = be64_at(f, p);
    assert(u64_be_bytes(y) == f.subrange(p, p + 8));
    crate::codec::lemma_u64_be_injective(x, y);
}

proof fn lemma_be32_at(f: Seq<u8>, p: int, x: u32)
    requires
        u32_be_bytes(x) == f.subrange(p, p + 4),
    ensures
        be32_at(f, p) == x,
{
    let y = be32_at(f, p);
    assert(u32_be_bytes(y) == f.subrange(p, p + 4));
    crate::codec::lemma_u32_be_injective(x, y);
}

/// The content of the block at `o` with tag `tag`: when its envelope and
/// content lie in the file, the tag matches and the content's CRC32 is the
/// one recorded.
pub open spec fn block_at(f: Seq<u8>, o: int, tag: u8) -> Option<Seq<u8>> {
    if 0 <= o && o + 9 <= f.len() && f[o] == tag && o + 9 + be32_at(f, o + 1) <= f.len() && spec_crc32(
        f.subrange(o + 9, o + 9 + be32_at(f, o + 1)),
    ) == be32_at(f, o + 5) {
        Some(f.subrange(o + 9, o + 9 + be32_at(f, o + 1)))
    } else {
        None
    }
}

/// The entries an index block's content lists: hash bytes, offset, length.
pub open spec fn index_entries_of(c: Seq<u8>) -> Option<Seq<(Seq<u8>, u64, u32)>> {
    if c.len() >= 4 && 4 + 45 * be32_at(c, 0) <= c.len() {
        Some(
            Seq::new(
                be32_at(c, 0) as nat,
                |k: int| (c.subrange(4 + 45 * k, 4 + 45 * k + 32), be64_at(c, 4 + 45 * k + 32), be32_at(c, 4 + 45 * k + 40)),
            ),
        )
    } else {
        None
    }
}

/// The end block at `oe` is in the file, with its tag, the reversed
/// signature and the Blake3 digest of everything before it.
pub open spec fn eof_ok(f: Seq<u8>, oe: int) -> bool {
    &&& 0 <= oe
    &&& oe + 57 <= f.len()
    &&& f[oe] == TAG_EOF_BLOCK
    &&& f.subrange(oe + 17, oe + 25) == file_signature_spec().reverse()
    &&& f.subrange(oe + 25, oe + 57) == crate::chunk::spec_blake3(f.subrange(0, oe))
}

/// What a file holds, when it is a well-formed version-2 file: the chunks
/// the index lists (hash and bytes, in the index's order) and the metadata
/// block's content.
pub open spec fn parse_file_v2(f: Seq<u8>) -> Option<(Seq<(Seq<u8>, Seq<u8>)>, Seq<u8>)> {
    if f.len() < 42 || f.subrange(0, 8) != file_signature_spec() || f[8] != 2 || be64_at(f, 26)
        > f.len() {
        None
    } else {
        match block_at(f, be64_at(f, 18) as int, TAG_CHUNK_INDEX_BLOCK) {
            None => None,
            Some(ic) => match index_entries_of(ic) {
                None => None,
                Some(es) => match block_at(f, be64_at(f, 10) as int, TAG_METADATA_BLOCK) {
                    None => None,
                    Some(json) => if (forall|k: int| 0 <= k < es.len() ==> (#[trigger] es[k]).1 + es[k].2 <= f.len())
                        && eof_ok(f, be64_at(f, 26) as int) {
                        Some(
                            (
                                Seq::new(es.len(), |k: int| (es[k].0, f.subrange(es[k].1 as int, es[k].1 + es[k].2))),
                                json,
                            ),
                        )
                    } else {
                        None
                    },
                },
            },
        }
    }
}

/// A file that passes every check of `parse_file_v2` but the last: the
/// Blake3 digest in its end block is not that of the bytes before it.
pub open spec fn digest_mismatch_v2(f: Seq<u8>) -> bool {
    if f.len() < 42 || f.subrange(0, 8) != file_signature_spec() || f[8] != 2 || be64_at(f, 26)
        > f.len() {
        false
    } else {
        match block_at(f, be64_at(f, 18) as int, TAG_CHUNK_INDEX_BLOCK) {
            None => false,
            Some(ic) => match index_entries_of(ic) {
                None => false,
                Some(es) => match block_at(f, be64_at(f, 10) as int, TAG_METADATA_BLOCK) {
                    None => false,
                    Some(_json) => {
                        let oe = be64_at(f, 26) as int;
                        &&& forall|k: int| 0 <= k < es.len() ==> (#[trigger] es[k]).1 + es[k].2 <= f.len()
                        &&& oe + 57 <= f.len()
                        &&& f[oe] == TAG_EOF_BLOCK
                        &&& f.subrange(oe + 17, oe + 25) == file_signature_spec().reverse()
                        &&& f.subrange(oe + 25, oe + 57) != crate::chunk::spec_blake3(f.subrange(0, oe))
                    },
                },
            },
        }
    }
}

/// The checks on a file before its chunks are read: the header's
/// signature, version and end offset, the index block and the metadata
/// block, whose contents are `ic` and `json`.
pub open spec fn head_ok(f: Seq<u8>, ic: Seq<u8>, json: Seq<u8>) -> bool {
    &&& f.len() >= 42
    &&& f.subrange(0, 8) == file_signature_spec()
    &&& f[8] == 2
    &&& be64_at(f, 26) <= f.len()
    &&& block_at(f, be64_at(f, 18) as int, TAG_CHUNK_INDEX_BLOCK) == Some(ic)
    &&& block_at(f, be64_at(f, 10) as int, TAG_METADATA_BLOCK) == Some(json)
}

/// The error a version other than 2 gives, naming the version.
#[verifier::external_body]
fn unsupported_version(version: u8) -> (r: ProllyError)
    ensures
        r is InvalidFileFormat,
{
    ProllyError::InvalidFileFormat(format!("Unsupported version: {}", version))
}

/// The error a chunk lying outside the file gives, naming its hash.
#[verifier::external_body]
fn chunk_out_of_bounds(hash: &crate::common::Hash) -> (r: ProllyError)
    ensures
        r is InvalidFileFormat,
{
    ProllyError::InvalidFileFormat(format!("Chunk offset/length out of bounds for hash {:?}", hash))
}

fn io_short() -> (r: ProllyError)
    ensures
        r is IoError,
{
    ProllyError::IoError("failed to fill whole buffer".to_string())
}

/// Reads the block at `offset` with `tag` (the chunk index block or the
/// metadata block) and returns its content.
fn read_block(
    file_bytes: &[u8],
    offset: u64,
    tag: u8,
    tag_error: &str,
    checksum_context: &str,
) -> (r: Result<Vec<u8>>)
    ensures
        r is Ok <==> block_at(file_bytes@, offset as int, tag) is Some,
        r matches Ok(c) ==> block_at(file_bytes@, offset as int, tag) == Some(c@),
{
    let f = file_bytes;
    if offset > f.len() as u64 {
        return Err(io_short());
    }
    let pos = offset as usize;
    let (envelope, p) = match ContentBlockEnvelope::read_from(f, pos) {
        Ok(x) => x,
        Err(e) => return Err(e),
    };
    proof {
        assert(envelope_bytes(envelope) == f@.subrange(pos as int, pos + 9));
        assert(f@[pos as int] == envelope_bytes(envelope)[0]);
        assert(u32_be_bytes(envelope.content_length) == f@.subrange(pos + 1, pos + 5)) by {
            assert(u32_be_bytes(envelope.content_length) =~= envelope_bytes(envelope).subrange(1, 5));
        }
        assert(u32_be_bytes(envelope.content_checksum) == f@.subrange(pos + 5, pos + 9)) by {
            assert(u32_be_bytes(envelope.content_checksum) =~= envelope_bytes(envelope).subrange(5, 9));
        }
        lemma_be32_at(f@, pos + 1, envelope.content_length);
        lemma_be32_at(f@, pos + 5, envelope.content_checksum);
    }
    if envelope.tag != tag {
        return Err(ProllyError::InvalidFileFormat(tag_error.to_string()));
    }
    let len = envelope.content_length as usize;
    if len > f.len() - p {
        return Err(io_short());
    }
    let content = crate::codec::copy_range(f, p, len);
    let checksum = calculate_crc32(content.as_slice());
    if checksum != envelope.content_checksum {
        return Err(ProllyError::ChecksumMismatch { context: checksum_context.to_string() });
    }
    Ok(content)
}

/// Reads the entries that an index block's content lists.
fn read_index_entries(content: &[u8]) -> (r: Result<Vec<ChunkIndexEntryV2>>)
    ensures
        r is Ok <==> index_entries_of(content@) is Some,
        r matches Ok(es) ==> {
            let m = index_entries_of(content@).unwrap();
            &&& es@.len() == m.len()
            &&& forall|k: int|
                0 <= k < m.len() ==> m[k] == ((#[trigger] es@[k]).hash@, es@[k].offset, es@[k].length)
        },
{
    let content_len = content.len();
    let (num_index_entries, _) = match crate::codec::read_u32_be(content, 0) {
        Some(x) => x,
        None => return Err(io_short()),
    };
    proof {
        lemma_be32_at(content@, 0, num_index_entries);
    }
    let mut chunk_index_entries: Vec<ChunkIndexEntryV2> = Vec::new();
    let mut k: u32 = 0;
    while k < num_index_entries
        invariant
            content@.len() >= 4,
            content@.len() == content_len,
            num_index_entries == be32_at(content@, 0),
            k <= num_index_entries,
            4 + 45 * k <= content@.len(),
            chunk_index_entries@.len() == k,
            forall|j: int|
                0 <= j < k ==> ((#[trigger] chunk_index_entries@[j]).hash@, chunk_index_entries@[j].offset,
                    chunk_index_entries@[j].length) == (
                    content@.subrange(4 + 45 * j, 4 + 45 * j + 32),
                    be64_at(content@, 4 + 45 * j + 32),
                    be32_at(content@, 4 + 45 * j + 40),
                ),
        decreases num_index_entries - k,
    {
        let pos = 4 + 45 * (k as usize);
        let (e, _) = match ChunkIndexEntryV2::read_from(content, pos) {
            Ok(x) => x,
            Err(err) => return Err(err),
        };
        proof {
            let b = index_entry_bytes(e);
            assert(e.hash@ =~= content@.subrange(pos as int, pos + 32)) by {
                assert(e.hash@ =~= b.subrange(0, 32));
            }
            assert(u64_be_bytes(e.offset) == content@.subrange(pos + 32, pos + 40)) by {
                assert(u64_be_bytes(e.offset) =~= b.subrange(32, 40));
            }
            assert(u32_be_bytes(e.length) == content@.subrange(pos + 40, pos + 44)) by {
                assert(u32_be_bytes(e.length) =~= b.subrange(40, 44));
            }
            lemma_be64_at(content@, pos + 32, e.offset);
            lemma_be32_at(content@, pos + 40, e.length);
        }
        let ghost before = chunk_index_entries@;
        chunk_index_entries.push(e);
        proof {
            assert forall|j: int| 0 <= j < k + 1 implies ((#[trigger] chunk_index_entries@[j]).hash@,
                chunk_index_entries@[j].offset, chunk_index_entries@[j].length) == (
                content@.subrange(4 + 45 * j, 4 + 45 * j + 32),
                be64_at(content@, 4 + 45 * j + 32),
                be32_at(content@, 4 + 45 * j + 40),
            ) by {
                if j < k {
                    assert(chunk_index_entries@[j] == before[j]);
                }
            }
        }
        k = k + 1;
    }
    Ok(chunk_index_entries)
}

/// Reads a version-2 file: checks the header (signature, version, end
/// offset), the chunk index block and the metadata block (tags and CRC32s),
/// that every chunk lies in the file, and the end block (tag, reversed
/// signature, Blake3 digest of everything before it). Returns the chunks in
/// the index's order and the metadata block's content (JSON).
pub fn read_prly_tree_v2(file_bytes: &[u8]) -> (r: Result<(Vec<(crate::common::Hash, Vec<u8>)>, Vec<u8>)>)
    ensures
        r is Ok <==> parse_file_v2(file_bytes@) is Some,
        r matches Ok((pairs, json)) ==> parse_file_v2(file_bytes@) == Some((chunk_pairs(pairs@), json@)),
        file_bytes@.len() < 42 ==> r matches Err(ProllyError::InvalidFileFormat(_)),
        file_bytes@.len() >= 42 && file_bytes@.subrange(0, 8) != super::format_v2::file_signature_spec() ==> (r matches Err(
            ProllyError::InvalidFileFormat(m),
        ) && m@ == "Invalid signature"@),
        file_bytes@.len() >= 42 && file_bytes@.subrange(0, 8) == super::format_v2::file_signature_spec()
            && file_bytes@[8] != super::format_v2::FORMAT_VERSION_V2 ==> r matches Err(ProllyError::InvalidFileFormat(_)),
        digest_mismatch_v2(file_bytes@) ==> r matches Err(ProllyError::ChecksumMismatch { .. }),
{
    let f = file_bytes;
    let (header, _) = match FileHeaderV2::read_from(f, 0) {
        Ok(x) => x,
        Err(_) => {
            return Err(ProllyError::InvalidFileFormat("Failed to read header: failed to fill whole buffer".to_string()));
        },
    };
    proof {
        let b = super::format_v2::header_bytes(header);
        assert(header.signature@ =~= f@.subrange(0, 8)) by {
            assert(header.signature@ =~= b.subrange(0, 8));
        }
        assert(f@[8] == header.version) by {
            assert(b[8] == header.version);
        }
        assert(u64_be_bytes(header.offset_metadata) == f@.subrange(10, 18)) by {
            assert(u64_be_bytes(header.offset_metadata) =~= b.subrange(10, 18));
        }
        assert(u64_be_bytes(header.offset_chunk_index) == f@.subrange(18, 26)) by {
            assert(u64_be_bytes(header.offset_chunk_index) =~= b.subrange(18, 26));
        }
        assert(u64_be_bytes(header.offset_eof) == f@.subrange(26, 34)) by {
            assert(u64_be_bytes(header.offset_eof) =~= b.subrange(26, 34));
        }
        lemma_be64_at(f@, 10, header.offset_metadata);
        lemma_be64_at(f@, 18, header.offset_chunk_index);
        lemma_be64_at(f@, 26, header.offset_eof);
    }
    let sig = super::format_v2::file_signature_v2();
    match compare_keys(header.signature.as_slice(), sig.as_slice()) {
        KeyOrder::Equal => {},
        _ => return Err(ProllyError::InvalidFileFormat("Invalid signature".to_string())),
    }
    if header.version != super::format_v2::FORMAT_VERSION_V2 {
        return Err(unsupported_version(header.version));
    }
    if header.offset_eof > f.len() as u64 {
        return Err(ProllyError::InvalidFileFormat("EOF offset in header is out of bounds.".to_string()));
    }
    let chunk_index_content_bytes = match read_block(
        f,
        header.offset_chunk_index,
        TAG_CHUNK_INDEX_BLOCK,
        "Chunk Index Block tag mismatch",
        "Chunk Index Block",
    ) {
        Ok(c) => c,
        Err(e) => return Err(e),
    };
    let chunk_index_entries = match read_index_entries(chunk_index_content_bytes.as_slice()) {
        Ok(es) => es,
        Err(e) => return Err(e),
    };
    let metadata_json_bytes = match read_block(
        f,
        header.offset_metadata,
        TAG_METADATA_BLOCK,
        "Metadata Block tag mismatch",
        "Metadata Block",
    ) {
        Ok(c) => c,
        Err(e) => return Err(e),
    };
    let ghost es = index_entries_of(chunk_index_content_bytes@).unwrap();
    let file_len = f.len();
    proof {
        assert(block_at(f@, be64_at(f@, 18) as int, TAG_CHUNK_INDEX_BLOCK) == Some(chunk_index_content_bytes@));
        assert(block_at(f@, be64_at(f@, 10) as int, TAG_METADATA_BLOCK) == Some(metadata_json_bytes@));
    }
    let mut chunks_out: Vec<(crate::common::Hash, Vec<u8>)> = Vec::new();
    let mut k: usize = 0;
    while k < chunk_index_entries.len()
        invariant
            es == index_entries_of(chunk_index_content_bytes@).unwrap(),
            index_entries_of(chunk_index_content_bytes@) is Some,
            head_ok(f@, chunk_index_content_bytes@, metadata_json_bytes@),
            f@ == file_bytes@,
            f@.len() == file_len,
            chunk_index_entries@.len() == es.len(),
            forall|j: int|
                0 <= j < es.len() ==> es[j] == ((#[trigger] chunk_index_entries@[j]).hash@,
                    chunk_index_entries@[j].offset, chunk_index_entries@[j].length),
            k <= es.len(),
            chunks_out@.len() == k,
            forall|j: int| 0 <= j < k ==> es[j].1 + es[j].2 <= f@.len(),
            forall|j: int|
                0 <= j < k ==> (#[trigger] chunks_out@[j]).0@ == es[j].0 && chunks_out@[j].1@ == f@.subrange(
                    es[j].1 as int,
                    es[j].1 + es[j].2,
                ),
        decreases es.len() - k,
    {
        let entry = &chunk_index_entries[k];
        proof {
            assert(es[k as int] == (entry.hash@, entry.offset, entry.length));
        }
        let end = match entry.offset.checked_add(entry.length as u64) {
            Some(x) => x,
            None => {
                proof {
                    assert(es[k as int].1 + es[k as int].2 > f@.len());
                }
                return Err(chunk_out_of_bounds(&entry.hash));
            },
        };
        if end > f.len() as u64 {
            proof {
                assert(es[k as int].1 + es[k as int].2 > f@.len());
            }
            return Err(chunk_out_of_bounds(&entry.hash));
        }
        let data = crate::codec::copy_range(f, entry.offset as usize, entry.length as usize);
        let ghost before = chunks_out@;
        chunks_out.push((entry.hash, data));
        proof {
            assert forall|j: int| 0 <= j < k + 1 implies (#[trigger] chunks_out@[j]).0@ == es[j].0
                && chunks_out@[j].1@ == f@.subrange(es[j].1 as int, es[j].1 + es[j].2) by {
                if j < k {
                    assert(chunks_out@[j] == before[j]);
                }
            }
        }
        k = k + 1;
    }
    let oe = header.offset_eof as usize;
    let (eof_block, _) = match EofBlockV2::read_from(f, oe, true) {
        Ok(x) => x,
        Err(e) => return Err(e),
    };
    proof {
        let b = super::format_v2::eof_bytes(eof_block);
        assert(eof_block.signature_repeated@ =~= f@.subrange(oe + 17, oe + 25)) by {
            assert(eof_block.signature_repeated@ =~= b.subrange(17, 25));
        }
        assert(eof_block.overall_file_checksum.unwrap()@ =~= f@.subrange(oe + 25, oe + 57)) by {
            assert(eof_block.overall_file_checksum.unwrap()@ =~= b.subrange(25, 57));
        }
        assert(f@[oe as int] == eof_block.tag) by {
            assert(b[0] == eof_block.tag);
        }
    }
    if eof_block.tag != TAG_EOF_BLOCK {
        return Err(ProllyError::InvalidFileFormat("EOF Block tag mismatch.".to_string()));
    }
    let expected_reversed_sig = reversed_signature_v2();
    match compare_keys(eof_block.signature_repeated.as_slice(), expected_reversed_sig.as_slice()) {
        KeyOrder::Equal => {},
        _ => return Err(ProllyError::InvalidFileFormat("EOF block reversed signature mismatch.".to_string())),
    }
    let content_to_check = crate::codec::copy_range(f, 0, oe);
    let calculated_overall_checksum = calculate_blake3_hash(content_to_check.as_slice());
    let expected_checksum_bytes = match eof_block.overall_file_checksum {
        Some(c) => c,
        None => return Err(ProllyError::ChecksumMismatch { context: "Overall file content checksum missing in file but expected".to_string() }),
    };
    match compare_keys(calculated_overall_checksum.as_slice(), expected_checksum_bytes.as_slice()) {
        KeyOrder::Equal => {},
        _ => return Err(ProllyError::ChecksumMismatch { context: "Overall file content".to_string() }),
    }
    proof {
        assert(chunk_pairs(chunks_out@) =~= Seq::new(
            es.len(),
            |j: int| (es[j].0, f@.subrange(es[j].1 as int, es[j].1 + es[j].2)),
        ));
    }
    Ok((chunks_out, metadata_json_bytes))
}

/// Whether the format can record `chunks` and `json` (`fits_v2`).
pub fn can_write_v2(chunks: &Vec<(crate::common::Hash, Vec<u8>)>, json: &Vec<u8>) -> (r: bool)
    ensures
        r == fits_v2(chunks@, json@),
{
    let n = chunks.len();
    let index_len = match n.checked_mul(45) {
        Some(x) => match x.checked_add(4) {
            Some(y) => y,
            None => return false,
        },
        None => return false,
    };
    if index_len > u32::MAX as usize || json.len() > u32::MAX as usize {
        return false;
    }
    let mut total: usize = 42;
    let mut i: usize = 0;
    while i < n
        invariant
            n == chunks@.len(),
            i <= n,
            total == 42 + chunk_data(chunks@.take(i as int)).len(),
            forall|j: int| 0 <= j < i ==> (#[trigger] chunks@[j]).1@.len() <= u32::MAX,
        decreases n - i,
    {
        proof {
            lemma_chunk_data_step(chunks@, i as int);
        }
        let len = chunks[i].1.len();
        if len > u32::MAX as usize {
            return false;
        }
        total = match total.checked_add(len) {
            Some(t) => t,
            None => {
                proof {
                    lemma_chunk_data_mono(chunks@, i + 1, n as int);
                    assert(chunks@.take(n as int) =~= chunks@);
                }
                return false;
            },
        };
        i = i + 1;
    }
    proof {
        assert(chunks@.take(n as int) =~= chunks@);
    }
    let rest = 9 + index_len;
    match total.checked_add(rest) {
        Some(t1) => match t1.checked_add(9) {
            Some(t2) => match t2.checked_add(json.len()) {
                Some(t3) => match t3.checked_add(57) {
                    Some(_) => true,
                    None => false,
                },
                None => false,
            },
            None => false,
        },
        None => false,
    }
}

/// Puts each chunk into the store, checking that each is stored under the
/// hash it came with; a chunk whose Blake3 digest is another hash stops the
/// load with `InternalError`.
pub fn load_chunks_into_store<S: super::ChunkStore>(store: &mut S, chunks: Vec<(crate::common::Hash, Vec<u8>)>) -> (r: Result<()>)
    requires
        old(store).inv(),
    ensures
        final(store).inv(),
        r is Ok ==> final(store).chunks() == old(store).chunks().union_prefer_right(super::mem_store::pairs_map(chunks@)),
        r is Ok ==> forall|i: int| 0 <= i < chunks@.len() ==> (#[trigger] chunks@[i]).0@ == crate::chunk::spec_blake3(chunks@[i].1@),
        final(store).refusals() >= old(store).refusals(),
        final(store).reliable() == old(store).reliable(),
        old(store).reliable() && r is Err ==> final(store).refusals() > old(store).refusals() || exists|i: int|
            0 <= i < chunks@.len() && (#[trigger] chunks@[i]).0@ != crate::chunk::spec_blake3(chunks@[i].1@),
{
    let ghost c0 = store.chunks();
    let mut i: usize = 0;
    proof {
        assert(chunks@.take(0) =~= Seq::<(crate::common::Hash, Vec<u8>)>::empty());
        assert(c0.union_prefer_right(super::mem_store::pairs_map(chunks@.take(0))) =~= c0);
    }
    while i < chunks.len()
        invariant
            store.inv(),
            i <= chunks@.len(),
            store.chunks() == c0.union_prefer_right(super::mem_store::pairs_map(chunks@.take(i as int))),
            forall|j: int| 0 <= j < i ==> (#[trigger] chunks@[j]).0@ == crate::chunk::spec_blake3(chunks@[j].1@),
            c0 == old(store).chunks(),
            store.refusals() == old(store).refusals(),
            store.reliable() == old(store).reliable(),
        decreases chunks@.len() - i,
    {
        let expected_hash = chunks[i].0;
        let data = crate::codec::copy_range(chunks[i].1.as_slice(), 0, chunks[i].1.len());
        proof {
            assert(data@ =~= chunks@[i as int].1@);
        }
        let actual_hash = match store.put(data) {
            Ok(h) => h,
            Err(e) => return Err(e),
        };
        if !crate::common::hash_eq(&actual_hash, &expected_hash) {
            proof {
                assert(chunks@[i as int].0@ != crate::chunk::spec_blake3(chunks@[i as int].1@));
            }
            return Err(ProllyError::InternalError("Hash mismatch on load".to_string()));
        }
        proof {
            assert(chunks@.take(i + 1).drop_last() =~= chunks@.take(i as int));
            assert(chunks@.take(i + 1).last() == chunks@[i as int]);
            assert(store.chunks() =~= c0.union_prefer_right(super::mem_store::pairs_map(chunks@.take(i + 1))));
        }
        i = i + 1;
    }
    proof {
        assert(chunks@.take(i as int) =~= chunks@);
    }
    Ok(())
}

// ---------------- the round trip ----------------

/// Every entry of `s` has a hash other than `e`'s.
pub open spec fn hash_absent(s: Seq<ChunkIndexEntryV2>, e: ChunkIndexEntryV2) -> bool {
    forall|k: int| 0 <= k < s.len() ==> (#[trigger] s[k]).hash@ != e.hash@
}

/// An entry of a list is one of its elements.
proof fn lemma_member(s: Seq<ChunkIndexEntryV2>, t: Seq<ChunkIndexEntryV2>, k: int)
    requires
        s.to_multiset() == t.to_multiset(),
        0 <= k < s.len(),
    ensures
        exists|j: int| 0 <= j < t.len() && t[j] == s[k],
{
    s.to_multiset_ensures();
    t.to_multiset_ensures();
    assert(s.contains(s[k]));
    assert(s.to_multiset().count(s[k]) > 0);
    assert(t.to_multiset().count(s[k]) > 0);
    assert(t.contains(s[k]));
}

/// A sorted list with one more entry put in its place.
proof fn lemma_insert_sorted(s: Seq<ChunkIndexEntryV2>, e: ChunkIndexEntryV2) -> (t: Seq<ChunkIndexEntryV2>)
    requires
        index_sorted(s),
        hash_absent(s, e),
    ensures
        index_sorted(t),
        t.to_multiset() == s.to_multiset().insert(e),
        t.len() == s.len() + 1,
    decreases s.len(),
{
    s.to_multiset_ensures();
    if s.len() == 0 {
        let t = seq![e];
        assert(t =~= s.push(e));
        t
    } else if lex_lt(s.last().hash@, e.hash@) {
        let t = s.push(e);
        assert forall|a: int, b: int| 0 <= a < b < t.len() implies lex_lt(t[a].hash@, t[b].hash@) by {
            if b == t.len() - 1 && a < s.len() - 1 {
                crate::keys::lemma_lex_lt_transitive(s[a].hash@, s.last().hash@, e.hash@);
            }
        }
        t
    } else {
        let d = s.drop_last();
        let l = s.last();
        assert forall|a: int, b: int| 0 <= a < b < d.len() implies lex_lt(d[a].hash@, d[b].hash@) by {
            assert(d[a] == s[a] && d[b] == s[b]);
        }
        assert forall|k: int| 0 <= k < d.len() implies (#[trigger] d[k]).hash@ != e.hash@ by {
            assert(d[k] == s[k]);
        }
        let t1 = lemma_insert_sorted(d, e);
        assert(s.last() == s[s.len() - 1]);
        crate::keys::lemma_lex_trichotomy(l.hash@, e.hash@);
        assert(lex_lt(e.hash@, l.hash@));
        let t = t1.push(l);
        t1.to_multiset_ensures();
        d.to_multiset_ensures();
        assert forall|a: int| 0 <= a < t1.len() implies lex_lt((#[trigger] t1[a]).hash@, l.hash@) by {
            assert(t1.contains(t1[a]));
            assert(t1.to_multiset().count(t1[a]) > 0);
            if t1[a] != e {
                assert(d.to_multiset().count(t1[a]) > 0);
                assert(d.contains(t1[a]));
                let j = choose|j: int| 0 <= j < d.len() && d[j] == t1[a];
                assert(d[j] == s[j]);
            }
        }
        assert forall|a: int, b: int| 0 <= a < b < t.len() implies lex_lt(t[a].hash@, t[b].hash@) by {
            if b < t1.len() {
                assert(t[a] == t1[a] && t[b] == t1[b]);
            } else {
                assert(t[a] == t1[a]);
            }
        }
        assert(s =~= d.push(l));
        assert(t.to_multiset() =~= s.to_multiset().insert(e));
        t
    }
}

/// Entries with distinct hashes can be sorted by hash.
proof fn lemma_sorted_exists(es: Seq<ChunkIndexEntryV2>) -> (s: Seq<ChunkIndexEntryV2>)
    requires
        forall|i: int, j: int| 0 <= i < j < es.len() ==> es[i].hash@ != es[j].hash@,
    ensures
        index_sorted(s),
        s.to_multiset() == es.to_multiset(),
    decreases es.len(),
{
    es.to_multiset_ensures();
    if es.len() == 0 {
        assert(es =~= Seq::<ChunkIndexEntryV2>::empty());
        es
    } else {
        let d = es.drop_last();
        let e = es.last();
        let s1 = lemma_sorted_exists(d);
        assert forall|k: int| 0 <= k < s1.len() implies (#[trigger] s1[k]).hash@ != e.hash@ by {
            lemma_member(s1, d, k);
            let j = choose|j: int| 0 <= j < d.len() && d[j] == s1[k];
            assert(d[j] == es[j]);
        }
        let s = lemma_insert_sorted(s1, e);
        assert(es =~= d.push(e));
        d.to_multiset_ensures();
        assert(d.push(e).to_multiset() =~= d.to_multiset().insert(e));
        s
    }
}

proof fn lemma_entries_at(es: Seq<ChunkIndexEntryV2>, k: int)
    requires
        0 <= k < es.len(),
    ensures
        crate::codec::holds_at(entries_bytes(es), 45 * k, index_entry_bytes(es[k])),
    decreases es.len(),
{
    let d = es.drop_last();
    lemma_entries_bytes_len(d);
    let a = entries_bytes(d);
    let b = index_entry_bytes(es.last());
    if k == es.len() - 1 {
        crate::codec::lemma_holds_at_whole(a + b);
        crate::codec::lemma_holds_at_split(a + b, 0, a, b);
    } else {
        lemma_entries_at(d, k);
        assert(d[k] == es[k]);
        crate::codec::lemma_holds_at_prefix(a, b, 45 * k, index_entry_bytes(es[k]));
    }
}

proof fn lemma_chunk_data_prefix(chunks: Seq<(crate::common::Hash, Vec<u8>)>, m: int)
    requires
        0 <= m <= chunks.len(),
    ensures
        crate::codec::holds_at(chunk_data(chunks), 0, chunk_data(chunks.take(m))),
    decreases chunks.len(),
{
    if m == chunks.len() {
        assert(chunks.take(m) =~= chunks);
        crate::codec::lemma_holds_at_whole(chunk_data(chunks));
    } else {
        let d = chunks.drop_last();
        lemma_chunk_data_prefix(d, m);
        assert(d.take(m) =~= chunks.take(m));
        crate::codec::lemma_holds_at_prefix(chunk_data(d), chunks.last().1@, 0, chunk_data(chunks.take(m)));
    }
}

proof fn lemma_chunk_at(chunks: Seq<(crate::common::Hash, Vec<u8>)>, i: int)
    requires
        0 <= i < chunks.len(),
    ensures
        crate::codec::holds_at(chunk_data(chunks), chunk_data(chunks.take(i)).len() as int, chunks[i].1@),
{
    lemma_chunk_data_step(chunks, i);
    let a = chunk_data(chunks.take(i));
    let b = chunks[i].1@;
    crate::codec::lemma_holds_at_whole(a + b);
    crate::codec::lemma_holds_at_split(a + b, 0, a, b);
    lemma_chunk_data_prefix(chunks, i + 1);
    crate::codec::lemma_holds_at_compose(chunk_data(chunks), 0, a + b, a.len() as int, b);
}

/// What reading a file gives back is the metadata as written and each
/// chunk once, sorted by hash.
pub open spec fn roundtrip_ok(
    chunks: Seq<(crate::common::Hash, Vec<u8>)>,
    json: Seq<u8>,
    r: Option<(Seq<(Seq<u8>, Seq<u8>)>, Seq<u8>)>,
) -> bool {
    &&& r is Some
    &&& r.unwrap().1 == json
    &&& r.unwrap().0.len() == chunks.len()
    &&& forall|k: int|
        0 <= k < chunks.len() ==> exists|i: int|
            0 <= i < chunks.len() && (#[trigger] r.unwrap().0[k]).0 == (#[trigger] chunks[i]).0@ && r.unwrap().0[k].1
                == chunks[i].1@
    &&& forall|i: int|
        0 <= i < chunks.len() ==> exists|k: int|
            0 <= k < chunks.len() && (#[trigger] r.unwrap().0[k]).0 == (#[trigger] chunks[i]).0@ && r.unwrap().0[k].1
                == chunks[i].1@
    &&& forall|a: int, b: int| 0 <= a < b < chunks.len() ==> lex_lt(r.unwrap().0[a].0, r.unwrap().0[b].0)
}

proof fn lemma_header_parts(om: int, oi: int, oe: int)
    ensures
        ({
            let h = header_v2_bytes(om, oi, oe);
            &&& h.len() == 42
            &&& crate::codec::holds_at(h, 0, file_signature_spec())
            &&& h[8] == 2
            &&& crate::codec::holds_at(h, 10, u64_be_bytes(om as u64))
            &&& crate::codec::holds_at(h, 18, u64_be_bytes(oi as u64))
            &&& crate::codec::holds_at(h, 26, u64_be_bytes(oe as u64))
        }),
{
    let h = header_v2_bytes(om, oi, oe);
    let h4 = file_signature_spec() + seq![2u8, 0u8];
    let h3 = h4 + u64_be_bytes(om as u64);
    let h2 = h3 + u64_be_bytes(oi as u64);
    let h1 = h2 + u64_be_bytes(oe as u64);
    lemma_holds_at_whole(h);
    lemma_holds_at_split(h, 0, h1, seq![0u8, 0u8, 0u8, 0u8, 0u8, 0u8, 0u8, 0u8]);
    lemma_holds_at_split(h, 0, h2, u64_be_bytes(oe as u64));
    lemma_holds_at_split(h, 0, h3, u64_be_bytes(oi as u64));
    lemma_holds_at_split(h, 0, h4, u64_be_bytes(om as u64));
    lemma_holds_at_split(h, 0, file_signature_spec(), seq![2u8, 0u8]);
    lemma_holds_at_index(h, 8, seq![2u8, 0u8], 0);
}

proof fn lemma_block_parts(tag: u8, content: Seq<u8>)
    ensures
        ({
            let b = block_v2_bytes(tag, content);
            &&& b.len() == 9 + content.len()
            &&& b[0] == tag
            &&& crate::codec::holds_at(b, 1, u32_be_bytes(content.len() as u32))
            &&& crate::codec::holds_at(b, 5, u32_be_bytes(spec_crc32(content)))
            &&& crate::codec::holds_at(b, 9, content)
        }),
{
    let b = block_v2_bytes(tag, content);
    let b2 = seq![tag] + u32_be_bytes(content.len() as u32);
    let b1 = b2 + u32_be_bytes(spec_crc32(content));
    lemma_holds_at_whole(b);
    lemma_holds_at_split(b, 0, b1, content);
    lemma_holds_at_split(b, 0, b2, u32_be_bytes(spec_crc32(content)));
    lemma_holds_at_split(b, 0, seq![tag], u32_be_bytes(content.len() as u32));
    lemma_holds_at_index(b, 0, seq![tag], 0);
}

proof fn lemma_eof_parts(om: int, oi: int, pre: Seq<u8>)
    requires
        crate::chunk::spec_blake3(pre).len() == 32,
    ensures
        ({
            let e = eof_v2_bytes(om, oi, pre);
            &&& e.len() == 57
            &&& e[0] == TAG_EOF_BLOCK
            &&& crate::codec::holds_at(e, 17, file_signature_spec().reverse())
            &&& crate::codec::holds_at(e, 25, crate::chunk::spec_blake3(pre))
        }),
{
    let e = eof_v2_bytes(om, oi, pre);
    let e3 = seq![TAG_EOF_BLOCK] + u64_be_bytes(om as u64);
    let e2 = e3 + u64_be_bytes(oi as u64);
    let e1 = e2 + file_signature_spec().reverse();
    lemma_holds_at_whole(e);
    lemma_holds_at_split(e, 0, e1, crate::chunk::spec_blake3(pre));
    lemma_holds_at_split(e, 0, e2, file_signature_spec().reverse());
    lemma_holds_at_split(e, 0, e3, u64_be_bytes(oi as u64));
    lemma_holds_at_split(e, 0, seq![TAG_EOF_BLOCK], u64_be_bytes(om as u64));
    lemma_holds_at_index(e, 0, seq![TAG_EOF_BLOCK], 0);
}

/// Places each part of `s = a + b` finds in `a` and `b` within `s`.
proof fn lemma_place(a: Seq<u8>, b: Seq<u8>)
    ensures
        crate::codec::holds_at(a + b, 0, a),
        crate::codec::holds_at(a + b, a.len() as int, b),
{
    lemma_holds_at_whole(a + b);
    lemma_holds_at_split(a + b, 0, a, b);
}

/// Where the parts of a written file lie.
proof fn lemma_file_layout(chunks: Seq<(crate::common::Hash, Vec<u8>)>, json: Seq<u8>)
    requires
        fits_v2(chunks, json),
        crate::chunk::spec_blake3(file_v2_prefix(chunks, json)).len() == 32,
    ensures
        ({
            let f = file_v2_bytes(chunks, json);
            let data = chunk_data(chunks);
            let idx = index_content(sorted_index(chunks));
            let oi: int = 42 + data.len() as int;
            let om: int = oi + 9 + idx.len();
            let oe: int = om + 9 + json.len();
            &&& f.len() == oe + 57
            &&& crate::codec::holds_at(f, 0, file_signature_spec())
            &&& f[8] == 2
            &&& crate::codec::holds_at(f, 10, u64_be_bytes(om as u64))
            &&& crate::codec::holds_at(f, 18, u64_be_bytes(oi as u64))
            &&& crate::codec::holds_at(f, 26, u64_be_bytes(oe as u64))
            &&& crate::codec::holds_at(f, 42, data)
            &&& f[oi] == TAG_CHUNK_INDEX_BLOCK
            &&& crate::codec::holds_at(f, oi + 1, u32_be_bytes(idx.len() as u32))
            &&& crate::codec::holds_at(f, oi + 5, u32_be_bytes(spec_crc32(idx)))
            &&& crate::codec::holds_at(f, oi + 9, idx)
            &&& f[om] == TAG_METADATA_BLOCK
            &&& crate::codec::holds_at(f, om + 1, u32_be_bytes(json.len() as u32))
            &&& crate::codec::holds_at(f, om + 5, u32_be_bytes(spec_crc32(json)))
            &&& crate::codec::holds_at(f, om + 9, json)
            &&& f[oe] == TAG_EOF_BLOCK
            &&& crate::codec::holds_at(f, oe + 17, file_signature_spec().reverse())
            &&& crate::codec::holds_at(f, oe + 25, crate::chunk::spec_blake3(f.subrange(0, oe)))
            &&& f.subrange(0, oe) == file_v2_prefix(chunks, json)
        }),
{
    reveal(file_v2_prefix);
    reveal(file_v2_bytes);
    let data = chunk_data(chunks);
    let idx = index_content(sorted_index(chunks));
    let oi: int = 42 + data.len() as int;
    let om: int = oi + 9 + idx.len();
    let oe: int = om + 9 + json.len();
    let h = header_v2_bytes(om, oi, oe);
    let bi = block_v2_bytes(TAG_CHUNK_INDEX_BLOCK, idx);
    let bm = block_v2_bytes(TAG_METADATA_BLOCK, json);
    let pre = file_v2_prefix(chunks, json);
    let eof = eof_v2_bytes(om, oi, pre);
    let f = file_v2_bytes(chunks, json);
    lemma_header_parts(om, oi, oe);
    lemma_block_parts(TAG_CHUNK_INDEX_BLOCK, idx);
    lemma_block_parts(TAG_METADATA_BLOCK, json);
    lemma_eof_parts(om, oi, pre);
    lemma_place(pre, eof);
    lemma_place(h + data + bi, bm);
    lemma_place(h + data, bi);
    lemma_place(h, data);
    let hd = h + data;
    let hdb = hd + bi;
    // the header
    lemma_holds_at_compose(hd, 0, h, 0, file_signature_spec());
    lemma_holds_at_compose(hd, 0, h, 10, u64_be_bytes(om as u64));
    lemma_holds_at_compose(hd, 0, h, 18, u64_be_bytes(oi as u64));
    lemma_holds_at_compose(hd, 0, h, 26, u64_be_bytes(oe as u64));
    lemma_holds_at_compose(hdb, 0, hd, 0, file_signature_spec());
    lemma_holds_at_compose(hdb, 0, hd, 10, u64_be_bytes(om as u64));
    lemma_holds_at_compose(hdb, 0, hd, 18, u64_be_bytes(oi as u64));
    lemma_holds_at_compose(hdb, 0, hd, 26, u64_be_bytes(oe as u64));
    lemma_holds_at_compose(hdb, 0, hd, 42, data);
    lemma_holds_at_compose(pre, 0, hdb, 0, file_signature_spec());
    lemma_holds_at_compose(pre, 0, hdb, 10, u64_be_bytes(om as u64));
    lemma_holds_at_compose(pre, 0, hdb, 18, u64_be_bytes(oi as u64));
    lemma_holds_at_compose(pre, 0, hdb, 26, u64_be_bytes(oe as u64));
    lemma_holds_at_compose(pre, 0, hdb, 42, data);
    lemma_holds_at_compose(f, 0, pre, 0, file_signature_spec());
    lemma_holds_at_compose(f, 0, pre, 10, u64_be_bytes(om as u64));
    lemma_holds_at_compose(f, 0, pre, 18, u64_be_bytes(oi as u64));
    lemma_holds_at_compose(f, 0, pre, 26, u64_be_bytes(oe as u64));
    lemma_holds_at_compose(f, 0, pre, 42, data);
    assert(f[8] == h[8]) by {
        lemma_holds_at_index(f, 0, pre, 8);
        lemma_holds_at_index(pre, 0, hdb, 8);
        lemma_holds_at_index(hdb, 0, hd, 8);
        lemma_holds_at_index(hd, 0, h, 8);
    }
    // the index block
    lemma_holds_at_compose(pre, 0, hdb, oi, bi);
    lemma_holds_at_compose(f, 0, pre, oi, bi);
    lemma_holds_at_compose(f, oi, bi, 1, u32_be_bytes(idx.len() as u32));
    lemma_holds_at_compose(f, oi, bi, 5, u32_be_bytes(spec_crc32(idx)));
    lemma_holds_at_compose(f, oi, bi, 9, idx);
    lemma_holds_at_index(f, oi, bi, 0);
    // the metadata block
    lemma_holds_at_compose(f, 0, pre, om, bm);
    lemma_holds_at_compose(f, om, bm, 1, u32_be_bytes(json.len() as u32));
    lemma_holds_at_compose(f, om, bm, 5, u32_be_bytes(spec_crc32(json)));
    lemma_holds_at_compose(f, om, bm, 9, json);
    lemma_holds_at_index(f, om, bm, 0);
    // the end block
    lemma_holds_at_compose(f, oe, eof, 17, file_signature_spec().reverse());
    lemma_holds_at_compose(f, oe, eof, 25, crate::chunk::spec_blake3(pre));
    lemma_holds_at_index(f, oe, eof, 0);
    assert(f.subrange(0, oe) == pre);
}

/// The sorted index of chunks with distinct hashes exists.
proof fn lemma_sorted_index_facts(chunks: Seq<(crate::common::Hash, Vec<u8>)>)
    requires
        distinct_hashes(chunks),
    ensures
        index_sorted(sorted_index(chunks)),
        sorted_index(chunks).to_multiset() == unsorted_index(chunks).to_multiset(),
        sorted_index(chunks).len() == chunks.len(),
{
    let un = unsorted_index(chunks);
    let witness = lemma_sorted_exists(un);
    lemma_is_sorted_index(chunks, witness);
    sorted_index(chunks).to_multiset_ensures();
    un.to_multiset_ensures();
}

/// A file laid out as written reads back its header, both blocks and its
/// end block.
proof fn lemma_head_from_layout(f: Seq<u8>, idx: Seq<u8>, json: Seq<u8>, oi: int, om: int, oe: int, pre: Seq<u8>)
    requires
        oi >= 42,
        om == oi + 9 + idx.len(),
        oe == om + 9 + json.len(),
        oe <= usize::MAX,
        idx.len() <= u32::MAX,
        json.len() <= u32::MAX,
        crate::chunk::spec_blake3(pre).len() == 32,
        f.len() == oe + 57,
        crate::codec::holds_at(f, 0, file_signature_spec()),
        f[8] == 2,
        crate::codec::holds_at(f, 10, u64_be_bytes(om as u64)),
        crate::codec::holds_at(f, 18, u64_be_bytes(oi as u64)),
        crate::codec::holds_at(f, 26, u64_be_bytes(oe as u64)),
        f[oi] == TAG_CHUNK_INDEX_BLOCK,
        crate::codec::holds_at(f, oi + 1, u32_be_bytes(idx.len() as u32)),
        crate::codec::holds_at(f, oi + 5, u32_be_bytes(spec_crc32(idx))),
        crate::codec::holds_at(f, oi + 9, idx),
        f[om] == TAG_METADATA_BLOCK,
        crate::codec::holds_at(f, om + 1, u32_be_bytes(json.len() as u32)),
        crate::codec::holds_at(f, om + 5, u32_be_bytes(spec_crc32(json))),
        crate::codec::holds_at(f, om + 9, json),
        f[oe] == TAG_EOF_BLOCK,
        crate::codec::holds_at(f, oe + 17, file_signature_spec().reverse()),
        crate::codec::holds_at(f, oe + 25, crate::chunk::spec_blake3(f.subrange(0, oe))),
        f.subrange(0, oe) == pre,
    ensures
        head_ok(f, idx, json),
        be64_at(f, 26) == oe,
        eof_ok(f, oe),
{
    lemma_be64_at(f, 10, om as u64);
    lemma_be64_at(f, 18, oi as u64);
    lemma_be64_at(f, 26, oe as u64);
    lemma_be32_at(f, oi + 1, idx.len() as u32);
    lemma_be32_at(f, oi + 5, spec_crc32(idx));
    lemma_be32_at(f, om + 1, json.len() as u32);
    lemma_be32_at(f, om + 5, spec_crc32(json));
}

/// The header and both blocks of a written file read back.
#[verifier::rlimit(60)]
#[verifier::spinoff_prover]
proof fn lemma_rt_head(chunks: Seq<(crate::common::Hash, Vec<u8>)>, json: Seq<u8>)
    requires
        fits_v2(chunks, json),
        distinct_hashes(chunks),
        crate::chunk::spec_blake3(file_v2_prefix(chunks, json)).len() == 32,
    ensures
        ({
            let f = file_v2_bytes(chunks, json);
            let idx = index_content(sorted_index(chunks));
            let oi: int = 42 + chunk_data(chunks).len() as int;
            let om: int = oi + 9 + idx.len();
            let oe: int = om + 9 + json.len();
            &&& head_ok(f, idx, json)
            &&& be64_at(f, 26) == oe
            &&& eof_ok(f, oe)
            &&& crate::codec::holds_at(f, 42, chunk_data(chunks))
        }),
{
    lemma_sorted_index_facts(chunks);
    lemma_file_layout(chunks, json);
    let f = file_v2_bytes(chunks, json);
    let data = chunk_data(chunks);
    let idx = index_content(sorted_index(chunks));
    lemma_entries_bytes_len(sorted_index(chunks));
    let oi: int = 42 + data.len() as int;
    let om: int = oi + 9 + idx.len();
    let oe: int = om + 9 + json.len();
    lemma_head_from_layout(f, idx, json, oi, om, oe, file_v2_prefix(chunks, json));
}

/// The entries of a written index read back.
proof fn lemma_rt_entries(s: Seq<ChunkIndexEntryV2>)
    requires
        4 + 45 * s.len() <= u32::MAX,
    ensures
        ({
            let idx = index_content(s);
            &&& index_entries_of(idx) is Some
            &&& index_entries_of(idx).unwrap().len() == s.len()
            &&& forall|k: int|
                0 <= k < s.len() ==> #[trigger] index_entries_of(idx).unwrap()[k] == (s[k].hash@, s[k].offset, s[k].length)
        }),
{
    let idx = index_content(s);
    let n = s.len();
    lemma_entries_bytes_len(s);
    let nb = u32_be_bytes(n as u32);
    let eb = entries_bytes(s);
    lemma_place(nb, eb);
    lemma_be32_at(idx, 0, n as u32);
    assert(index_entries_of(idx) is Some);
    let es = index_entries_of(idx).unwrap();
    assert forall|k: int| 0 <= k < n implies #[trigger] es[k] == (s[k].hash@, s[k].offset, s[k].length) by {
        lemma_entries_at(s, k);
        lemma_holds_at_compose(idx, 4, eb, 45 * k, index_entry_bytes(s[k]));
        let p = 4 + 45 * k;
        let e = s[k];
        lemma_holds_at_split(idx, p, e.hash@ + u64_be_bytes(e.offset) + u32_be_bytes(e.length), seq![e.chunk_type_flags]);
        lemma_holds_at_split(idx, p, e.hash@ + u64_be_bytes(e.offset), u32_be_bytes(e.length));
        lemma_holds_at_split(idx, p, e.hash@, u64_be_bytes(e.offset));
        lemma_be64_at(idx, p + 32, e.offset);
        lemma_be32_at(idx, p + 40, e.length);
    }
}

/// Each sorted entry of a written file points at its chunk's bytes.
proof fn lemma_rt_chunk(chunks: Seq<(crate::common::Hash, Vec<u8>)>, f: Seq<u8>, k: int)
    requires
        distinct_hashes(chunks),
        fits_v2(chunks, Seq::empty()),
        crate::codec::holds_at(f, 42, chunk_data(chunks)),
        0 <= k < chunks.len(),
    ensures
        ({
            let e = sorted_index(chunks)[k];
            exists|i: int|
                0 <= i < chunks.len() && e == unsorted_index(chunks)[i] && e.offset + e.length <= f.len()
                    && f.subrange(e.offset as int, e.offset + e.length) == chunks[i].1@
        }),
{
    lemma_sorted_index_facts(chunks);
    let s = sorted_index(chunks);
    let un = unsorted_index(chunks);
    lemma_member(s, un, k);
    let i = choose|i: int| 0 <= i < un.len() && un[i] == s[k];
    lemma_chunk_at(chunks, i);
    lemma_chunk_data_mono(chunks, i, chunks.len() as int);
    assert(chunks.take(chunks.len() as int) =~= chunks);
    assert(chunks[i].1@.len() <= u32::MAX);
    lemma_holds_at_compose(f, 42, chunk_data(chunks), chunk_data(chunks.take(i)).len() as int, chunks[i].1@);
}

/// Reading a file written from chunks and metadata gives them back: the
/// metadata as it was, and each chunk once, sorted by hash.
proof fn lemma_file_roundtrip(chunks: Seq<(crate::common::Hash, Vec<u8>)>, json: Seq<u8>)
    requires
        distinct_hashes(chunks),
        fits_v2(chunks, json),
        crate::chunk::spec_blake3(file_v2_prefix(chunks, json)).len() == 32,
    ensures
        roundtrip_ok(chunks, json, parse_file_v2(file_v2_bytes(chunks, json))),
{
    let f = file_v2_bytes(chunks, json);
    let s = sorted_index(chunks);
    let un = unsorted_index(chunks);
    lemma_sorted_index_facts(chunks);
    lemma_rt_head(chunks, json);
    lemma_rt_entries(s);
    let idx = index_content(s);
    let es = index_entries_of(idx).unwrap();
    assert(fits_v2(chunks, Seq::empty()));
    assert forall|k: int| 0 <= k < es.len() implies (#[trigger] es[k]).1 + es[k].2 <= f.len() by {
        lemma_rt_chunk(chunks, f, k);
    }
    let r = parse_file_v2(f);
    assert(r is Some);
    let pairs = r.unwrap().0;
    assert forall|k: int| 0 <= k < chunks.len() implies exists|i: int|
        0 <= i < chunks.len() && (#[trigger] pairs[k]).0 == (#[trigger] chunks[i]).0@ && pairs[k].1 == chunks[i].1@ by {
        lemma_rt_chunk(chunks, f, k);
        let i = choose|i: int|
            0 <= i < chunks.len() && s[k] == un[i] && s[k].offset + s[k].length <= f.len() && f.subrange(
                s[k].offset as int,
                s[k].offset + s[k].length,
            ) == chunks[i].1@;
        assert(es[k] == (s[k].hash@, s[k].offset, s[k].length));
        assert(pairs[k].0 == chunks[i].0@ && pairs[k].1 == chunks[i].1@);
    }
    assert forall|i: int| 0 <= i < chunks.len() implies exists|k: int|
        0 <= k < chunks.len() && (#[trigger] pairs[k]).0 == (#[trigger] chunks[i]).0@ && pairs[k].1 == chunks[i].1@ by {
        lemma_member(un, s, i);
        let k = choose|k: int| 0 <= k < s.len() && s[k] == un[i];
        lemma_rt_chunk(chunks, f, k);
        let i2 = choose|i2: int|
            0 <= i2 < chunks.len() && s[k] == un[i2] && s[k].offset + s[k].length <= f.len() && f.subrange(
                s[k].offset as int,
                s[k].offset + s[k].length,
            ) == chunks[i2].1@;
        if i2 != i {
            assert(un[i].hash@ != un[i2].hash@);
        }
        assert(es[k] == (s[k].hash@, s[k].offset, s[k].length));
        assert(pairs[k].0 == chunks[i].0@ && pairs[k].1 == chunks[i].1@);
    }
    assert forall|a: int, b: int| 0 <= a < b < chunks.len() implies lex_lt(pairs[a].0, pairs[b].0) by {
        assert(es[a] == (s[a].hash@, s[a].offset, s[a].length));
        assert(es[b] == (s[b].hash@, s[b].offset, s[b].length));
    }
}

} // verus!
