use prolly::chunk::{chunk_node, hash_bytes};
use prolly::error::ProllyError;
use prolly::node::definition::{InternalEntry, LeafEntry, Node, ValueRepr};
use prolly::store::file_io_v2::{read_prly_tree_v2, total_chunk_data_bytes, write_prly_tree_v2};
use prolly::store::format_v2::{
    calculate_blake3_hash, calculate_crc32, file_signature_v2, ChunkIndexEntryV2,
    ContentBlockEnvelope, EofBlockV2, FileHeaderV2, TAG_CHUNK_INDEX_BLOCK,
};

fn sample_chunks() -> Vec<([u8; 32], Vec<u8>)> {
    let a = b"first chunk".to_vec();
    let b = b"second, longer chunk of bytes".to_vec();
    let c = Vec::new();
    vec![(hash_bytes(&a), a), (hash_bytes(&b), b), (hash_bytes(&c), c)]
}

#[test]
fn header_and_envelope_sizes() {
    assert_eq!(FileHeaderV2::size(), 42);
    assert_eq!(ContentBlockEnvelope::size(), 9);
}

#[test]
fn header_write_read_roundtrip() {
    let h = FileHeaderV2::new(100, 200, 300);
    assert_eq!(&h.signature, b"PRLYTRV2");
    assert_eq!(h.version, 2);
    let mut out = Vec::new();
    h.write_to(&mut out);
    assert_eq!(out.len(), 42);
    assert_eq!(&out[10..18], &100u64.to_be_bytes());
    let (back, pos) = FileHeaderV2::read_from(&out, 0).unwrap();
    assert_eq!(back, h);
    assert_eq!(pos, 42);
    assert!(matches!(FileHeaderV2::read_from(&out[..41], 0), Err(ProllyError::IoError(_))));
}

#[test]
fn envelope_and_index_entry_roundtrip() {
    let env = ContentBlockEnvelope::new(TAG_CHUNK_INDEX_BLOCK, 7, 0xDEADBEEF);
    let mut out = Vec::new();
    env.write_to(&mut out);
    assert_eq!(out, vec![0x20, 0, 0, 0, 7, 0xDE, 0xAD, 0xBE, 0xEF]);
    let (back, pos) = ContentBlockEnvelope::read_from(&out, 0).unwrap();
    assert_eq!((back.tag, back.content_length, back.content_checksum), (0x20, 7, 0xDEADBEEF));
    assert_eq!(pos, 9);

    let e = ChunkIndexEntryV2 { hash: [3u8; 32], offset: 1234, length: 56, chunk_type_flags: 0 };
    let mut out = Vec::new();
    e.write_to(&mut out);
    assert_eq!(out.len(), 45);
    let (back, _) = ChunkIndexEntryV2::read_from(&out, 0).unwrap();
    assert_eq!(back, e);
}

#[test]
fn eof_block_roundtrip() {
    let b = EofBlockV2 {
        tag: 0xFF,
        offset_metadata_repeated: 9,
        offset_chunk_index_repeated: 8,
        signature_repeated: *b"2VRTYLRP",
        overall_file_checksum: Some([5u8; 32]),
    };
    let mut out = Vec::new();
    b.write_to(&mut out);
    assert_eq!(out.len(), 57);
    let (back, _) = EofBlockV2::read_from(&out, 0, true).unwrap();
    assert_eq!(back, b);
    let (short, _) = EofBlockV2::read_from(&out, 0, false).unwrap();
    assert_eq!(short.overall_file_checksum, None);
}

#[test]
fn checksum_known_values() {
    assert_eq!(calculate_crc32(b"123456789"), 0xCBF43926);
    assert_eq!(calculate_crc32(b""), 0);
    let empty_digest = calculate_blake3_hash(b"");
    assert_eq!(empty_digest[0], 0xaf);
    assert_eq!(empty_digest[1], 0x13);
    assert_eq!(empty_digest[31], 0x62);
    assert_eq!(file_signature_v2(), *b"PRLYTRV2");
}

#[test]
fn chunk_node_hashes_the_encoding() {
    let leaf = Node::empty_leaf();
    let (h, bytes) = chunk_node(&leaf);
    assert_eq!(h, hash_bytes(&bytes));
    let back = Node::decode(&bytes).unwrap();
    assert_eq!(back.num_entries(), 0);
}

#[test]
fn file_write_read_roundtrip() {
    let chunks = sample_chunks();
    let json = b"{\"root_hash\":null}".to_vec();
    let file = write_prly_tree_v2(&chunks, &json);
    assert_eq!(&file[0..8], b"PRLYTRV2");
    let expected_size = 42 + 11 + 29 + 0 + 9 + 4 + 45 * 3 + 9 + json.len() + 57;
    assert_eq!(file.len(), expected_size);
    let (back, json_back) = read_prly_tree_v2(&file).unwrap();
    assert_eq!(json_back, json);
    assert_eq!(back.len(), 3);
    for w in back.windows(2) {
        assert!(w[0].0 < w[1].0);
    }
    for (h, data) in &chunks {
        assert!(back.iter().any(|(h2, d2)| h2 == h && d2 == data));
    }
    assert_eq!(total_chunk_data_bytes(&chunks), 40);
}

#[test]
fn file_read_rejects_corruption() {
    let chunks = sample_chunks();
    let json = b"{}".to_vec();
    let file = write_prly_tree_v2(&chunks, &json);

    assert!(matches!(read_prly_tree_v2(&file[..20]), Err(ProllyError::InvalidFileFormat(_))));

    let mut bad_sig = file.clone();
    bad_sig[0] = b'X';
    assert!(matches!(read_prly_tree_v2(&bad_sig), Err(ProllyError::InvalidFileFormat(_))));

    let mut bad_version = file.clone();
    bad_version[8] = 3;
    assert!(matches!(read_prly_tree_v2(&bad_version), Err(ProllyError::InvalidFileFormat(_))));

    let mut bad_data = file.clone();
    bad_data[42] ^= 1;
    assert!(matches!(read_prly_tree_v2(&bad_data), Err(ProllyError::ChecksumMismatch { .. })));

    let mut bad_meta = file.clone();
    let n = bad_meta.len();
    bad_meta[n - 57 - 1] ^= 1;
    assert!(matches!(read_prly_tree_v2(&bad_meta), Err(ProllyError::ChecksumMismatch { .. })));

    let truncated = &file[..file.len() - 1];
    assert!(matches!(read_prly_tree_v2(truncated), Err(ProllyError::IoError(_))));
}

#[test]
fn file_with_no_chunks() {
    let chunks: Vec<([u8; 32], Vec<u8>)> = Vec::new();
    let json = b"{}".to_vec();
    let file = write_prly_tree_v2(&chunks, &json);
    let (back, json_back) = read_prly_tree_v2(&file).unwrap();
    assert!(back.is_empty());
    assert_eq!(json_back, json);
}

#[test]
fn node_encoding_has_bincode_layout() {
    let leaf = Node::Leaf {
        level: 0,
        entries: vec![
            LeafEntry { key: b"a".to_vec(), value: ValueRepr::Inline(b"1".to_vec()) },
            LeafEntry { key: b"b".to_vec(), value: ValueRepr::Chunked([7u8; 32]) },
            LeafEntry {
                key: b"c".to_vec(),
                value: ValueRepr::ChunkedSequence { chunk_hashes: vec![[1u8; 32], [2u8; 32]], total_size: 99 },
            },
        ],
    };
    let mut expected = bincode::serialize(&(0u32, 0u8, 3u64)).unwrap();
    expected.extend(bincode::serialize(&(b"a".to_vec(), 0u32, b"1".to_vec())).unwrap());
    expected.extend(bincode::serialize(&(b"b".to_vec(), 1u32, [7u8; 32])).unwrap());
    expected.extend(bincode::serialize(&(b"c".to_vec(), 2u32, vec![[1u8; 32], [2u8; 32]], 99u64)).unwrap());
    assert_eq!(leaf.encode().unwrap(), expected);
    let decoded = Node::decode(&expected).unwrap();
    assert_eq!(decoded.encode().unwrap(), expected);

    let internal = Node::Internal {
        level: 1,
        children: vec![InternalEntry { boundary_key: b"z".to_vec(), child_hash: [3u8; 32], num_items_subtree: 5 }],
    };
    let mut expected = bincode::serialize(&(1u32, 1u8, 1u64)).unwrap();
    expected.extend(bincode::serialize(&(b"z".to_vec(), [3u8; 32], 5u64)).unwrap());
    assert_eq!(internal.encode().unwrap(), expected);
}

#[test]
fn file_bad_signature_is_named() {
    let chunks = sample_chunks();
    let json = b"{}".to_vec();
    let mut file = write_prly_tree_v2(&chunks, &json);
    file[3] = b'Z';
    match read_prly_tree_v2(&file) {
        Err(ProllyError::InvalidFileFormat(m)) => assert_eq!(m, "Invalid signature"),
        other => panic!("unexpected result: {:?}", other.is_ok()),
    }
}
