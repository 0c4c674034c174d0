//! The blocks of the version-2 tree file: a fixed-size header, the chunk
//! data, a chunk index block and a metadata block (each behind an envelope
//! with a CRC32 of its content) and an end block. Integers are big endian.
use vstd::prelude::*;
use crate::codec::{
    push_all, push_u32_be, push_u64_be, read_array32, read_array8, read_u32_be, read_u64_be,
    u32_be_bytes, u64_be_bytes,
};
use crate::common::TreeConfig;
use crate::error::{ProllyError, Result};

verus! {

pub const FORMAT_VERSION_V2: u8 = 0x02;

pub const TAG_CHUNK_INDEX_BLOCK: u8 = 0x20;

pub const TAG_METADATA_BLOCK: u8 = 0x01;

pub const TAG_EOF_BLOCK: u8 = 0xFF;

pub const CHUNK_HASH_SIZE: usize = 32;

pub const CRC32_CHECKSUM_SIZE: usize = 4;

pub const BLAKE3_CHECKSUM_SIZE: usize = 32;

/// The file signature, "PRLYTRV2".
pub open spec fn file_signature_spec() -> Seq<u8> {
    seq![0x50u8, 0x52u8, 0x4Cu8, 0x59u8, 0x54u8, 0x52u8, 0x56u8, 0x32u8]
}

/// The file signature, "PRLYTRV2".
pub fn file_signature_v2() -> (r: [u8; 8])
    ensures
        r@ == file_signature_spec(),
{
    let r: [u8; 8] = [0x50, 0x52, 0x4C, 0x59, 0x54, 0x52, 0x56, 0x32];
    assert(r@ =~= file_signature_spec());
    r
}

/// The file signature reversed, as the end block repeats it.
pub fn reversed_signature_v2() -> (r: [u8; 8])
    ensures
        r@ == file_signature_spec().reverse(),
{
    let r: [u8; 8] = [0x32, 0x56, 0x52, 0x54, 0x59, 0x4C, 0x52, 0x50];
    assert(r@ =~= file_signature_spec().reverse());
    r
}

/// The error a read past the end of the input gives.
fn short_read() -> (r: ProllyError)
    ensures
        r is IoError,
{
    ProllyError::IoError("failed to fill whole buffer".to_string())
}

/// The fixed-size header at the start of a file.
#[derive(Debug, Clone, PartialEq)]
pub struct FileHeaderV2 {
    pub signature: [u8; 8],
    pub version: u8,
    pub header_flags: u8,
    pub offset_metadata: u64,
    pub offset_chunk_index: u64,
    pub offset_eof: u64,
    pub reserved: [u8; 8],
}

/// The bytes of a header.
pub open spec fn header_bytes(h: FileHeaderV2) -> Seq<u8> {
    h.signature@ + seq![h.version, h.header_flags] + u64_be_bytes(h.offset_metadata) + u64_be_bytes(
        h.offset_chunk_index,
    ) + u64_be_bytes(h.offset_eof) + h.reserved@
}

impl FileHeaderV2 {
    /// A header with the signature, version 2, no flags and the given offsets.
    pub fn new(offset_metadata: u64, offset_chunk_index: u64, offset_eof: u64) -> (r: Self)
        ensures
            r.signature@ == file_signature_spec(),
            r.version == FORMAT_VERSION_V2,
            r.header_flags == 0,
            r.offset_metadata == offset_metadata,
            r.offset_chunk_index == offset_chunk_index,
            r.offset_eof == offset_eof,
            r.reserved@ == seq![0u8, 0u8, 0u8, 0u8, 0u8, 0u8, 0u8, 0u8],
    {
        let reserved: [u8; 8] = [0u8; 8];
        assert(reserved@ =~= seq![0u8, 0u8, 0u8, 0u8, 0u8, 0u8, 0u8, 0u8]);
        FileHeaderV2 {
            signature: file_signature_v2(),
            version: FORMAT_VERSION_V2,
            header_flags: 0,
            offset_metadata,
            offset_chunk_index,
            offset_eof,
            reserved,
        }
    }

    /// Appends the header's bytes.
    pub fn write_to(&self, writer: &mut Vec<u8>)
        ensures
            final(writer)@ == old(writer)@ + header_bytes(*self),
    {
        push_all(writer, self.signature.as_slice());
        writer.push(self.version);
        writer.push(self.header_flags);
        push_u64_be(writer, self.offset_metadata);
        push_u64_be(writer, self.offset_chunk_index);
        push_u64_be(writer, self.offset_eof);
        push_all(writer, self.reserved.as_slice());
        assert(writer@ =~= old(writer)@ + header_bytes(*self));
    }

    /// Reads a header at `pos`; fails exactly when fewer than `size()`
    /// bytes are left.
    pub fn read_from(reader: &[u8], pos: usize) -> (r: Result<(Self, usize)>)
        ensures
            r is Ok <==> pos + 42 <= reader@.len(),
            r matches Ok((h, q)) ==> q == pos + 42 && header_bytes(h) == reader@.subrange(pos as int, pos + 42),
            r matches Err(e) ==> e is IoError,
    {
        if reader.len() < 42 || pos > reader.len() - 42 {
            return Err(short_read());
        }
        let (signature, p) = match read_array8(reader, pos) {
            Some(x) => x,
            None => return Err(short_read()),
        };
        let version = reader[p];
        let header_flags = reader[p + 1];
        let (offset_metadata, p) = match read_u64_be(reader, p + 2) {
            Some(x) => x,
            None => return Err(short_read()),
        };
        let (offset_chunk_index, p) = match read_u64_be(reader, p) {
            Some(x) => x,
            None => return Err(short_read()),
        };
        let (offset_eof, p) = match read_u64_be(reader, p) {
            Some(x) => x,
            None => return Err(short_read()),
        };
        let (reserved, p) = match read_array8(reader, p) {
            Some(x) => x,
            None => return Err(short_read()),
        };
        let h = FileHeaderV2 {
            signature,
            version,
            header_flags,
            offset_metadata,
            offset_chunk_index,
            offset_eof,
            reserved,
        };
        assert(header_bytes(h) =~= reader@.subrange(pos as int, pos + 42));
        Ok((h, p))
    }

    /// The size of a header in bytes: 42.
    pub fn size() -> (r: usize)
        ensures
            r == 42,
    {
        8 + 1 + 1 + 8 + 8 + 8 + 8
    }
}

/// Where a chunk's bytes lie in the file.
#[derive(Debug, Clone, PartialEq, Eq, Hash, PartialOrd, Ord)]
pub struct ChunkIndexEntryV2 {
    pub hash: [u8; 32],
    pub offset: u64,
    pub length: u32,
    pub chunk_type_flags: u8,
}

/// The bytes of an index entry.
pub open spec fn index_entry_bytes(e: ChunkIndexEntryV2) -> Seq<u8> {
    e.hash@ + u64_be_bytes(e.offset) + u32_be_bytes(e.length) + seq![e.chunk_type_flags]
}

impl ChunkIndexEntryV2 {
    /// Appends the entry's bytes.
    pub fn write_to(&self, writer: &mut Vec<u8>)
        ensures
            final(writer)@ == old(writer)@ + index_entry_bytes(*self),
    {
        push_all(writer, self.hash.as_slice());
        push_u64_be(writer, self.offset);
        push_u32_be(writer, self.length);
        writer.push(self.chunk_type_flags);
        assert(writer@ =~= old(writer)@ + index_entry_bytes(*self));
    }

    /// Reads an entry at `pos`; fails exactly when fewer than 45 bytes are left.
    pub fn read_from(reader: &[u8], pos: usize) -> (r: Result<(Self, usize)>)
        ensures
            r is Ok <==> pos + 45 <= reader@.len(),
            r matches Ok((e, q)) ==> q == pos + 45 && index_entry_bytes(e) == reader@.subrange(pos as int, pos + 45),
            r matches Err(e) ==> e is IoError,
    {
        if reader.len() < 45 || pos > reader.len() - 45 {
            return Err(short_read());
        }
        let (hash, p) = match read_array32(reader, pos) {
            Some(x) => x,
            None => return Err(short_read()),
        };
        let (offset, p) = match read_u64_be(reader, p) {
            Some(x) => x,
            None => return Err(short_read()),
        };
        let (length, p) = match read_u32_be(reader, p) {
            Some(x) => x,
            None => return Err(short_read()),
        };
        let chunk_type_flags = reader[p];
        let e = ChunkIndexEntryV2 { hash, offset, length, chunk_type_flags };
        assert(index_entry_bytes(e) =~= reader@.subrange(pos as int, pos + 45));
        Ok((e, p + 1))
    }
}

/// What the metadata block holds (as JSON).
#[derive(Debug, Clone)]
pub struct MetadataContentV2 {
    pub root_hash: Option<[u8; 32]>,
    pub tree_config: TreeConfig,
    pub created_at: String,
    pub description: Option<String>,
    pub total_chunk_data_bytes: u64,
}

/// The block at the end of a file: offsets and signature repeated, and the
/// Blake3 digest of everything before it.
#[derive(Debug, Clone, PartialEq)]
pub struct EofBlockV2 {
    pub tag: u8,
    pub offset_metadata_repeated: u64,
    pub offset_chunk_index_repeated: u64,
    pub signature_repeated: [u8; 8],
    pub overall_file_checksum: Option<[u8; 32]>,
}

/// The bytes of an end block: the digest, when there is one, comes last.
pub open spec fn eof_bytes(b: EofBlockV2) -> Seq<u8> {
    seq![b.tag] + u64_be_bytes(b.offset_metadata_repeated) + u64_be_bytes(b.offset_chunk_index_repeated)
        + b.signature_repeated@ + match b.overall_file_checksum {
        Some(c) => c@,
        None => Seq::empty(),
    }
}

impl EofBlockV2 {
    /// Appends the block's bytes.
    pub fn write_to(&self, writer: &mut Vec<u8>)
        ensures
            final(writer)@ == old(writer)@ + eof_bytes(*self),
    {
        writer.push(self.tag);
        push_u64_be(writer, self.offset_metadata_repeated);
        push_u64_be(writer, self.offset_chunk_index_repeated);
        push_all(writer, self.signature_repeated.as_slice());
        match &self.overall_file_checksum {
            Some(checksum) => push_all(writer, checksum.as_slice()),
            None => {},
        }
        assert(writer@ =~= old(writer)@ + eof_bytes(*self));
    }

    /// Reads an end block at `pos`, with a digest when `has_overall_checksum`;
    /// fails exactly when too few bytes are left (25, or 57 with a digest).
    pub fn read_from(reader: &[u8], pos: usize, has_overall_checksum: bool) -> (r: Result<(Self, usize)>)
        ensures
            ({
                let n: int = if has_overall_checksum {
                    57
                } else {
                    25
                };
                &&& r is Ok <==> pos + n <= reader@.len()
                &&& r matches Ok((b, q)) ==> {
                    &&& q == pos + n
                    &&& b.overall_file_checksum is Some == has_overall_checksum
                    &&& eof_bytes(b) == reader@.subrange(pos as int, pos + n)
                }
                &&& r matches Err(e) ==> e is IoError
            }),
    {
        let n: usize = if has_overall_checksum {
            57
        } else {
            25
        };
        if reader.len() < n || pos > reader.len() - n {
            return Err(short_read());
        }
        let tag = reader[pos];
        let (offset_metadata_repeated, p) = match read_u64_be(reader, pos + 1) {
            Some(x) => x,
            None => return Err(short_read()),
        };
        let (offset_chunk_index_repeated, p) = match read_u64_be(reader, p) {
            Some(x) => x,
            None => return Err(short_read()),
        };
        let (signature_repeated, p) = match read_array8(reader, p) {
            Some(x) => x,
            None => return Err(short_read()),
        };
        let (overall_file_checksum, p) = if has_overall_checksum {
            match read_array32(reader, p) {
                Some((c, q)) => (Some(c), q),
                None => return Err(short_read()),
            }
        } else {
            (None, p)
        };
        let b = EofBlockV2 {
            tag,
            offset_metadata_repeated,
            offset_chunk_index_repeated,
            signature_repeated,
            overall_file_checksum,
        };
        assert(eof_bytes(b) =~= reader@.subrange(pos as int, pos + n));
        Ok((b, p))
    }
}

/// The envelope before a content block: its tag, the content's length and
/// the content's CRC32.
pub struct ContentBlockEnvelope {
    pub tag: u8,
    pub content_length: u32,
    pub content_checksum: u32,
}

/// The bytes of an envelope.
pub open spec fn envelope_bytes(e: ContentBlockEnvelope) -> Seq<u8> {
    seq![e.tag] + u32_be_bytes(e.content_length) + u32_be_bytes(e.content_checksum)
}

impl ContentBlockEnvelope {
    pub fn new(tag: u8, content_length: u32, content_checksum: u32) -> (r: Self)
        ensures
            r.tag == tag,
            r.content_length == content_length,
            r.content_checksum == content_checksum,
    {
        ContentBlockEnvelope { tag, content_length, content_checksum }
    }

    /// Appends the envelope's bytes.
    pub fn write_to(&self, writer: &mut Vec<u8>)
        ensures
            final(writer)@ == old(writer)@ + envelope_bytes(*self),
    {
        writer.push(self.tag);
        push_u32_be(writer, self.content_length);
        push_u32_be(writer, self.content_checksum);
        assert(writer@ =~= old(writer)@ + envelope_bytes(*self));
    }

    /// Reads an envelope at `pos`; fails exactly when fewer than `size()`
    /// bytes are left.
    pub fn read_from(reader: &[u8], pos: usize) -> (r: Result<(Self, usize)>)
        ensures
            r is Ok <==> pos + 9 <= reader@.len(),
            r matches Ok((e, q)) ==> q == pos + 9 && envelope_bytes(e) == reader@.subrange(pos as int, pos + 9),
            r matches Err(e) ==> e is IoError,
    {
        if reader.len() < 9 || pos > reader.len() - 9 {
            return Err(short_read());
        }
        let tag = reader[pos];
        let (content_length, p) = match read_u32_be(reader, pos + 1) {
            Some(x) => x,
            None => return Err(short_read()),
        };
        let (content_checksum, p) = match read_u32_be(reader, p) {
            Some(x) => x,
            None => return Err(short_read()),
        };
        let e = ContentBlockEnvelope { tag, content_length, content_checksum };
        assert(envelope_bytes(e) =~= reader@.subrange(pos as int, pos + 9));
        Ok((e, p))
    }

    /// The size of an envelope in bytes: 9.
    pub fn size() -> (r: usize)
        ensures
            r == 9,
    {
        1 + 4 + 4
    }
}

/// `n` bit steps of the reflected CRC-32 register (polynomial 0xEDB88320).
pub open spec fn crc32_bits(c: u32, n: nat) -> u32
    decreases n,
{
    if n == 0 {
        c
    } else {
        let shifted: u32 = c >> 1u32;
        let next: u32 = if c & 1u32 == 1u32 {
            shifted ^ 0xEDB8_8320u32
        } else {
            shifted
        };
        crc32_bits(next, (n - 1) as nat)
    }
}

/// The CRC-32 register after feeding `data`, one byte (eight bit steps) at a time.
pub open spec fn crc32_update(c: u32, data: Seq<u8>) -> u32
    decreases data.len(),
{
    if data.len() == 0 {
        c
    } else {
        crc32_update(crc32_bits(c ^ (data[0] as u32), 8), data.drop_first())
    }
}

/// The CRC-32 (IEEE) of a byte string: reflected, polynomial 0xEDB88320,
/// register starting at 0xFFFFFFFF and inverted at the end.
pub open spec fn spec_crc32(data: Seq<u8>) -> u32 {
    crc32_update(0xFFFF_FFFFu32, data) ^ 0xFFFF_FFFFu32
}

/// CRC32 of `data`, through `crc32fast::Hasher` (`new`, `update`,
/// `finalize`). The contract claims that the result is the CRC-32 (IEEE)
/// of the input as `spec_crc32` defines it.
#[verifier::external_body]
pub fn calculate_crc32(data: &[u8]) -> (r: u32)
    ensures
        r == spec_crc32(data@),
{
    let mut hasher = crc32fast::Hasher::new();
    hasher.update(data);
    hasher.finalize()
}

/// The Blake3 digest of `data`.
pub fn calculate_blake3_hash(data: &[u8]) -> (r: [u8; 32])
    ensures
        r@ == crate::chunk::spec_blake3(data@),
{
    crate::chunk::hash_bytes(data)
}

} // verus!
