//! Chunk header and footer: bit-exact little-endian serialization at fixed
//! field offsets, and the Fletcher32-sealed footer that serves as a chunk's
//! commit marker.
//!
//! Both structures occupy exactly 96 bytes on disk; bytes past the last
//! field are reserved zeros so that new fields can only ever be appended.

use vstd::prelude::*;
use vstd::bytes::lemma_auto_spec_u32_to_from_le_bytes;
use vstd::bytes::lemma_auto_spec_u64_to_from_le_bytes;
use vstd::bytes::spec_u32_from_le_bytes;
use vstd::bytes::spec_u32_to_le_bytes;
use vstd::bytes::spec_u64_from_le_bytes;
use vstd::bytes::spec_u64_to_le_bytes;
use crate::checksum::fletcher32_spec;
use crate::checksum::get_fletcher32;
use crate::error::StorageError;
use crate::wire::push_u32;
use crate::wire::push_u64;
use crate::wire::push_zeros;
use crate::wire::read_u32;
use crate::wire::read_u64;
use crate::wire::zero_bytes;

verus! {

/// Serialized size of a chunk header or footer in bytes.
pub const CHUNK_MARGIN_SIZE: usize = 96;

/// The four ASCII bytes `"KNCH"` that open every chunk header.
pub open spec fn chunk_magic() -> Seq<u8> {
    seq![0x4Bu8, 0x4Eu8, 0x43u8, 0x48u8]
}

/// Chunk header.  Field order and offsets are fixed for compatibility:
/// existing fields are never reordered, resized or deleted, and new fields
/// may only be appended before the reserved tail.
#[derive(Clone, Copy, Debug)]
pub struct ChunkHeader {
    pub magic: [u8; 4],
    pub id: u32,
    pub length: u32,
    pub version: u64,
    pub time: u64,
    pub max_length: u32,
    pub page_count: u32,
    pub pin_count: u32,
    pub table_of_content_position: u32,
    pub layout_root_position: u64,
    pub map_id: u32,
    pub next: u64,
}

/// Chunk footer: the commit marker.  Its first 16 bytes are covered by the
/// Fletcher32 checksum stored at offset 16.
#[derive(Clone, Copy, Debug)]
pub struct ChunkFooter {
    pub id: u32,
    pub length: u32,
    pub version: u64,
    pub checksum: u32,
}

/// The 96 serialized bytes of a header: magic at 0, id at 4, length at 8,
/// version at 12, time at 20, max_length at 28, page_count at 32,
/// pin_count at 36, table_of_content_position at 40, layout_root_position
/// at 44, map_id at 52, next at 56, reserved zeros from 64.
pub open spec fn header_bytes(h: ChunkHeader) -> Seq<u8> {
    chunk_magic() + spec_u32_to_le_bytes(h.id) + spec_u32_to_le_bytes(h.length)
        + spec_u64_to_le_bytes(h.version) + spec_u64_to_le_bytes(h.time) + spec_u32_to_le_bytes(
        h.max_length,
    ) + spec_u32_to_le_bytes(h.page_count) + spec_u32_to_le_bytes(h.pin_count)
        + spec_u32_to_le_bytes(h.table_of_content_position) + spec_u64_to_le_bytes(
        h.layout_root_position,
    ) + spec_u32_to_le_bytes(h.map_id) + spec_u64_to_le_bytes(h.next) + zero_bytes(32)
}

/// Field-for-field meaning of a decoded header: every field of `h` equals
/// the little-endian value at its fixed offset in `bytes`.
pub open spec fn parse_header_ok(bytes: Seq<u8>, h: ChunkHeader) -> bool {
    &&& h.magic@ == bytes.subrange(0, 4)
    &&& h.id == spec_u32_from_le_bytes(bytes.subrange(4, 8))
    &&& h.length == spec_u32_from_le_bytes(bytes.subrange(8, 12))
    &&& h.version == spec_u64_from_le_bytes(bytes.subrange(12, 20))
    &&& h.time == spec_u64_from_le_bytes(bytes.subrange(20, 28))
    &&& h.max_length == spec_u32_from_le_bytes(bytes.subrange(28, 32))
    &&& h.page_count == spec_u32_from_le_bytes(bytes.subrange(32, 36))
    &&& h.pin_count == spec_u32_from_le_bytes(bytes.subrange(36, 40))
    &&& h.table_of_content_position == spec_u32_from_le_bytes(bytes.subrange(40, 44))
    &&& h.layout_root_position == spec_u64_from_le_bytes(bytes.subrange(44, 52))
    &&& h.map_id == spec_u32_from_le_bytes(bytes.subrange(52, 56))
    &&& h.next == spec_u64_from_le_bytes(bytes.subrange(56, 64))
}

impl ChunkHeader {
    /// Serializes the header to its 96-byte on-disk form.  The magic field
    /// of the output is always `"KNCH"`, whatever `self.magic` holds.
    pub fn serialize_header(&self) -> (r: Vec<u8>)
        ensures
            r@ == header_bytes(*self),
            r@.len() == 96,
    {
        proof {
            lemma_auto_spec_u32_to_from_le_bytes();
            lemma_auto_spec_u64_to_from_le_bytes();
        }
        let mut out: Vec<u8> = Vec::new();
        out.push(0x4B);
        out.push(0x4E);
        out.push(0x43);
        out.push(0x48);
        proof {
            assert(out@ =~= chunk_magic());
        }
        push_u32(&mut out, self.id);
        push_u32(&mut out, self.length);
        push_u64(&mut out, self.version);
        push_u64(&mut out, self.time);
        push_u32(&mut out, self.max_length);
        push_u32(&mut out, self.page_count);
        push_u32(&mut out, self.pin_count);
        push_u32(&mut out, self.table_of_content_position);
        push_u64(&mut out, self.layout_root_position);
        push_u32(&mut out, self.map_id);
        push_u64(&mut out, self.next);
        push_zeros(&mut out, 32);
        out
    }

    /// Decodes a 96-byte buffer into a header; any other size is corrupt.
    pub fn deserialize_header(bytes: &[u8]) -> (r: Result<ChunkHeader, StorageError>)
        ensures
            bytes@.len() != 96 ==> r == Err::<ChunkHeader, StorageError>(StorageError::Corrupt),
            bytes@.len() == 96 ==> (r matches Ok(h) && parse_header_ok(bytes@, h)),
    {
        if bytes.len() != 96 {
            return Err(StorageError::Corrupt);
        }
        let magic: [u8; 4] = [bytes[0], bytes[1], bytes[2], bytes[3]];
        proof {
            assert(magic@ =~= bytes@.subrange(0, 4));
        }
        Ok(
            ChunkHeader {
                magic,
                id: read_u32(bytes, 4),
                length: read_u32(bytes, 8),
                version: read_u64(bytes, 12),
                time: read_u64(bytes, 20),
                max_length: read_u32(bytes, 28),
                page_count: read_u32(bytes, 32),
                pin_count: read_u32(bytes, 36),
                table_of_content_position: read_u32(bytes, 40),
                layout_root_position: read_u64(bytes, 44),
                map_id: read_u32(bytes, 52),
                next: read_u64(bytes, 56),
            },
        )
    }
}

/// Decoding inverts encoding for headers: a header decoded from
/// `header_bytes(h)` carries the fields of `h`, with the magic pinned to
/// `"KNCH"` (the reserved tail bytes are zero and carry nothing).
pub proof fn lemma_header_roundtrip(h: ChunkHeader, h2: ChunkHeader)
    requires
        parse_header_ok(header_bytes(h), h2),
    ensures
        h2.magic@ == chunk_magic(),
        h2.id == h.id,
        h2.length == h.length,
        h2.version == h.version,
        h2.time == h.time,
        h2.max_length == h.max_length,
        h2.page_count == h.page_count,
        h2.pin_count == h.pin_count,
        h2.table_of_content_position == h.table_of_content_position,
        h2.layout_root_position == h.layout_root_position,
        h2.map_id == h.map_id,
        h2.next == h.next,
        header_bytes(h).len() == 96,
{
    lemma_auto_spec_u32_to_from_le_bytes();
    lemma_auto_spec_u64_to_from_le_bytes();
    let b = header_bytes(h);
    assert(b.subrange(0, 4) =~= chunk_magic());
    assert(b.subrange(4, 8) =~= spec_u32_to_le_bytes(h.id));
    assert(b.subrange(8, 12) =~= spec_u32_to_le_bytes(h.length));
    assert(b.subrange(12, 20) =~= spec_u64_to_le_bytes(h.version));
    assert(b.subrange(20, 28) =~= spec_u64_to_le_bytes(h.time));
    assert(b.subrange(28, 32) =~= spec_u32_to_le_bytes(h.max_length));
    assert(b.subrange(32, 36) =~= spec_u32_to_le_bytes(h.page_count));
    assert(b.subrange(36, 40) =~= spec_u32_to_le_bytes(h.pin_count));
    assert(b.subrange(40, 44) =~= spec_u32_to_le_bytes(h.table_of_content_position));
    assert(b.subrange(44, 52) =~= spec_u64_to_le_bytes(h.layout_root_position));
    assert(b.subrange(52, 56) =~= spec_u32_to_le_bytes(h.map_id));
    assert(b.subrange(56, 64) =~= spec_u64_to_le_bytes(h.next));
}

/// The 16 checksummed bytes of a footer: id at 0, length at 4, version at 8.
pub open spec fn footer_core_bytes(f: ChunkFooter) -> Seq<u8> {
    spec_u32_to_le_bytes(f.id) + spec_u32_to_le_bytes(f.length) + spec_u64_to_le_bytes(f.version)
}

/// The 96 serialized bytes of a footer: the core fields, the Fletcher32
/// checksum of those 16 bytes at offset 16, then reserved zeros.
pub open spec fn footer_bytes(f: ChunkFooter) -> Seq<u8> {
    footer_core_bytes(f) + spec_u32_to_le_bytes(fletcher32_spec(footer_core_bytes(f)))
        + zero_bytes(76)
}

/// Field-for-field meaning of a decoded footer.
pub open spec fn parse_footer_ok(bytes: Seq<u8>, f: ChunkFooter) -> bool {
    &&& f.id == spec_u32_from_le_bytes(bytes.subrange(0, 4))
    &&& f.length == spec_u32_from_le_bytes(bytes.subrange(4, 8))
    &&& f.version == spec_u64_from_le_bytes(bytes.subrange(8, 16))
    &&& f.checksum == spec_u32_from_le_bytes(bytes.subrange(16, 20))
}

/// A 96-byte buffer passes footer verification when the checksum stored at
/// offset 16 matches the Fletcher32 sum of its first 16 bytes.
pub open spec fn footer_verifies(bytes: Seq<u8>) -> bool {
    &&& bytes.len() == 96
    &&& spec_u32_from_le_bytes(bytes.subrange(16, 20)) == fletcher32_spec(bytes.subrange(0, 16))
}

impl ChunkFooter {
    /// Serializes the footer to its 96-byte on-disk form, computing the
    /// checksum over the first 16 bytes; `self.checksum` is not consulted.
    pub fn serialize_footer(&self) -> (r: Vec<u8>)
        ensures
            r@ == footer_bytes(*self),
            r@.len() == 96,
    {
        proof {
            lemma_auto_spec_u32_to_from_le_bytes();
            lemma_auto_spec_u64_to_from_le_bytes();
        }
        let mut out: Vec<u8> = Vec::new();
        push_u32(&mut out, self.id);
        push_u32(&mut out, self.length);
        push_u64(&mut out, self.version);
        proof {
            assert(out@.subrange(0, 16) =~= footer_core_bytes(*self));
        }
        let checksum: u32 = get_fletcher32(out.as_slice(), 0, 16);
        push_u32(&mut out, checksum);
        push_zeros(&mut out, 76);
        out
    }

    /// Decodes a 96-byte buffer into a footer, including its stored
    /// checksum; any other size is corrupt.  Checksum verification is the
    /// caller's responsibility (see [`ChunkFooter::verify_footer`]).
    pub fn deserialize_footer(bytes: &[u8]) -> (r: Result<ChunkFooter, StorageError>)
        ensures
            bytes@.len() != 96 ==> r == Err::<ChunkFooter, StorageError>(StorageError::Corrupt),
            bytes@.len() == 96 ==> (r matches Ok(f) && parse_footer_ok(bytes@, f)),
    {
        if bytes.len() != 96 {
            return Err(StorageError::Corrupt);
        }
        Ok(
            ChunkFooter {
                id: read_u32(bytes, 0),
                length: read_u32(bytes, 4),
                version: read_u64(bytes, 8),
                checksum: read_u32(bytes, 16),
            },
        )
    }

    /// Recomputes the Fletcher32 sum of the first 16 bytes and compares it
    /// with the checksum stored at offset 16; a buffer of any size other
    /// than 96 fails outright.  A chunk whose footer fails this check is
    /// uncommitted.
    pub fn verify_footer(bytes: &[u8]) -> (r: bool)
        ensures
            r == footer_verifies(bytes@),
    {
        if bytes.len() != 96 {
            return false;
        }
        let stored: u32 = read_u32(bytes, 16);
        let computed: u32 = get_fletcher32(bytes, 0, 16);
        stored == computed
    }
}

/// Decoding inverts encoding for footers, and a footer fresh from
/// `footer_bytes` always passes verification: the decoded fields equal the
/// originals, and the decoded checksum is the Fletcher32 sum of the
/// serialized core bytes.
pub proof fn lemma_footer_roundtrip(f: ChunkFooter, f2: ChunkFooter)
    requires
        parse_footer_ok(footer_bytes(f), f2),
    ensures
        f2.id == f.id,
        f2.length == f.length,
        f2.version == f.version,
        f2.checksum == fletcher32_spec(footer_core_bytes(f)),
        footer_bytes(f).len() == 96,
        footer_verifies(footer_bytes(f)),
{
    lemma_auto_spec_u32_to_from_le_bytes();
    lemma_auto_spec_u64_to_from_le_bytes();
    let b = footer_bytes(f);
    assert(b.subrange(0, 4) =~= spec_u32_to_le_bytes(f.id));
    assert(b.subrange(4, 8) =~= spec_u32_to_le_bytes(f.length));
    assert(b.subrange(8, 16) =~= spec_u64_to_le_bytes(f.version));
    assert(b.subrange(16, 20) =~= spec_u32_to_le_bytes(fletcher32_spec(footer_core_bytes(f))));
    assert(b.subrange(0, 16) =~= footer_core_bytes(f));
}

} // verus!
