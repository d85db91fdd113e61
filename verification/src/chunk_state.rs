//! In-memory chunk state: page accounting, the occupancy bitmap, the
//! serialization buffer, and the lifecycle predicates that drive garbage
//! collection and compaction.
//!
//! The occupancy bitmap is a `bitvec` bit vector with one bit per page of
//! the chunk (a set bit marks a deleted page); the pre-persist buffer is a
//! `bytes` buffer.  Both are opaque to the verifier and are reached only
//! through the trusted wrappers below.

use vstd::prelude::*;
use vstd::bytes::spec_u32_to_le_bytes;
use vstd::bytes::spec_u64_to_le_bytes;
use crate::checksum::fletcher32_spec;
use crate::chunk::ChunkFooter;
use crate::chunk::ChunkHeader;
use crate::chunk::chunk_magic;
use crate::chunk::footer_core_bytes;
use crate::wire::zero_bytes;

verus! {

#[verifier::external_type_specification]
#[verifier::external_body]
pub struct ExBytes(bytes::Bytes);

/// A chunk's occupancy bitmap: a `bitvec` bit vector with one bit per
/// page, opaque to the verifier and reached only through the trusted
/// wrappers below.
#[verifier::external_body]
pub struct Occupancy {
    bits: bitvec::vec::BitVec<usize, bitvec::order::Lsb0>,
}

/// The bits held by an occupancy bitmap, in index order.
pub uninterp spec fn occupancy_bits(v: &Occupancy) -> Seq<bool>;

/// The bytes held by a pre-persist buffer.
pub uninterp spec fn buffer_bytes(b: &bytes::Bytes) -> Seq<u8>;

/// Relies on bitvec's `BitVec::new`: the new vector holds no bits.
#[verifier::external_body]
fn bitvec_new() -> (v: Occupancy)
    ensures
        occupancy_bits(&v) == Seq::<bool>::empty(),
{
    Occupancy { bits: bitvec::vec::BitVec::new() }
}

/// Relies on bitvec's `BitVec::push`: appends one bit; far below the
/// crate's capacity ceiling no reallocation can fail to fit.
#[verifier::external_body]
fn bitvec_push(v: &mut Occupancy, bit: bool)
    requires
        occupancy_bits(&*old(v)).len() < 0x4000000,
    ensures
        occupancy_bits(&*final(v)) == occupancy_bits(&*old(v)).push(bit),
{
    v.bits.push(bit)
}

/// Relies on bitvec's `BitSlice::set`: writes the bit at `index` in place.
#[verifier::external_body]
fn bitvec_set(v: &mut Occupancy, index: usize, bit: bool)
    requires
        index < occupancy_bits(&*old(v)).len(),
    ensures
        occupancy_bits(&*final(v)) == occupancy_bits(&*old(v)).update(index as int, bit),
{
    v.bits.set(index, bit)
}

/// Relies on bitvec's `BitSlice::count_ones`: the number of set bits.
#[verifier::external_body]
fn bitvec_count_ones(v: &Occupancy) -> (n: usize)
    ensures
        n == count_true(occupancy_bits(v)),
{
    v.bits.count_ones()
}

/// Relies on bytes' `Bytes::new`: the new buffer is empty.
#[verifier::external_body]
fn bytes_new() -> (b: bytes::Bytes)
    ensures
        buffer_bytes(&b) == Seq::<u8>::empty(),
{
    bytes::Bytes::new()
}

/// Relies on bytes' `Bytes::is_empty`: true exactly when the length is 0.
#[verifier::external_body]
fn bytes_is_empty(b: &bytes::Bytes) -> (r: bool)
    ensures
        r == (buffer_bytes(b).len() == 0),
{
    b.is_empty()
}

/// How many entries of a bit sequence are set.
pub open spec fn count_true(s: Seq<bool>) -> nat
    decreases s.len(),
{
    if s.len() == 0 {
        0
    } else {
        count_true(s.drop_last()) + if s.last() {
            1nat
        } else {
            0nat
        }
    }
}

/// Appending a bit raises the count by one exactly when the bit is set.
pub proof fn lemma_count_true_push(s: Seq<bool>, b: bool)
    ensures
        count_true(s.push(b)) == count_true(s) + if b {
            1nat
        } else {
            0nat
        },
{
    assert(s.push(b).drop_last() =~= s);
}

/// Rewriting one entry moves the count by the difference of the old and
/// new bit.
pub proof fn lemma_count_true_update(s: Seq<bool>, i: int, b: bool)
    requires
        0 <= i < s.len(),
    ensures
        count_true(s.update(i, b)) + if s[i] {
            1nat
        } else {
            0nat
        } == count_true(s) + if b {
            1nat
        } else {
            0nat
        },
    decreases s.len(),
{
    if i == s.len() - 1 {
        assert(s.update(i, b).drop_last() =~= s.drop_last());
    } else {
        assert(s.update(i, b).drop_last() =~= s.drop_last().update(i, b));
        lemma_count_true_update(s.drop_last(), i, b);
    }
}

/// A chunk: a block-aligned, append-once container for a set of pages,
/// wrapped on disk by a header and a checksummed footer.
pub struct Chunk {
    /// Unique chunk identifier, at most `Chunk::MAX_ID`.
    pub id: u32,
    /// Version stored in this chunk.
    pub version: u64,
    /// Creation time in milliseconds since store creation.
    pub time: u64,
    /// Length in 4096-byte blocks.
    pub length: u32,
    /// Byte offset of the chunk in the file; 0 means not yet allocated.
    pub block: u64,
    /// Total number of pages stored in the chunk.
    pub page_count: u32,
    /// Number of pages still alive (not deleted) in the latest version.
    pub page_count_live: u32,
    /// Byte offset of the table of contents inside the chunk.
    pub table_of_content_position: u32,
    /// One bit per page; a set bit marks a deleted page.
    pub occupancy: Occupancy,
    /// Sum of the maximum lengths of all pages in the chunk.
    pub max_length: u32,
    /// Sum of the maximum lengths of the live pages only.
    pub max_length_live: u32,
    /// Garbage-collection priority; 0 collects first.
    pub collect_priority: u16,
    /// Time the chunk became unused, in milliseconds; 0 while still used.
    pub unused: u64,
    /// Store version at which the chunk became unused.
    pub unused_at_version: u64,
    /// Number of live-pinned pages; non-zero pins forbid evacuation.
    pub pin_count: u32,
    /// Position of the root page of the layout map within the chunk.
    pub layout_root_position: u64,
    /// The last allocated map id.
    pub map_id: u32,
    /// Predicted byte position of the next chunk.
    pub next: u64,
    /// Serialized content awaiting persistence; emptied once saved.
    pub buffer: bytes::Bytes,
}

impl Chunk {
    /// Largest admissible chunk id: 2^26 - 1.
    pub const MAX_ID: u32 = 0x3FFFFFF;

    /// Structural soundness of the page accounting: the bitmap has one bit
    /// per page, dead pages never outnumber pages, and the set bits count
    /// exactly the dead pages.
    pub open spec fn wf(&self) -> bool {
        &&& self.id <= 0x3FFFFFF
        &&& self.page_count_live <= self.page_count
        &&& occupancy_bits(&self.occupancy).len() == self.page_count
        &&& count_true(occupancy_bits(&self.occupancy)) == self.page_count - self.page_count_live
    }

    /// A fresh, unallocated, empty chunk.
    pub fn new(id: u32) -> (c: Chunk)
        requires
            id <= 0x3FFFFFF,
        ensures
            c.wf(),
            c.id == id,
            c.version == 0,
            c.time == 0,
            c.length == 0,
            c.block == 0,
            c.page_count == 0,
            c.page_count_live == 0,
            c.table_of_content_position == 0,
            c.max_length == 0,
            c.max_length_live == 0,
            c.collect_priority == 0,
            c.unused == 0,
            c.unused_at_version == 0,
            c.pin_count == 0,
            c.layout_root_position == 0,
            c.map_id == 0,
            c.next == 0,
            occupancy_bits(&c.occupancy) == Seq::<bool>::empty(),
            buffer_bytes(&c.buffer).len() == 0,
    {
        Chunk {
            id,
            version: 0,
            time: 0,
            length: 0,
            block: 0,
            page_count: 0,
            page_count_live: 0,
            table_of_content_position: 0,
            occupancy: bitvec_new(),
            max_length: 0,
            max_length_live: 0,
            collect_priority: 0,
            unused: 0,
            unused_at_version: 0,
            pin_count: 0,
            layout_root_position: 0,
            map_id: 0,
            next: 0,
            buffer: bytes_new(),
        }
    }

    /// Records one more page in the chunk, live by default: the bitmap
    /// grows by one clear bit and both page counters advance.
    pub fn append_page(&mut self)
        requires
            old(self).wf(),
            old(self).page_count < 0x3FFFFFF,
        ensures
            final(self).wf(),
            final(self).page_count == old(self).page_count + 1,
            final(self).page_count_live == old(self).page_count_live + 1,
            occupancy_bits(&final(self).occupancy) == occupancy_bits(&old(self).occupancy).push(
                false,
            ),
            final(self).id == old(self).id,
            final(self).pin_count == old(self).pin_count,
            final(self).block == old(self).block,
    {
        proof {
            lemma_count_true_push(occupancy_bits(&self.occupancy), false);
        }
        bitvec_push(&mut self.occupancy, false);
        self.page_count = self.page_count + 1;
        self.page_count_live = self.page_count_live + 1;
    }

    /// Marks the page at `page_number` deleted: its occupancy bit is set
    /// and the live count drops by one.  The page must currently be live.
    pub fn mark_page_deleted(&mut self, page_number: u32)
        requires
            old(self).wf(),
            page_number < old(self).page_count,
            !occupancy_bits(&old(self).occupancy)[page_number as int],
        ensures
            final(self).wf(),
            final(self).page_count == old(self).page_count,
            final(self).page_count_live == old(self).page_count_live - 1,
            occupancy_bits(&final(self).occupancy) == occupancy_bits(
                &old(self).occupancy,
            ).update(page_number as int, true),
            final(self).id == old(self).id,
            final(self).pin_count == old(self).pin_count,
            final(self).block == old(self).block,
    {
        proof {
            lemma_count_true_update(occupancy_bits(&self.occupancy), page_number as int, true);
            lemma_count_true_lt_len(occupancy_bits(&self.occupancy), page_number as int);
        }
        bitvec_set(&mut self.occupancy, page_number as usize, true);
        self.page_count_live = self.page_count_live - 1;
    }

    /// Empties the pre-persist buffer, as happens right after the chunk's
    /// bytes reach the file; every other field is untouched.
    pub fn clear_buffer(&mut self)
        ensures
            buffer_bytes(&final(self).buffer).len() == 0,
            *final(self) == (Chunk { buffer: final(self).buffer, ..*old(self) }),
    {
        self.buffer = bytes_new();
    }

    /// Serializes the chunk's persistent identity as its on-disk header.
    pub fn serialize_header(&self) -> (r: Vec<u8>)
        ensures
            r@ == chunk_magic() + spec_u32_to_le_bytes(self.id) + spec_u32_to_le_bytes(self.length)
                + spec_u64_to_le_bytes(self.version) + spec_u64_to_le_bytes(self.time)
                + spec_u32_to_le_bytes(self.max_length) + spec_u32_to_le_bytes(self.page_count)
                + spec_u32_to_le_bytes(self.pin_count) + spec_u32_to_le_bytes(
                self.table_of_content_position,
            ) + spec_u64_to_le_bytes(self.layout_root_position) + spec_u32_to_le_bytes(self.map_id)
                + spec_u64_to_le_bytes(self.next) + zero_bytes(32),
            r@.len() == 96,
    {
        let header = ChunkHeader {
            magic: [0x4Bu8, 0x4Eu8, 0x43u8, 0x48u8],
            id: self.id,
            length: self.length,
            version: self.version,
            time: self.time,
            max_length: self.max_length,
            page_count: self.page_count,
            pin_count: self.pin_count,
            table_of_content_position: self.table_of_content_position,
            layout_root_position: self.layout_root_position,
            map_id: self.map_id,
            next: self.next,
        };
        header.serialize_header()
    }

    /// Serializes the chunk's commit marker: its on-disk footer, sealed
    /// by the Fletcher32 checksum of the first 16 bytes.
    pub fn serialize_footer(&self) -> (r: Vec<u8>)
        ensures
            ({
                let core = spec_u32_to_le_bytes(self.id) + spec_u32_to_le_bytes(self.length)
                    + spec_u64_to_le_bytes(self.version);
                r@ == core + spec_u32_to_le_bytes(fletcher32_spec(core)) + zero_bytes(76)
            }),
            r@.len() == 96,
    {
        let footer = ChunkFooter {
            id: self.id,
            length: self.length,
            version: self.version,
            checksum: 0,
        };
        let r = footer.serialize_footer();
        proof {
            assert(footer_core_bytes(footer) == spec_u32_to_le_bytes(self.id)
                + spec_u32_to_le_bytes(self.length) + spec_u64_to_le_bytes(self.version));
        }
        r
    }

    /// Number of deleted pages, counted from the occupancy bitmap; in a
    /// well-formed chunk it equals the gap between the page counters.
    pub fn dead_page_count(&self) -> (n: usize)
        requires
            self.wf(),
        ensures
            n == self.page_count - self.page_count_live,
    {
        bitvec_count_ones(&self.occupancy)
    }

    /// The chunk has a place in the file.
    pub fn is_allocated(&self) -> (r: bool)
        ensures
            r == (self.block != 0),
    {
        self.block != 0
    }

    /// The chunk is allocated and its buffer has been persisted.
    pub fn is_saved(&self) -> (r: bool)
        ensures
            r == (self.block != 0 && buffer_bytes(&self.buffer).len() == 0),
    {
        self.block != 0 && bytes_is_empty(&self.buffer)
    }

    /// At least one page of the chunk is still alive.
    pub fn is_live(&self) -> (r: bool)
        ensures
            r == (self.page_count_live > 0),
    {
        self.page_count_live > 0
    }

    /// No pinned pages, so the chunk's live pages may be moved out.
    pub fn is_evacutable(&self) -> (r: bool)
        ensures
            r == (self.pin_count == 0),
    {
        self.pin_count == 0
    }

    /// Saved, live, evacuable and not fully occupied: compaction may
    /// rewrite this chunk.
    pub fn is_rewritable(&self) -> (r: bool)
        ensures
            r == (self.block != 0 && buffer_bytes(&self.buffer).len() == 0
                && self.page_count_live > 0 && self.pin_count == 0 && self.page_count_live
                < self.page_count),
    {
        self.is_saved() && self.is_live() && self.is_evacutable() && (self.page_count_live
            < self.page_count)
    }
}

/// No more bits are set than there are bits.
pub proof fn lemma_count_true_le_len(s: Seq<bool>)
    ensures
        count_true(s) <= s.len(),
    decreases s.len(),
{
    if s.len() > 0 {
        lemma_count_true_le_len(s.drop_last());
    }
}

/// A sequence with at least one clear bit has fewer set bits than bits.
pub proof fn lemma_count_true_lt_len(s: Seq<bool>, i: int)
    requires
        0 <= i < s.len(),
        !s[i],
    ensures
        count_true(s) < s.len(),
    decreases s.len(),
{
    if i == s.len() - 1 {
        lemma_count_true_le_len(s.drop_last());
    } else {
        lemma_count_true_lt_len(s.drop_last(), i);
    }
}

/// Occupancy bookkeeping of a well-formed chunk: dead pages never
/// outnumber pages, and the bitmap's set bits count exactly the dead
/// pages.
pub proof fn lemma_chunk_occupancy(c: &Chunk)
    requires
        c.wf(),
    ensures
        c.page_count_live <= c.page_count,
        occupancy_bits(&c.occupancy).len() == c.page_count,
        count_true(occupancy_bits(&c.occupancy)) == c.page_count - c.page_count_live,
{
}

} // verus!
