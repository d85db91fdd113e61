//! Slotted 4 KiB pages: a 24-byte header, a slot directory growing upward
//! from the header, and a record heap growing downward from the end of the
//! page.
//!
//! The slot directory is append-only, so slot indices are stable under
//! record insertion.  The header checksum covers the page body (slot
//! directory and record heap), not the header itself.

use vstd::prelude::*;
use vstd::bytes::lemma_auto_spec_u16_to_from_le_bytes;
use vstd::bytes::lemma_auto_spec_u32_to_from_le_bytes;
use vstd::bytes::spec_u16_from_le_bytes;
use vstd::bytes::spec_u16_to_le_bytes;
use vstd::bytes::spec_u32_from_le_bytes;
use vstd::bytes::spec_u32_to_le_bytes;
use vstd::slice::slice_subrange;
use vstd::slice::slice_to_vec;
use crate::error::DatabaseError;
use crate::wire::push_u16;
use crate::wire::push_u32;
use crate::wire::push_zeros;
use crate::wire::read_u16;
use crate::wire::read_u32;
use crate::wire::zero_bytes;

verus! {

/// Size of a page on disk; 4 KiB aligns with common OS page sizes.
pub const PAGE_SIZE: usize = 4096;

/// Size of the page header.
pub const PAGE_HEADER_SIZE: usize = 24;

/// Usable space per page after the header.
pub const MAX_PAGE_DATA_SIZE: usize = 4072;

/// The `u32` magic opening every page: `"KENC"` read little-endian.
pub const PAGE_MAGIC: u32 = 0x4B454E43;

/// What a page stores.
#[derive(Debug, Clone, Copy, PartialEq, Eq, Structural)]
pub enum PageType {
    /// Actual document data.
    DataPage,
    /// Metadata about collections and schemas.
    MetaPage,
    /// A free page available for allocation.
    FreePage,
    /// The first page of a file, carrying store metadata.
    HeaderPage,
}

/// The one-byte tag of a page type on disk.
pub open spec fn page_type_tag(t: PageType) -> u8 {
    match t {
        PageType::DataPage => 1,
        PageType::MetaPage => 2,
        PageType::FreePage => 3,
        PageType::HeaderPage => 4,
    }
}

impl PageType {
    /// The one-byte on-disk tag of this page type.
    pub fn to_u8(self) -> (r: u8)
        ensures
            r == page_type_tag(self),
    {
        match self {
            PageType::DataPage => 1,
            PageType::MetaPage => 2,
            PageType::FreePage => 3,
            PageType::HeaderPage => 4,
        }
    }

    /// Decodes a page-type tag; tags outside 1 to 4 are invalid data.
    pub fn from_u8(value: u8) -> (r: Result<PageType, DatabaseError>)
        ensures
            1 <= value <= 4 ==> (r matches Ok(t) && page_type_tag(t) == value),
            !(1 <= value <= 4) ==> r == Err::<PageType, DatabaseError>(DatabaseError::InvalidData),
    {
        match value {
            1 => Ok(PageType::DataPage),
            2 => Ok(PageType::MetaPage),
            3 => Ok(PageType::FreePage),
            4 => Ok(PageType::HeaderPage),
            _ => Err(DatabaseError::InvalidData),
        }
    }
}

/// Page header, 24 bytes on disk.
#[derive(Debug, Clone, Copy)]
pub struct PageHeader {
    /// Magic number identifying a valid page.
    pub magic: u32,
    /// What the page stores.
    pub page_type: PageType,
    /// Reserved for alignment.
    pub _reserved: [u8; 3],
    /// Number of records (and slots) in the page.
    pub record_count: u16,
    /// Offset of the start of free space.
    pub free_space_start: u16,
    /// Amount of free space available in the page body.
    pub free_space_size: u16,
    /// Checksum of the page body for corruption detection.
    pub checksum: u32,
    /// The collection owning this page.
    pub collection_id: u32,
}

/// The 24 serialized bytes of a page header: magic at 0, type tag at 4,
/// reserved at 5, record count at 8, free-space start at 10, free-space
/// size at 12, checksum at 14, collection id at 18, zeros at 22.
pub open spec fn page_header_bytes(h: PageHeader) -> Seq<u8> {
    spec_u32_to_le_bytes(h.magic) + seq![page_type_tag(h.page_type)] + h._reserved@
        + spec_u16_to_le_bytes(h.record_count) + spec_u16_to_le_bytes(h.free_space_start)
        + spec_u16_to_le_bytes(h.free_space_size) + spec_u32_to_le_bytes(h.checksum)
        + spec_u32_to_le_bytes(h.collection_id) + zero_bytes(2)
}

/// Field-for-field meaning of a decoded page header.
pub open spec fn parse_page_header_ok(bytes: Seq<u8>, h: PageHeader) -> bool {
    &&& h.magic == spec_u32_from_le_bytes(bytes.subrange(0, 4))
    &&& page_type_tag(h.page_type) == bytes[4]
    &&& h._reserved@ == bytes.subrange(5, 8)
    &&& h.record_count == spec_u16_from_le_bytes(bytes.subrange(8, 10))
    &&& h.free_space_start == spec_u16_from_le_bytes(bytes.subrange(10, 12))
    &&& h.free_space_size == spec_u16_from_le_bytes(bytes.subrange(12, 14))
    &&& h.checksum == spec_u32_from_le_bytes(bytes.subrange(14, 18))
    &&& h.collection_id == spec_u32_from_le_bytes(bytes.subrange(18, 22))
}

/// A buffer that no page header can be decoded from: too short, wrong
/// magic, or an unknown page-type tag.
pub open spec fn page_header_rejected(bytes: Seq<u8>) -> bool {
    ||| bytes.len() < 24
    ||| spec_u32_from_le_bytes(bytes.subrange(0, 4)) != PAGE_MAGIC
    ||| !(1 <= bytes[4] <= 4)
}

impl PageHeader {
    /// A fresh header for an empty page of the given type and owner.
    pub fn new(page_type: PageType, collection_id: u32) -> (h: PageHeader)
        ensures
            h.magic == PAGE_MAGIC,
            h.page_type == page_type,
            h._reserved@ =~= zero_bytes(3),
            h.record_count == 0,
            h.free_space_start == 24,
            h.free_space_size == 4072,
            h.checksum == 0,
            h.collection_id == collection_id,
    {
        PageHeader {
            magic: PAGE_MAGIC,
            page_type,
            _reserved: [0u8, 0u8, 0u8],
            record_count: 0,
            free_space_start: 24,
            free_space_size: 4072,
            checksum: 0,
            collection_id,
        }
    }

    /// Serializes the header to its 24-byte on-disk form.
    pub fn serialize(&self) -> (r: Vec<u8>)
        ensures
            r@ == page_header_bytes(*self),
            r@.len() == 24,
    {
        proof {
            lemma_auto_spec_u16_to_from_le_bytes();
            lemma_auto_spec_u32_to_from_le_bytes();
        }
        let mut out: Vec<u8> = Vec::new();
        push_u32(&mut out, self.magic);
        out.push(self.page_type.to_u8());
        out.push(self._reserved[0]);
        out.push(self._reserved[1]);
        out.push(self._reserved[2]);
        proof {
            assert(out@ =~= spec_u32_to_le_bytes(self.magic) + seq![
                page_type_tag(self.page_type),
            ] + self._reserved@);
        }
        push_u16(&mut out, self.record_count);
        push_u16(&mut out, self.free_space_start);
        push_u16(&mut out, self.free_space_size);
        push_u32(&mut out, self.checksum);
        push_u32(&mut out, self.collection_id);
        push_zeros(&mut out, 2);
        out
    }

    /// Decodes the first 24 bytes of a buffer into a page header,
    /// validating the magic and the page-type tag; a buffer too short, a
    /// magic mismatch or an unknown tag means the page is corrupt.
    pub fn deserialize(bytes: &[u8]) -> (r: Result<PageHeader, DatabaseError>)
        ensures
            page_header_rejected(bytes@) ==> r == Err::<PageHeader, DatabaseError>(
                DatabaseError::Corrupt,
            ),
            !page_header_rejected(bytes@) ==> (r matches Ok(h) && parse_page_header_ok(bytes@, h)),
    {
        if bytes.len() < 24 {
            return Err(DatabaseError::Corrupt);
        }
        let magic: u32 = read_u32(bytes, 0);
        if magic != PAGE_MAGIC {
            return Err(DatabaseError::Corrupt);
        }
        let page_type: PageType = match PageType::from_u8(bytes[4]) {
            Ok(t) => t,
            Err(_) => { return Err(DatabaseError::Corrupt) },
        };
        let reserved: [u8; 3] = [bytes[5], bytes[6], bytes[7]];
        proof {
            assert(reserved@ =~= bytes@.subrange(5, 8));
        }
        Ok(
            PageHeader {
                magic,
                page_type,
                _reserved: reserved,
                record_count: read_u16(bytes, 8),
                free_space_start: read_u16(bytes, 10),
                free_space_size: read_u16(bytes, 12),
                checksum: read_u32(bytes, 14),
                collection_id: read_u32(bytes, 18),
            },
        )
    }
}

/// Decoding inverts encoding for page headers with the standard magic.
pub proof fn lemma_page_header_roundtrip(h: PageHeader, h2: PageHeader)
    requires
        h.magic == PAGE_MAGIC,
        parse_page_header_ok(page_header_bytes(h), h2),
    ensures
        h2.magic == h.magic,
        h2.page_type == h.page_type,
        h2._reserved@ == h._reserved@,
        h2.record_count == h.record_count,
        h2.free_space_start == h.free_space_start,
        h2.free_space_size == h.free_space_size,
        h2.checksum == h.checksum,
        h2.collection_id == h.collection_id,
        page_header_bytes(h).len() == 24,
        !page_header_rejected(page_header_bytes(h)),
{
    lemma_auto_spec_u16_to_from_le_bytes();
    lemma_auto_spec_u32_to_from_le_bytes();
    let b = page_header_bytes(h);
    assert(h._reserved@.len() == 3);
    assert(b.subrange(0, 4) =~= spec_u32_to_le_bytes(h.magic));
    assert(b[4] == page_type_tag(h.page_type));
    assert(b.subrange(5, 8) =~= h._reserved@);
    assert(b.subrange(8, 10) =~= spec_u16_to_le_bytes(h.record_count));
    assert(b.subrange(10, 12) =~= spec_u16_to_le_bytes(h.free_space_start));
    assert(b.subrange(12, 14) =~= spec_u16_to_le_bytes(h.free_space_size));
    assert(b.subrange(14, 18) =~= spec_u32_to_le_bytes(h.checksum));
    assert(b.subrange(18, 22) =~= spec_u32_to_le_bytes(h.collection_id));
    assert(page_type_tag(h2.page_type) == page_type_tag(h.page_type));
    assert(h2.page_type == h.page_type);
}

/// Slot directory entry: where a record lies in the page and how long it
/// is, 4 bytes on disk.
#[derive(Debug, Clone, Copy, PartialEq, Eq, Structural)]
pub struct SlotEntry {
    /// Offset of the record from the start of the page.
    pub offset: u16,
    /// Length of the record in bytes.
    pub length: u16,
}

/// The 4 serialized bytes of a slot entry: offset then length.
pub open spec fn slot_bytes(s: SlotEntry) -> Seq<u8> {
    spec_u16_to_le_bytes(s.offset) + spec_u16_to_le_bytes(s.length)
}

impl SlotEntry {
    /// A slot entry for a record at `offset` of length `length`.
    pub fn new(offset: u16, length: u16) -> (s: SlotEntry)
        ensures
            s.offset == offset,
            s.length == length,
    {
        SlotEntry { offset, length }
    }

    /// Serializes the slot entry to its 4-byte on-disk form.
    pub fn serialize(&self) -> (r: Vec<u8>)
        ensures
            r@ == slot_bytes(*self),
            r@.len() == 4,
    {
        proof {
            lemma_auto_spec_u16_to_from_le_bytes();
        }
        let mut out: Vec<u8> = Vec::new();
        push_u16(&mut out, self.offset);
        push_u16(&mut out, self.length);
        out
    }

    /// Decodes the first 4 bytes of a buffer into a slot entry; a shorter
    /// buffer is corrupt.
    pub fn deserialize(bytes: &[u8]) -> (r: Result<SlotEntry, DatabaseError>)
        ensures
            bytes@.len() < 4 ==> r == Err::<SlotEntry, DatabaseError>(DatabaseError::Corrupt),
            bytes@.len() >= 4 ==> (r matches Ok(s) && s.offset == spec_u16_from_le_bytes(
                bytes@.subrange(0, 2),
            ) && s.length == spec_u16_from_le_bytes(bytes@.subrange(2, 4))),
    {
        if bytes.len() < 4 {
            return Err(DatabaseError::Corrupt);
        }
        Ok(SlotEntry { offset: read_u16(bytes, 0), length: read_u16(bytes, 2) })
    }
}

/// Decoding inverts encoding for slot entries.
pub proof fn lemma_slot_roundtrip(s: SlotEntry)
    ensures
        slot_bytes(s).len() == 4,
        spec_u16_from_le_bytes(slot_bytes(s).subrange(0, 2)) == s.offset,
        spec_u16_from_le_bytes(slot_bytes(s).subrange(2, 4)) == s.length,
{
    lemma_auto_spec_u16_to_from_le_bytes();
    assert(slot_bytes(s).subrange(0, 2) =~= spec_u16_to_le_bytes(s.offset));
    assert(slot_bytes(s).subrange(2, 4) =~= spec_u16_to_le_bytes(s.length));
}

/// Bytes taken by the records of the first `n` slots.
pub open spec fn used_prefix(slots: Seq<SlotEntry>, n: int) -> int
    decreases n,
{
    if n <= 0 {
        0
    } else {
        used_prefix(slots, n - 1) + slots[n - 1].length
    }
}

/// Bytes taken by all records of the page.
pub open spec fn used_bytes(slots: Seq<SlotEntry>) -> int {
    used_prefix(slots, slots.len() as int)
}

/// Prefix record sums never shrink.
pub proof fn lemma_used_prefix_mono(slots: Seq<SlotEntry>, m: int, n: int)
    requires
        m <= n,
    ensures
        used_prefix(slots, m) <= used_prefix(slots, n),
    decreases n - m,
{
    if m < n {
        lemma_used_prefix_mono(slots, m, n - 1);
    }
}

/// A prefix sum reads only the slots before `n`, so pushing another slot
/// leaves it unchanged.
pub proof fn lemma_used_prefix_push(slots: Seq<SlotEntry>, s: SlotEntry, n: int)
    requires
        n <= slots.len(),
    ensures
        used_prefix(slots.push(s), n) == used_prefix(slots, n),
    decreases n,
{
    if n > 0 {
        lemma_used_prefix_push(slots, s, n - 1);
    }
}

/// The serialized slot directory: the 4-byte entries in slot order.
pub open spec fn slot_dir_bytes(slots: Seq<SlotEntry>) -> Seq<u8>
    decreases slots.len(),
{
    if slots.len() == 0 {
        Seq::<u8>::empty()
    } else {
        slot_dir_bytes(slots.drop_last()) + slot_bytes(slots.last())
    }
}

/// The slot directory packs each entry at byte `4 * k`.
pub proof fn lemma_slot_dir_bytes(slots: Seq<SlotEntry>, k: int)
    requires
        0 <= k < slots.len(),
    ensures
        slot_dir_bytes(slots).len() == 4 * slots.len(),
        slot_dir_bytes(slots).subrange(4 * k, 4 * k + 4) == slot_bytes(slots[k]),
    decreases slots.len(),
{
    lemma_auto_spec_u16_to_from_le_bytes();
    lemma_slot_dir_len(slots);
    if k == slots.len() - 1 {
        lemma_slot_dir_len(slots.drop_last());
        assert(slot_dir_bytes(slots).subrange(4 * k, 4 * k + 4) =~= slot_bytes(slots.last()));
    } else {
        lemma_slot_dir_bytes(slots.drop_last(), k);
        lemma_slot_dir_len(slots.drop_last());
        assert(slot_dir_bytes(slots).subrange(4 * k, 4 * k + 4) =~= slot_dir_bytes(
            slots.drop_last(),
        ).subrange(4 * k, 4 * k + 4));
    }
}

/// The slot directory is 4 bytes per slot.
pub proof fn lemma_slot_dir_len(slots: Seq<SlotEntry>)
    ensures
        slot_dir_bytes(slots).len() == 4 * slots.len(),
    decreases slots.len(),
{
    lemma_auto_spec_u16_to_from_le_bytes();
    if slots.len() > 0 {
        lemma_slot_dir_len(slots.drop_last());
    }
}

/// Plain integer sum of a byte sequence.
pub open spec fn sum_bytes(s: Seq<u8>) -> int
    decreases s.len(),
{
    if s.len() == 0 {
        0
    } else {
        sum_bytes(s.drop_last()) + s.last()
    }
}

/// Sum of all serialized slot-entry bytes.
pub open spec fn slots_sum(slots: Seq<SlotEntry>) -> int
    decreases slots.len(),
{
    if slots.len() == 0 {
        0
    } else {
        slots_sum(slots.drop_last()) + sum_bytes(slot_bytes(slots.last()))
    }
}

/// The page-body checksum: the wrapping 32-bit sum of every slot-directory
/// byte and every record-heap byte.
pub open spec fn page_checksum(slots: Seq<SlotEntry>, data: Seq<u8>) -> u32 {
    (((slots_sum(slots) + sum_bytes(data)) % 0x100000000) as u32)
}

/// A database page: header, slot directory and the 4072-byte body region
/// that holds the record heap.
#[derive(Debug, Clone)]
pub struct Page {
    /// The page header.
    pub header: PageHeader,
    /// The slot directory, in insertion order.
    pub slots: Vec<SlotEntry>,
    /// The page body: bytes 24 to 4096 of the page, holding the record
    /// heap in its tail.
    pub data: Vec<u8>,
}

impl Page {
    /// Structural soundness: the body region is full-size, the header
    /// counts the slots, free space accounts for every slot and record,
    /// and each record sits exactly where the records after it end.
    pub open spec fn wf(&self) -> bool {
        &&& self.data@.len() == 4072
        &&& self.header.record_count == self.slots@.len()
        &&& 4 * self.slots@.len() + used_bytes(self.slots@) <= 4072
        &&& self.header.free_space_size == 4072 - 4 * self.slots@.len() - used_bytes(self.slots@)
        &&& forall|k: int|
            0 <= k < self.slots@.len() ==> (#[trigger] self.slots@[k]).offset == 4096 - used_prefix(
                self.slots@,
                k + 1,
            )
    }

    /// A fresh, empty page of the given type and owner.
    pub fn new(page_type: PageType, collection_id: u32) -> (p: Page)
        ensures
            p.wf(),
            p.header.page_type == page_type,
            p.header.collection_id == collection_id,
            p.header.magic == PAGE_MAGIC,
            p.header.record_count == 0,
            p.header.free_space_start == 24,
            p.header.free_space_size == 4072,
            p.header.checksum == 0,
            p.slots@.len() == 0,
            p.data@ =~= zero_bytes(4072),
    {
        let mut data: Vec<u8> = Vec::new();
        push_zeros(&mut data, 4072);
        Page { header: PageHeader::new(page_type, collection_id), slots: Vec::new(), data }
    }

    /// Free space left in the page body.
    pub fn free_space(&self) -> (r: usize)
        ensures
            r == self.header.free_space_size,
    {
        self.header.free_space_size as usize
    }

    /// Whether a record of `record_size` bytes and its slot entry fit.
    pub fn can_fit(&self, record_size: usize) -> (r: bool)
        ensures
            r == (record_size + 4 <= self.header.free_space_size),
    {
        let free: usize = self.header.free_space_size as usize;
        free >= 4 && free - 4 >= record_size
    }

    /// Inserts a record into the page.  With enough free space for the
    /// record and its 4-byte slot, the record is placed directly below the
    /// current heap, a slot pointing at it is appended, and the new slot's
    /// index is returned; otherwise the page is unchanged and the insert
    /// fails with `OutOfSpace`.
    pub fn insert_record(&mut self, record_data: &[u8]) -> (r: Result<u16, DatabaseError>)
        requires
            old(self).wf(),
        ensures
            final(self).wf(),
            record_data@.len() + 4 > old(self).header.free_space_size ==> (r == Err::<
                u16,
                DatabaseError,
            >(DatabaseError::OutOfSpace) && *final(self) == *old(self)),
            record_data@.len() + 4 <= old(self).header.free_space_size ==> {
                let start = 4072 - used_bytes(old(self).slots@) - record_data@.len();
                &&& r == Ok::<u16, DatabaseError>(old(self).slots@.len() as u16)
                &&& final(self).slots@ == old(self).slots@.push(
                    SlotEntry {
                        offset: (24 + start) as u16,
                        length: record_data@.len() as u16,
                    },
                )
                &&& final(self).data@ == old(self).data@.subrange(0, start) + record_data@ + old(
                    self,
                ).data@.subrange(start + record_data@.len(), 4072)
                &&& final(self).header == (PageHeader {
                    record_count: (old(self).header.record_count + 1) as u16,
                    free_space_size: (old(self).header.free_space_size - record_data@.len()
                        - 4) as u16,
                    ..old(self).header
                })
            },
    {
        let record_size: usize = record_data.len();
        if !self.can_fit(record_size) {
            return Err(DatabaseError::OutOfSpace);
        }
        proof {
            lemma_used_prefix_mono(self.slots@, 0, self.slots@.len() as int);
        }
        let used: usize = 4072 - (self.header.free_space_size as usize) - 4 * self.slots.len();
        let start: usize = 4072 - used - record_size;
        let ghost old_data = self.data@;
        let mut j: usize = 0;
        while j < record_size
            invariant
                j <= record_size,
                start + record_size <= 4072,
                self.data@.len() == 4072,
                record_size == record_data@.len(),
                self.header == old(self).header,
                self.slots@ == old(self).slots@,
                forall|i: int|
                    0 <= i < 4072 && !(start <= i < start + j) ==> self.data@[i] == old_data[i],
                forall|i: int| 0 <= i < j ==> self.data@[start + i] == #[trigger] record_data@[i],
            decreases record_size - j,
        {
            self.data.set(start + j, record_data[j]);
            j = j + 1;
        }
        proof {
            assert(self.data@ =~= old_data.subrange(0, start as int) + record_data@
                + old_data.subrange(start + record_size, 4072));
        }
        let slot_index: u16 = self.slots.len() as u16;
        let slot = SlotEntry { offset: (24 + start) as u16, length: record_size as u16 };
        self.slots.push(slot);
        self.header.record_count = self.header.record_count + 1;
        self.header.free_space_size = self.header.free_space_size - (record_size as u16) - 4;
        proof {
            let n = old(self).slots@.len() as int;
            lemma_used_prefix_push(old(self).slots@, slot, n);
            assert(used_prefix(self.slots@, n + 1) == used_bytes(old(self).slots@)
                + record_size);
            assert(record_data@.subrange(0, record_size as int) =~= record_data@);
            assert forall|k: int| 0 <= k < self.slots@.len() implies (
            #[trigger] self.slots@[k]).offset == 4096 - used_prefix(self.slots@, k + 1) by {
                if k < n {
                    lemma_used_prefix_push(old(self).slots@, slot, k + 1);
                } else {
                    lemma_used_prefix_push(old(self).slots@, slot, n);
                }
            }
        }
        Ok(slot_index)
    }

    /// Returns a copy of the record held by `slot_index`.  An index past
    /// the directory does not exist (`NotFound`); a slot reaching before
    /// the body or past the page points outside the page (`Corrupt`).
    pub fn get_record(&self, slot_index: u16) -> (r: Result<Vec<u8>, DatabaseError>)
        requires
            self.data@.len() == 4072,
        ensures
            slot_index >= self.slots@.len() ==> r == Err::<Vec<u8>, DatabaseError>(
                DatabaseError::NotFound,
            ),
            slot_index < self.slots@.len() ==> {
                let slot = self.slots@[slot_index as int];
                if slot.offset < 24 || slot.offset + slot.length > 4096 {
                    r == Err::<Vec<u8>, DatabaseError>(DatabaseError::Corrupt)
                } else {
                    r matches Ok(bytes) && bytes@ == self.data@.subrange(
                        slot.offset - 24,
                        slot.offset - 24 + slot.length,
                    )
                }
            },
    {
        if (slot_index as usize) >= self.slots.len() {
            return Err(DatabaseError::NotFound);
        }
        let slot: SlotEntry = self.slots[slot_index as usize];
        if slot.offset < 24 {
            return Err(DatabaseError::Corrupt);
        }
        let data_start: usize = (slot.offset as usize) - 24;
        let data_end: usize = data_start + (slot.length as usize);
        if data_end > self.data.len() {
            return Err(DatabaseError::Corrupt);
        }
        let mut out: Vec<u8> = Vec::new();
        let mut j: usize = data_start;
        while j < data_end
            invariant
                data_start <= j <= data_end <= self.data@.len(),
                out@ =~= self.data@.subrange(data_start as int, j as int),
            decreases data_end - j,
        {
            out.push(self.data[j]);
            j = j + 1;
            proof {
                assert(out@ =~= self.data@.subrange(data_start as int, j as int));
            }
        }
        Ok(out)
    }

    /// Recomputes the header checksum as the wrapping 32-bit sum of all
    /// slot-directory bytes and all body bytes.  Nothing else changes.
    pub fn update_checksum(&mut self)
        ensures
            final(self).header.checksum == page_checksum(old(self).slots@, old(self).data@),
            final(self).slots@ == old(self).slots@,
            final(self).data@ == old(self).data@,
            *final(self) == (Page {
                header: PageHeader { checksum: final(self).header.checksum, ..old(self).header },
                slots: final(self).slots,
                data: final(self).data,
            }),
            old(self).wf() ==> final(self).wf(),
    {
        let mut acc: u32 = 0;
        let mut i: usize = 0;
        while i < self.slots.len()
            invariant
                i <= self.slots@.len(),
                acc as int == slots_sum(self.slots@.subrange(0, i as int)) % 0x100000000,
                *self == *old(self),
            decreases self.slots@.len() - i,
        {
            let sb: Vec<u8> = self.slots[i].serialize();
            let ghost pre = self.slots@.subrange(0, i as int);
            acc = wrapping_sum(acc, sb.as_slice());
            proof {
                assert(self.slots@.subrange(0, i + 1 as int).drop_last() =~= pre);
                assert(slots_sum(self.slots@.subrange(0, i + 1 as int)) == slots_sum(pre)
                    + sum_bytes(slot_bytes(self.slots@[i as int])));
                lemma_mod_add_mod(slots_sum(pre), sum_bytes(slot_bytes(self.slots@[i as int])));
            }
            i = i + 1;
        }
        proof {
            assert(self.slots@.subrange(0, self.slots@.len() as int) =~= self.slots@);
        }
        acc = wrapping_sum(acc, self.data.as_slice());
        proof {
            lemma_mod_add_mod(slots_sum(self.slots@), sum_bytes(self.data@));
        }
        self.header.checksum = acc;
    }
}

/// The 4096 serialized bytes of a page: the header, the slot directory
/// right after it, and the body region from byte `24 + 4 * record_count`
/// onward, so that every record lies at its slot's offset.
pub open spec fn page_bytes(p: Page) -> Seq<u8> {
    page_header_bytes(p.header) + slot_dir_bytes(p.slots@) + p.data@.subrange(
        4 * p.slots@.len() as int,
        4072,
    )
}

/// A buffer that no page can be decoded from: wrong size, a rejected
/// header, or a slot directory that would run past the page.
pub open spec fn page_rejected(bytes: Seq<u8>) -> bool {
    ||| bytes.len() != 4096
    ||| page_header_rejected(bytes)
    ||| spec_u16_from_le_bytes(bytes.subrange(8, 10)) > 1018
}

/// Field-for-field meaning of a decoded page: the header fields, one slot
/// per directory entry, and the body region lifted verbatim.
pub open spec fn parse_page_ok(bytes: Seq<u8>, p: Page) -> bool {
    &&& parse_page_header_ok(bytes, p.header)
    &&& p.slots@.len() == spec_u16_from_le_bytes(bytes.subrange(8, 10))
    &&& forall|k: int|
        0 <= k < p.slots@.len() ==> (#[trigger] p.slots@[k]).offset == spec_u16_from_le_bytes(
            bytes.subrange(24 + 4 * k, 26 + 4 * k),
        ) && p.slots@[k].length == spec_u16_from_le_bytes(bytes.subrange(26 + 4 * k, 28 + 4 * k))
    &&& p.data@ == bytes.subrange(24, 4096)
}

impl Page {
    /// Serializes the whole page to its 4096-byte on-disk form, refreshing
    /// the header checksum first.
    pub fn serialize(&mut self) -> (r: Vec<u8>)
        requires
            old(self).wf(),
        ensures
            final(self).wf(),
            final(self).header.checksum == page_checksum(old(self).slots@, old(self).data@),
            final(self).slots@ == old(self).slots@,
            final(self).data@ == old(self).data@,
            final(self).header == (PageHeader {
                checksum: final(self).header.checksum,
                ..old(self).header
            }),
            r@ == page_bytes(*final(self)),
            r@.len() == 4096,
    {
        proof {
            lemma_auto_spec_u16_to_from_le_bytes();
            lemma_auto_spec_u32_to_from_le_bytes();
        }
        self.update_checksum();
        let mut out: Vec<u8> = self.header.serialize();
        let mut i: usize = 0;
        proof {
            assert(slot_dir_bytes(self.slots@.subrange(0, 0)) =~= Seq::<u8>::empty());
            assert(out@ =~= page_header_bytes(self.header) + slot_dir_bytes(
                self.slots@.subrange(0, 0),
            ));
        }
        while i < self.slots.len()
            invariant
                i <= self.slots@.len(),
                self.header == (PageHeader {
                    checksum: page_checksum(old(self).slots@, old(self).data@),
                    ..old(self).header
                }),
                self.slots@ == old(self).slots@,
                self.data@ == old(self).data@,
                self.wf(),
                out@ == page_header_bytes(self.header) + slot_dir_bytes(
                    self.slots@.subrange(0, i as int),
                ),
            decreases self.slots@.len() - i,
        {
            let mut sb: Vec<u8> = self.slots[i].serialize();
            out.append(&mut sb);
            proof {
                assert(self.slots@.subrange(0, i + 1).drop_last() =~= self.slots@.subrange(
                    0,
                    i as int,
                ));
                assert(self.slots@.subrange(0, i + 1).last() == self.slots@[i as int]);
            }
            i = i + 1;
        }
        proof {
            assert(self.slots@.subrange(0, self.slots@.len() as int) =~= self.slots@);
            lemma_slot_dir_len(self.slots@);
        }
        proof {
            lemma_used_prefix_mono(self.slots@, 0, self.slots@.len() as int);
        }
        let rc4: usize = 4 * self.slots.len();
        let mut j: usize = rc4;
        proof {
            assert(self.data@.subrange(rc4 as int, rc4 as int) =~= Seq::<u8>::empty());
            assert(out@ =~= page_header_bytes(self.header) + slot_dir_bytes(self.slots@)
                + self.data@.subrange(rc4 as int, rc4 as int));
        }
        while j < 4072
            invariant
                rc4 <= j <= 4072,
                rc4 == 4 * self.slots@.len(),
                self.header == (PageHeader {
                    checksum: page_checksum(old(self).slots@, old(self).data@),
                    ..old(self).header
                }),
                self.slots@ == old(self).slots@,
                self.data@ == old(self).data@,
                self.wf(),
                out@ == page_header_bytes(self.header) + slot_dir_bytes(self.slots@)
                    + self.data@.subrange(rc4 as int, j as int),
            decreases 4072 - j,
        {
            out.push(self.data[j]);
            j = j + 1;
            proof {
                assert(self.data@.subrange(rc4 as int, j as int).drop_last()
                    =~= self.data@.subrange(rc4 as int, j - 1));
                assert(out@ =~= page_header_bytes(self.header) + slot_dir_bytes(self.slots@)
                    + self.data@.subrange(rc4 as int, j as int));
            }
        }
        proof {
            lemma_page_header_bytes_len(self.header);
        }
        out
    }

    /// Decodes a 4096-byte buffer into a page: the header is validated,
    /// `record_count` slot entries are read from the directory, and the
    /// body region is lifted verbatim.  Checksum verification is the
    /// caller's responsibility.
    pub fn deserialize(bytes: &[u8]) -> (r: Result<Page, DatabaseError>)
        ensures
            page_rejected(bytes@) ==> r == Err::<Page, DatabaseError>(DatabaseError::Corrupt),
            !page_rejected(bytes@) ==> (r matches Ok(p) && parse_page_ok(bytes@, p)),
    {
        if bytes.len() != 4096 {
            return Err(DatabaseError::Corrupt);
        }
        let header: PageHeader = match PageHeader::deserialize(bytes) {
            Ok(h) => h,
            Err(_) => { return Err(DatabaseError::Corrupt) },
        };
        let rc: usize = header.record_count as usize;
        if rc > 1018 {
            return Err(DatabaseError::Corrupt);
        }
        let mut slots: Vec<SlotEntry> = Vec::new();
        let mut k: usize = 0;
        while k < rc
            invariant
                k <= rc,
                rc <= 1018,
                bytes@.len() == 4096,
                slots@.len() == k,
                forall|m: int|
                    0 <= m < k ==> (#[trigger] slots@[m]).offset == spec_u16_from_le_bytes(
                        bytes@.subrange(24 + 4 * m, 26 + 4 * m),
                    ) && slots@[m].length == spec_u16_from_le_bytes(
                        bytes@.subrange(26 + 4 * m, 28 + 4 * m),
                    ),
            decreases rc - k,
        {
            let offset: u16 = read_u16(bytes, 24 + 4 * k);
            let length: u16 = read_u16(bytes, 26 + 4 * k);
            slots.push(SlotEntry { offset, length });
            k = k + 1;
        }
        let data: Vec<u8> = slice_to_vec(slice_subrange(bytes, 24, 4096));
        Ok(Page { header, slots, data })
    }
}

/// The serialized page header is 24 bytes.
pub proof fn lemma_page_header_bytes_len(h: PageHeader)
    ensures
        page_header_bytes(h).len() == 24,
{
    lemma_auto_spec_u16_to_from_le_bytes();
    lemma_auto_spec_u32_to_from_le_bytes();
}

/// Page bounds: in a well-formed page every slot starts at or after byte
/// 24, ends within the page, and never reaches down into the slot
/// directory.
pub proof fn lemma_page_slot_bounds(p: &Page, k: int)
    requires
        p.wf(),
        0 <= k < p.slots@.len(),
    ensures
        24 <= p.slots@[k].offset,
        p.slots@[k].offset + p.slots@[k].length <= 4096,
        p.slots@[k].offset >= 24 + 4 * p.slots@.len(),
{
    lemma_used_prefix_mono(p.slots@, k + 1, p.slots@.len() as int);
    lemma_used_prefix_mono(p.slots@, 0, k as int);
}

/// The record held by slot `k` of a page.
pub open spec fn record_seq(p: Page, k: int) -> Seq<u8> {
    p.data@.subrange(
        p.slots@[k].offset - 24,
        p.slots@[k].offset - 24 + p.slots@[k].length,
    )
}

/// Decoding inverts encoding for pages: a page decoded from the
/// serialized form of a well-formed page has the same header fields (with
/// the checksum as refreshed by serialization), the same slot directory,
/// and the same record bytes under every slot.
pub proof fn lemma_page_roundtrip(p: &Page, p2: &Page)
    requires
        p.wf(),
        p.header.magic == PAGE_MAGIC,
        parse_page_ok(page_bytes(*p), *p2),
    ensures
        p2.header.magic == p.header.magic,
        p2.header.page_type == p.header.page_type,
        p2.header.record_count == p.header.record_count,
        p2.header.free_space_start == p.header.free_space_start,
        p2.header.free_space_size == p.header.free_space_size,
        p2.header.checksum == p.header.checksum,
        p2.header.collection_id == p.header.collection_id,
        p2.slots@ == p.slots@,
        p2.data@.len() == 4072,
        forall|k: int| 0 <= k < p.slots@.len() ==> record_seq(*p2, k) == record_seq(*p, k),
{
    lemma_auto_spec_u16_to_from_le_bytes();
    lemma_auto_spec_u32_to_from_le_bytes();
    let b = page_bytes(*p);
    let hb = page_header_bytes(p.header);
    let db = slot_dir_bytes(p.slots@);
    let n = p.slots@.len() as int;
    lemma_page_header_bytes_len(p.header);
    lemma_slot_dir_len(p.slots@);
    lemma_used_prefix_mono(p.slots@, 0, n);
    assert(b.len() == 4096);
    assert(b.subrange(0, 4) =~= hb.subrange(0, 4));
    assert(b.subrange(5, 8) =~= hb.subrange(5, 8));
    assert(b.subrange(8, 10) =~= hb.subrange(8, 10));
    assert(b.subrange(10, 12) =~= hb.subrange(10, 12));
    assert(b.subrange(12, 14) =~= hb.subrange(12, 14));
    assert(b.subrange(14, 18) =~= hb.subrange(14, 18));
    assert(b.subrange(18, 22) =~= hb.subrange(18, 22));
    assert(parse_page_header_ok(hb, p2.header));
    lemma_page_header_roundtrip(p.header, p2.header);
    assert(p2.slots@.len() == n);
    assert forall|k: int| 0 <= k < n implies p2.slots@[k] == p.slots@[k] by {
        lemma_slot_dir_bytes(p.slots@, k);
        lemma_slot_roundtrip(p.slots@[k]);
        assert(b.subrange(24 + 4 * k, 26 + 4 * k) =~= slot_bytes(p.slots@[k]).subrange(0, 2));
        assert(b.subrange(26 + 4 * k, 28 + 4 * k) =~= slot_bytes(p.slots@[k]).subrange(2, 4));
    }
    assert(p2.slots@ =~= p.slots@);
    assert forall|k: int| 0 <= k < n implies record_seq(*p2, k) == record_seq(*p, k) by {
        lemma_page_slot_bounds(p, k);
        let off = p.slots@[k].offset as int;
        let len = p.slots@[k].length as int;
        assert forall|m: int| off - 24 <= m < off - 24 + len implies p2.data@[m]
            == p.data@[m] by {
            assert(p2.data@[m] == b[24 + m]);
            assert(b[24 + m] == p.data@.subrange(4 * n, 4072)[24 + m - 24 - 4 * n]);
        }
        assert(record_seq(*p2, k) =~= record_seq(*p, k));
    }
}

/// `(a % m + b) % m == (a + b) % m` for the 32-bit modulus.
proof fn lemma_mod_add_mod(a: int, b: int)
    ensures
        (a % 0x100000000 + b) % 0x100000000 == (a + b) % 0x100000000,
{
    let m = 0x100000000int;
    vstd::arithmetic::div_mod::lemma_add_mod_noop(a, b, m);
    vstd::arithmetic::div_mod::lemma_add_mod_noop_right(a % m, b, m);
    vstd::arithmetic::div_mod::lemma_mod_twice(a, m);
}

/// Adds every byte of `data` onto `acc` with wrapping 32-bit addition.
fn wrapping_sum(acc: u32, data: &[u8]) -> (r: u32)
    ensures
        r as int == (acc + sum_bytes(data@)) % 0x100000000,
{
    let len: usize = data.len();
    let mut r: u32 = acc;
    let mut j: usize = 0;
    proof {
        vstd::arithmetic::div_mod::lemma_small_mod(acc as nat, 0x100000000nat);
        assert(data@.subrange(0, 0) =~= Seq::<u8>::empty());
    }
    while j < len
        invariant
            j <= len,
            len == data@.len(),
            r as int == (acc + sum_bytes(data@.subrange(0, j as int))) % 0x100000000,
        decreases len - j,
    {
        let ghost pre = data@.subrange(0, j as int);
        let wide: u64 = (r as u64) + (data[j] as u64);
        r = (wide % 0x100000000) as u32;
        j = j + 1;
        proof {
            assert(data@.subrange(0, j as int).drop_last() =~= pre);
            assert(sum_bytes(data@.subrange(0, j as int)) == sum_bytes(pre) + data@[j - 1]);
            lemma_mod_add_mod(acc + sum_bytes(pre), data@[j - 1] as int);
        }
    }
    proof {
        assert(data@.subrange(0, len as int) =~= data@);
    }
    r
}

} // verus!
