use kenchdb::chunk::{ChunkFooter, ChunkHeader};
use kenchdb::chunk_state::Chunk;
use kenchdb::error::DatabaseError;
use kenchdb::page::{Page, PageHeader, PageType, SlotEntry};
use kenchdb::query::{QueryBuilder, QueryOperation};
use kenchdb::schema::{Field, FieldType, Schema};
use kenchdb::value::Value;

#[test]
fn test_page_record_roundtrip() {
    // Insert records of lengths 100, 50 and 200 into a fresh data page,
    // serialize, deserialize, and read everything back.
    let mut page = Page::new(PageType::DataPage, 7);
    let r0: Vec<u8> = (0..100u16).map(|i| (i % 251) as u8).collect();
    let r1: Vec<u8> = (0..50u16).map(|i| (7 + i % 241) as u8).collect();
    let r2: Vec<u8> = (0..200u16).map(|i| (3 + i % 239) as u8).collect();
    let s0 = page.insert_record(&r0).unwrap();
    let s1 = page.insert_record(&r1).unwrap();
    let s2 = page.insert_record(&r2).unwrap();
    assert_eq!((s0, s1, s2), (0, 1, 2));
    let bytes = page.serialize();
    assert_eq!(bytes.len(), 4096);
    let restored = Page::deserialize(&bytes).unwrap();
    assert_eq!(restored.header.record_count, 3);
    assert_eq!(restored.header.collection_id, 7);
    assert_eq!(restored.header.free_space_size, page.header.free_space_size);
    assert_eq!(restored.header.page_type, PageType::DataPage);
    assert_eq!(restored.get_record(0).unwrap(), r0);
    assert_eq!(restored.get_record(1).unwrap(), r1);
    assert_eq!(restored.get_record(2).unwrap(), r2);
    assert_eq!(restored.get_record(3), Err(DatabaseError::NotFound));
}

#[test]
fn test_page_corrupt_slot_detected() {
    // A slot reaching outside the page is corrupt; an index past the
    // directory does not exist.
    let mut page = Page::new(PageType::DataPage, 1);
    page.insert_record(&[1, 2, 3, 4]).unwrap();
    page.slots[0] = SlotEntry::new(4000, 200);
    assert_eq!(page.get_record(0), Err(DatabaseError::Corrupt));
    page.slots[0] = SlotEntry::new(10, 4);
    assert_eq!(page.get_record(0), Err(DatabaseError::Corrupt));
    assert_eq!(page.get_record(5), Err(DatabaseError::NotFound));
}

#[test]
fn test_page_out_of_space() {
    // Filling a page with maximum-size records must fail with OutOfSpace
    // once the capacity is exhausted, and the failing insert changes
    // nothing.
    let mut page = Page::new(PageType::DataPage, 1);
    let record = vec![0x5Au8; 1000];
    let mut inserted = 0usize;
    let mut failures = 0usize;
    for _ in 0..8 {
        match page.insert_record(&record) {
            Ok(_) => inserted += 1,
            Err(e) => {
                assert_eq!(e, DatabaseError::OutOfSpace);
                failures += 1;
            }
        }
    }
    // 4 records of 1004 bytes fit in 4072 usable bytes; the rest fail.
    assert_eq!(inserted, 4);
    assert_eq!(failures, 4);
    assert_eq!(page.header.record_count, 4);
}

#[test]
fn test_page_free_space_accounting() {
    let mut page = Page::new(PageType::MetaPage, 3);
    assert_eq!(page.free_space(), 4072);
    assert!(page.can_fit(4068));
    assert!(!page.can_fit(4069));
    page.insert_record(&[1, 2, 3]).unwrap();
    assert_eq!(page.free_space(), 4072 - 3 - 4);
}

#[test]
fn test_page_slot_bounds() {
    // Every slot lies between the header and the end of the page.
    let mut page = Page::new(PageType::DataPage, 2);
    for len in [10usize, 300, 1, 77] {
        page.insert_record(&vec![9u8; len]).unwrap();
    }
    for slot in &page.slots {
        assert!(slot.offset >= 24);
        assert!(slot.offset as usize + slot.length as usize <= 4096);
    }
}

#[test]
fn test_page_header_roundtrip() {
    let h = PageHeader::new(PageType::HeaderPage, 77);
    let bytes = h.serialize();
    assert_eq!(bytes.len(), 24);
    let back = PageHeader::deserialize(&bytes).unwrap();
    assert_eq!(back.magic, 0x4B454E43);
    assert_eq!(back.page_type, PageType::HeaderPage);
    assert_eq!(back.record_count, 0);
    assert_eq!(back.free_space_start, 24);
    assert_eq!(back.free_space_size, 4072);
    assert_eq!(back.collection_id, 77);
}

#[test]
fn test_page_header_bad_magic_rejected() {
    let h = PageHeader::new(PageType::DataPage, 1);
    let mut bytes = h.serialize();
    bytes[0] ^= 0xFF;
    match PageHeader::deserialize(&bytes) {
        Err(e) => assert_eq!(e, DatabaseError::Corrupt),
        Ok(_) => panic!("corrupted magic must be rejected"),
    }
}

#[test]
fn test_page_type_tags() {
    assert_eq!(PageType::DataPage.to_u8(), 1);
    assert_eq!(PageType::MetaPage.to_u8(), 2);
    assert_eq!(PageType::FreePage.to_u8(), 3);
    assert_eq!(PageType::HeaderPage.to_u8(), 4);
    assert_eq!(PageType::from_u8(2).unwrap(), PageType::MetaPage);
    assert!(PageType::from_u8(0).is_err());
    assert!(PageType::from_u8(5).is_err());
}

#[test]
fn test_slot_entry_roundtrip() {
    let s = SlotEntry::new(0x1234, 0x00C8);
    let bytes = s.serialize();
    assert_eq!(bytes, vec![0x34, 0x12, 0xC8, 0x00]);
    let back = SlotEntry::deserialize(&bytes).unwrap();
    assert_eq!(back.offset, 0x1234);
    assert_eq!(back.length, 0x00C8);
    assert!(SlotEntry::deserialize(&bytes[0..3]).is_err());
}

#[test]
fn test_value_roundtrips() {
    let values = vec![
        Value::Byte(200),
        Value::Short(-1234),
        Value::Int(-70000),
        Value::Long(-123456789012345),
        Value::Float(1.5f32.to_bits()),
        Value::Double((-2.75f64).to_bits()),
        Value::Boolean(true),
        Value::Boolean(false),
        Value::Str(b"hello".to_vec()),
        Value::Str(Vec::new()),
    ];
    for v in values {
        let bytes = v.serialize();
        let (back, used) = Value::deserialize(&bytes).unwrap();
        assert_eq!(back, v);
        assert_eq!(used, bytes.len());
    }
}

#[test]
fn test_value_float_bits_preserved() {
    let bits = f32::NAN.to_bits();
    let v = Value::Float(bits);
    let bytes = v.serialize();
    assert_eq!(bytes[0], 4);
    let (back, _) = Value::deserialize(&bytes).unwrap();
    match back {
        Value::Float(b) => assert_eq!(b, bits),
        _ => panic!("wrong variant"),
    }
}

#[test]
fn test_value_deserialize_errors() {
    assert_eq!(
        Value::deserialize(&[]),
        Err(DatabaseError::InvalidData)
    );
    assert_eq!(
        Value::deserialize(&[15]),
        Err(DatabaseError::InvalidData)
    );
    // Tag promises a long but the body is cut short.
    assert_eq!(
        Value::deserialize(&[3, 1, 2, 3]),
        Err(DatabaseError::InvalidData)
    );
    // String length prefix promises more bytes than are present.
    assert_eq!(
        Value::deserialize(&[7, 4, b'a', b'b']),
        Err(DatabaseError::InvalidData)
    );
}

#[test]
fn test_value_type_metadata() {
    assert_eq!(Value::Byte(1).type_id(), 0);
    assert_eq!(Value::Str(b"x".to_vec()).type_id(), 7);
    assert_eq!(Value::Long(0).type_size(), 9);
    assert_eq!(Value::Str(b"x".to_vec()).type_size(), 256);
    assert_eq!(Value::Boolean(true).kind_name(), "boolean");
    assert_eq!(Value::Double(0).kind_name(), "double");
}

#[test]
fn test_chunk_lifecycle() {
    let mut c = Chunk::new(12);
    assert!(!c.is_allocated());
    assert!(!c.is_live());
    assert!(c.is_evacutable());
    assert_eq!(c.dead_page_count(), 0);
    c.append_page();
    c.append_page();
    c.append_page();
    assert_eq!(c.page_count, 3);
    assert_eq!(c.page_count_live, 3);
    assert!(c.is_live());
    c.mark_page_deleted(1);
    assert_eq!(c.page_count_live, 2);
    assert_eq!(c.dead_page_count(), 1);
    c.block = 4096;
    assert!(c.is_allocated());
    assert!(c.is_saved());
    assert!(c.is_rewritable());
    c.pin_count = 1;
    assert!(!c.is_evacutable());
    assert!(!c.is_rewritable());
}

#[test]
fn test_chunk_serializes_through_codec() {
    let mut c = Chunk::new(9);
    c.version = 4;
    c.length = 2;
    c.time = 77;
    c.append_page();
    let hb = c.serialize_header();
    let h = ChunkHeader::deserialize_header(&hb).unwrap();
    assert_eq!(h.id, 9);
    assert_eq!(h.version, 4);
    assert_eq!(h.length, 2);
    assert_eq!(h.time, 77);
    assert_eq!(h.page_count, 1);
    let fb = c.serialize_footer();
    assert!(ChunkFooter::verify_footer(&fb));
    let f = ChunkFooter::deserialize_footer(&fb).unwrap();
    assert_eq!((f.id, f.length, f.version), (9, 2, 4));
}

#[test]
fn test_chunk_buffer_blocks_saved() {
    let mut c = Chunk::new(1);
    c.block = 8192;
    c.buffer = bytes::Bytes::from(vec![1u8, 2, 3]);
    assert!(c.is_allocated());
    assert!(!c.is_saved());
    c.clear_buffer();
    assert!(c.is_saved());
}

#[test]
fn test_schema_field_validation() {
    assert!(FieldType::Int.validates(&Value::Int(5)));
    assert!(!FieldType::Int.validates(&Value::Long(5)));
    assert!(FieldType::String.validates(&Value::Str(b"a".to_vec())));
    assert!(!FieldType::Boolean.validates(&Value::Byte(1)));
    let schema = Schema::new(
        String::from("users"),
        vec![
            Field {
                name: String::from("id"),
                field_type: FieldType::Long,
                nullable: false,
            },
            Field {
                name: String::from("name"),
                field_type: FieldType::String,
                nullable: true,
            },
        ],
    );
    assert_eq!(schema.fields.len(), 2);
    assert_eq!(schema.name, "users");
}

#[test]
fn test_query_builder() {
    let qb = QueryBuilder::new(9);
    let q = qb.where_eq(String::from("age"), Value::Int(30));
    assert_eq!(q.field, "age");
    assert!(matches!(q.operation, QueryOperation::Equals));
    assert_eq!(q.value, Value::Int(30));
}
