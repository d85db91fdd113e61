use kenchdb::add;
use kenchdb::checksum::get_fletcher32;
use kenchdb::chunk::{ChunkFooter, ChunkHeader};
use kenchdb::error::StorageError;

#[test]
fn it_works() {
    let result = add(2, 2);
    assert_eq!(result, 4);
}

#[test]
fn test_fletcher32_basic() {
    let data = b"hello world";
    let checksum = get_fletcher32(data, 0, data.len());
    println!("Fletcher32 checksum: 0x{:08x}", checksum);
}

#[test]
fn test_fletcher32_odd_length() {
    let data = b"hello"; // 5 bytes (odd)
    let checksum = get_fletcher32(data, 0, data.len());
    println!("Fletcher32 checksum (odd): 0x{:08x}", checksum);
}

#[test]
fn test_fletcher32_with_offset() {
    let data = b"xxhello world";
    let checksum1 = get_fletcher32(data, 2, 11); // skip "xx"
    let checksum2 = get_fletcher32(b"hello world", 0, 11);
    assert_eq!(checksum1, checksum2);
}

#[test]
fn test_fletcher32_empty() {
    let data = b"";
    let checksum = get_fletcher32(data, 0, 0);
    assert_eq!(checksum, 0xffff_ffff);
}

#[test]
fn test_fletcher32_known_vectors() {
    // The empty message, and offset invariance on a fixed message.
    assert_eq!(get_fletcher32(b"", 0, 0), 0xffff_ffff);
    let x = get_fletcher32(b"abcde", 0, 5);
    assert_eq!(get_fletcher32(b"xxabcde", 2, 5), x);
}

#[test]
fn test_fletcher32_long_input() {
    // Crosses several 360-word reduction cycles.
    let mut data = Vec::new();
    for i in 0..4096usize {
        data.push((i % 251) as u8);
    }
    let whole = get_fletcher32(&data, 0, data.len());
    let mut shifted = vec![0xAAu8, 0xBB];
    shifted.extend_from_slice(&data);
    assert_eq!(get_fletcher32(&shifted, 2, data.len()), whole);
}

#[test]
fn test_header_roundtrip() {
    let original = ChunkHeader {
        magic: *b"KNCH",
        id: 123,
        length: 456,
        version: 789,
        time: 1234567890,
        max_length: 999,
        page_count: 10,
        pin_count: 5,
        table_of_content_position: 100,
        layout_root_position: 200,
        map_id: 42,
        next: 300,
    };

    let serialized = original.serialize_header();
    let deserialized = ChunkHeader::deserialize_header(&serialized).unwrap();

    assert_eq!(original.magic, deserialized.magic);
    assert_eq!(original.id, deserialized.id);
    assert_eq!(original.length, deserialized.length);
    assert_eq!(original.version, deserialized.version);
    assert_eq!(original.time, deserialized.time);
    assert_eq!(original.max_length, deserialized.max_length);
    assert_eq!(original.page_count, deserialized.page_count);
    assert_eq!(original.pin_count, deserialized.pin_count);
    assert_eq!(
        original.table_of_content_position,
        deserialized.table_of_content_position
    );
    assert_eq!(
        original.layout_root_position,
        deserialized.layout_root_position
    );
    assert_eq!(original.map_id, deserialized.map_id);
    assert_eq!(original.next, deserialized.next);
}

#[test]
fn test_footer_roundtrip() {
    let original = ChunkFooter {
        id: 123,
        length: 456,
        version: 789,
        checksum: 0, // Will be calculated during serialization
    };

    let serialized = original.serialize_footer();
    let deserialized = ChunkFooter::deserialize_footer(&serialized).unwrap();

    assert_eq!(original.id, deserialized.id);
    assert_eq!(original.length, deserialized.length);
    assert_eq!(original.version, deserialized.version);
    // checksum will be different as it's calculated during serialization
    assert!(ChunkFooter::verify_footer(&serialized));
}

#[test]
fn test_header_layout_fixed_offsets() {
    // Fields sit at their fixed little-endian offsets; the tail is zero.
    let h = ChunkHeader {
        magic: *b"KNCH",
        id: 0x01020304,
        length: 2,
        version: 3,
        time: 4,
        max_length: 5,
        page_count: 6,
        pin_count: 7,
        table_of_content_position: 8,
        layout_root_position: 9,
        map_id: 10,
        next: 11,
    };
    let b = h.serialize_header();
    assert_eq!(b.len(), 96);
    assert_eq!(&b[0..4], b"KNCH");
    assert_eq!(&b[4..8], &[0x04, 0x03, 0x02, 0x01]);
    assert_eq!(b[8], 2);
    assert_eq!(b[12], 3);
    assert_eq!(b[20], 4);
    assert_eq!(b[28], 5);
    assert_eq!(b[32], 6);
    assert_eq!(b[36], 7);
    assert_eq!(b[40], 8);
    assert_eq!(b[44], 9);
    assert_eq!(b[52], 10);
    assert_eq!(b[56], 11);
    for i in 64..96 {
        assert_eq!(b[i], 0);
    }
}

#[test]
fn test_header_wrong_size_rejected() {
    let short = vec![0u8; 95];
    match ChunkHeader::deserialize_header(&short) {
        Err(e) => assert_eq!(e, StorageError::Corrupt),
        Ok(_) => panic!("short buffer must be rejected"),
    }
    let long = vec![0u8; 97];
    match ChunkHeader::deserialize_header(&long) {
        Err(e) => assert_eq!(e, StorageError::Corrupt),
        Ok(_) => panic!("long buffer must be rejected"),
    }
}

#[test]
fn test_footer_wrong_size_rejected() {
    let short = vec![0u8; 20];
    assert!(ChunkFooter::deserialize_footer(&short).is_err());
    assert!(!ChunkFooter::verify_footer(&short));
}

#[test]
fn test_footer_verify_detects_bit_flips() {
    let f = ChunkFooter {
        id: 1,
        length: 2,
        version: 3,
        checksum: 0,
    };
    let serialized = f.serialize_footer();
    assert!(ChunkFooter::verify_footer(&serialized));
    for byte in 0..20 {
        for bit in 0..8 {
            let mut corrupted = serialized.clone();
            corrupted[byte] ^= 1u8 << bit;
            assert!(
                !ChunkFooter::verify_footer(&corrupted),
                "flip at byte {} bit {} went unnoticed",
                byte,
                bit
            );
        }
    }
}

#[test]
fn test_footer_checksum_matches_fletcher() {
    let f = ChunkFooter {
        id: 7,
        length: 9,
        version: 11,
        checksum: 0,
    };
    let b = f.serialize_footer();
    let expected = get_fletcher32(&b, 0, 16);
    let stored = u32::from_le_bytes([b[16], b[17], b[18], b[19]]);
    assert_eq!(stored, expected);
    let decoded = ChunkFooter::deserialize_footer(&b).unwrap();
    assert_eq!(decoded.checksum, expected);
}
