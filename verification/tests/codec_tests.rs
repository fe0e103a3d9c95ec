use key_value_store::errors::Error;
use key_value_store::serialization::{
    deserialize, deserialize_entries_from_bytes, deserialize_length, serialize, serialize_length,
    KVMemoryRepr, SerializationError,
};

#[test]
fn serialize_record_layout() {
    let record = KVMemoryRepr::new(1, Some(2));
    let bytes = serialize(&record).unwrap();
    assert_eq!(bytes.len(), 21);
    // 3-byte little-endian length prefix: payload is 18 bytes.
    assert_eq!(&bytes[0..3], &[18, 0, 0]);
    // key, little endian
    assert_eq!(&bytes[3..11], &[1, 0, 0, 0, 0, 0, 0, 0]);
    // value present tag, value, valid flag
    assert_eq!(bytes[11], 1);
    assert_eq!(&bytes[12..20], &[2, 0, 0, 0, 0, 0, 0, 0]);
    assert_eq!(bytes[20], 1);
}

#[test]
fn serialize_tombstone_layout() {
    let record = KVMemoryRepr::new(7, None);
    let bytes = serialize(&record).unwrap();
    assert_eq!(bytes.len(), 21);
    assert_eq!(bytes[11], 0);
    assert_eq!(&bytes[12..20], &[0, 0, 0, 0, 0, 0, 0, 0]);
}

#[test]
fn deserialize_roundtrip() {
    let record = KVMemoryRepr::new(0xDEAD_BEEF_1234_5678, Some(42));
    let bytes = serialize(&record).unwrap();
    let (back, rest) = deserialize(&bytes).unwrap();
    assert_eq!(*back.key(), 0xDEAD_BEEF_1234_5678);
    assert_eq!(*back.value(), Some(42));
    assert!(rest.is_empty());
}

#[test]
fn deserialize_tombstone_roundtrip() {
    let record = KVMemoryRepr::new(3, None);
    let bytes = serialize(&record).unwrap();
    let (back, _) = deserialize(&bytes).unwrap();
    assert_eq!(*back.key(), 3);
    assert_eq!(*back.value(), None);
}

#[test]
fn scan_record_with_zero_tail() {
    // Round trip through empty space: a record followed by zeros scans back
    // to exactly that record.
    let record = KVMemoryRepr::new(9, Some(90));
    let mut bytes = serialize(&record).unwrap();
    bytes.resize(16384, 0);
    let entries = deserialize_entries_from_bytes(&bytes).unwrap();
    assert_eq!(entries.len(), 1);
    assert_eq!(*entries[0].key(), 9);
    assert_eq!(*entries[0].value(), Some(90));
}

#[test]
fn scan_several_records() {
    let mut bytes = Vec::new();
    for k in 0..5u64 {
        bytes.extend_from_slice(&serialize(&KVMemoryRepr::new(k, Some(k * 10))).unwrap());
    }
    bytes.resize(1024, 0);
    let entries = deserialize_entries_from_bytes(&bytes).unwrap();
    assert_eq!(entries.len(), 5);
    for (i, e) in entries.iter().enumerate() {
        assert_eq!(*e.key(), i as u64);
        assert_eq!(*e.value(), Some(i as u64 * 10));
    }
}

#[test]
fn scan_empty_buffer() {
    let entries = deserialize_entries_from_bytes(&[]).unwrap();
    assert!(entries.is_empty());
    let zeros = vec![0u8; 100];
    let entries = deserialize_entries_from_bytes(&zeros).unwrap();
    assert!(entries.is_empty());
}

#[test]
fn scan_rejects_garbage() {
    // A non-zero buffer that decodes to nothing is an error, not empty space.
    let garbage = vec![5u8, 0, 0, 1, 2, 3];
    let r = deserialize_entries_from_bytes(&garbage);
    assert!(matches!(r, Err(Error::Serialization(_))));
}

#[test]
fn deserialize_buffer_too_small() {
    let r = deserialize(&[18, 0]);
    assert!(matches!(
        r,
        Err(Error::Serialization(SerializationError::BufferTooSmall))
    ));
    // Declared length exceeds what the buffer holds.
    let r = deserialize(&[18, 0, 0, 1, 2, 3]);
    assert!(matches!(
        r,
        Err(Error::Serialization(SerializationError::BufferTooSmall))
    ));
    // A zero length prefix marks empty space, not a record.
    let r = deserialize(&[0, 0, 0, 1, 1, 1]);
    assert!(matches!(
        r,
        Err(Error::Serialization(SerializationError::BufferTooSmall))
    ));
}

#[test]
fn deserialize_decode_failed() {
    // A length that is not the fixed payload width fails to decode.
    let mut bytes = vec![5u8, 0, 0];
    bytes.extend_from_slice(&[1, 2, 3, 4, 5]);
    let r = deserialize(&bytes);
    assert!(matches!(
        r,
        Err(Error::Serialization(SerializationError::DecodeFailed))
    ));
    // A malformed value tag fails to decode.
    let record = KVMemoryRepr::new(1, Some(2));
    let mut bytes = serialize(&record).unwrap();
    bytes[11] = 9;
    let r = deserialize(&bytes);
    assert!(matches!(
        r,
        Err(Error::Serialization(SerializationError::DecodeFailed))
    ));
}

#[test]
fn scan_skips_invalid_records() {
    // A record whose valid flag is clear is skipped silently.
    let record = KVMemoryRepr::new(5, Some(50));
    let mut bytes = serialize(&record).unwrap();
    bytes[20] = 0;
    bytes.extend_from_slice(&serialize(&KVMemoryRepr::new(6, Some(60))).unwrap());
    let entries = deserialize_entries_from_bytes(&bytes).unwrap();
    assert_eq!(entries.len(), 1);
    assert_eq!(*entries[0].key(), 6);
}

#[test]
fn length_prefix_roundtrip() {
    let mut buf = vec![0u8; 8];
    serialize_length(0x030201, &mut buf).unwrap();
    assert_eq!(&buf[0..3], &[1, 2, 3]);
    assert_eq!(deserialize_length(&buf[0..3]), 0x030201);
}

#[test]
fn length_prefix_too_big() {
    let mut buf = vec![0u8; 4];
    let r = serialize_length(0x1_000_000, &mut buf);
    assert!(matches!(r, Err(Error::TooBig)));
    assert!(serialize_length(0xFF_FFFF, &mut buf).is_ok());
    assert_eq!(deserialize_length(&buf[0..3]), 0xFF_FFFF);
}
