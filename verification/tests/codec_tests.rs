use bitask::clock::{millis_to_u64, timestamp_as_u64};
use bitask::codec::{encode_record, CommandHeader, CommandRemove, CommandSet};
use bitask::error::{Error, IoErrorKind};

#[test]
fn test_set_command_serialization() {
    let key = b"key".to_vec();
    let value = b"value".to_vec();
    let command = CommandSet::new(key.clone(), value.clone()).unwrap();

    let mut buffer = vec![0; CommandHeader::SIZE + key.len() + value.len()];
    command.serialize(&mut buffer).unwrap();

    let header = CommandHeader::deserialize(&buffer[..CommandHeader::SIZE]).unwrap();
    assert_eq!(header.key_len, key.len() as u32);
    assert_eq!(header.value_size, value.len() as u32);

    assert_eq!(&buffer[CommandHeader::SIZE..CommandHeader::SIZE + key.len()], key);
    assert_eq!(&buffer[CommandHeader::SIZE + key.len()..], value);

    let mut hasher = crc32fast::Hasher::new();
    hasher.update(&key);
    hasher.update(&value);
    assert_eq!(header.crc, hasher.finalize());
}

#[test]
fn test_remove_command_serialization() {
    let key = b"key".to_vec();
    let command = CommandRemove::new(key.clone()).unwrap();

    let mut buffer = vec![0; CommandHeader::SIZE + key.len()];
    command.serialize(&mut buffer).unwrap();

    let header = CommandHeader::deserialize(&buffer[..CommandHeader::SIZE]).unwrap();
    assert_eq!(header.key_len, key.len() as u32);
    assert_eq!(header.value_size, 0);

    assert_eq!(&buffer[CommandHeader::SIZE..], key);

    let mut hasher = crc32fast::Hasher::new();
    hasher.update(&key);
    assert_eq!(header.crc, hasher.finalize());
}

#[test]
fn test_header_size() {
    assert_eq!(CommandHeader::SIZE, 20);
}

#[test]
fn test_header_layout_is_little_endian() {
    let header = CommandHeader::new(0x0403_0201, 0x0c0b_0a09_0807_0605, 0x100f_0e0d, 0x1413_1211);
    let mut buffer = vec![0xffu8; 22];
    header.serialize(&mut buffer).unwrap();
    let expected: Vec<u8> = (1u8..=20).chain([0xff, 0xff]).collect();
    assert_eq!(buffer, expected);
    assert_eq!(CommandHeader::deserialize(&buffer).unwrap(), header);
}

#[test]
fn test_header_serialize_short_buffer() {
    let header = CommandHeader::new(1, 2, 3, 4);
    let mut buffer = vec![7u8; 19];
    let result = header.serialize(&mut buffer);
    assert!(matches!(result, Err(Error::Io(IoErrorKind::WriteZero))));
    assert_eq!(buffer, vec![7u8; 19]);
}

#[test]
fn test_header_deserialize_short_buffer() {
    assert!(matches!(CommandHeader::deserialize(&[0u8; 19]), Err(Error::ShortHeader)));
    assert!(matches!(CommandHeader::deserialize(&[]), Err(Error::ShortHeader)));
    assert!(CommandHeader::deserialize(&[0u8; 20]).is_ok());
}

#[test]
fn test_command_serialize_short_buffer() {
    let command = CommandSet::with_timestamp(b"key".to_vec(), b"value".to_vec(), 5);
    let mut buffer = vec![0u8; 27];
    assert!(matches!(command.serialize(&mut buffer), Err(Error::Io(IoErrorKind::WriteZero))));
    assert_eq!(buffer, vec![0u8; 27]);
    let command = CommandRemove::with_timestamp(b"key".to_vec(), 5);
    let mut buffer = vec![0u8; 22];
    assert!(matches!(command.serialize(&mut buffer), Err(Error::Io(IoErrorKind::WriteZero))));
}

#[test]
fn test_checksum_is_crc32_ieee() {
    // the check value of CRC-32 (IEEE)
    let command = CommandRemove::with_timestamp(b"123456789".to_vec(), 0);
    assert_eq!(command.crc, 0xCBF4_3926);
    let command = CommandSet::with_timestamp(b"12345".to_vec(), b"6789".to_vec(), 0);
    assert_eq!(command.crc, 0xCBF4_3926);
}

#[test]
fn test_encode_record_exact_bytes() {
    let record = encode_record(0x0102, b"k", b"vw").unwrap();
    let crc = crc32fast::hash(b"kvw").to_le_bytes();
    let mut expected = Vec::new();
    expected.extend_from_slice(&crc);
    expected.extend_from_slice(&[0x02, 0x01, 0, 0, 0, 0, 0, 0]);
    expected.extend_from_slice(&[1, 0, 0, 0]);
    expected.extend_from_slice(&[2, 0, 0, 0]);
    expected.extend_from_slice(b"kvw");
    assert_eq!(record, expected);
}

#[test]
fn test_record_round_trip() {
    let key = b"some key".to_vec();
    let value = vec![9u8; 300];
    let record = encode_record(77, &key, &value).unwrap();
    let header = CommandHeader::deserialize(&record).unwrap();
    assert_eq!(header.timestamp, 77);
    assert_eq!(header.key_len, 8);
    assert_eq!(header.value_size, 300);
    assert_eq!(&record[20..28], &key[..]);
    assert_eq!(&record[28..], &value[..]);
    assert_eq!(header.crc, crc32fast::hash(&record[20..]));
}

#[test]
fn test_millis_to_u64() {
    assert_eq!(millis_to_u64(0).unwrap(), 0);
    assert_eq!(millis_to_u64(u64::MAX as u128).unwrap(), u64::MAX);
    assert!(matches!(millis_to_u64(u64::MAX as u128 + 1), Err(Error::TimestampOverflow)));
}

#[test]
fn test_timestamp_is_after_2020() {
    let now = timestamp_as_u64().unwrap();
    assert!(now > 1_577_836_800_000);
}
