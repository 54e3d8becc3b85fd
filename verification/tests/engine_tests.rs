use bitask::codec::encode_record;
use bitask::db::{Bitask, Error, MAX_ACTIVE_FILE_SIZE};
use bitask::keydir::{order_of, KeyDir, KeyDirEntry, Order};

#[test]
fn test_max_active_file_size() {
    assert_eq!(MAX_ACTIVE_FILE_SIZE, 4194304);
}

#[test]
fn test_put_appends_one_record() {
    let mut db = Bitask::open_at(true, Vec::new(), 1).unwrap();
    db.put_at(b"key".to_vec(), b"value".to_vec(), 42).unwrap();
    assert_eq!(db.active_data(), &encode_record(42, b"key", b"value").unwrap());
    db.remove_at(b"key".to_vec(), 43).unwrap();
    let mut expected = encode_record(42, b"key", b"value").unwrap();
    expected.extend_from_slice(&encode_record(43, b"key", b"").unwrap());
    assert_eq!(db.active_data(), &expected);
}

#[test]
fn test_remove_of_absent_key_writes_a_tombstone() {
    let mut db = Bitask::open_at(true, Vec::new(), 1).unwrap();
    db.remove_at(b"nothing".to_vec(), 5).unwrap();
    assert_eq!(db.active_data(), &encode_record(5, b"nothing", b"").unwrap());
    assert!(matches!(db.ask(b"nothing"), Err(Error::KeyNotFound)));
}

#[test]
fn test_rotation_happens_only_above_the_limit() {
    let mut db = Bitask::open_at(true, Vec::new(), 1000).unwrap();
    // a record of exactly four mebibytes
    let value = vec![7u8; 4 * 1024 * 1024 - 20 - 1];
    db.put_at(b"a".to_vec(), value.clone(), 1001).unwrap();
    assert_eq!(db.active_data().len() as u64, MAX_ACTIVE_FILE_SIZE);
    db.put_at(b"b".to_vec(), b"x".to_vec(), 1002).unwrap();
    assert_eq!(db.sealed_count(), 0);
    assert_eq!(db.writer_id(), 1000);
    // now the active segment is above the limit
    db.put_at(b"c".to_vec(), b"y".to_vec(), 1003).unwrap();
    assert_eq!(db.sealed_count(), 1);
    assert_eq!(db.sealed_segment(0).id, 1000);
    assert_eq!(db.writer_id(), 1003);
    assert_eq!(db.active_data(), &encode_record(1003, b"c", b"y").unwrap());
    assert_eq!(db.ask(b"a").unwrap(), value);
    assert_eq!(db.ask(b"b").unwrap(), b"x");
    assert_eq!(db.ask(b"c").unwrap(), b"y");
}

#[test]
fn test_rotation_id_is_above_all_ids() {
    let mut db = Bitask::open_at(true, Vec::new(), 1000).unwrap();
    db.put_at(b"a".to_vec(), vec![7u8; 4 * 1024 * 1024], 1000).unwrap();
    // same millisecond: the next id is taken
    db.put_at(b"b".to_vec(), vec![8u8; 4 * 1024 * 1024], 1000).unwrap();
    assert_eq!(db.writer_id(), 1001);
    // the clock went back
    db.put_at(b"c".to_vec(), b"z".to_vec(), 3).unwrap();
    assert_eq!(db.writer_id(), 1002);
    assert_eq!(db.sealed_count(), 2);
    assert_eq!(db.sealed_segment(0).id, 1000);
    assert_eq!(db.sealed_segment(1).id, 1001);
}

#[test]
fn test_rotation_without_an_id_left() {
    let mut db = Bitask::open_at(true, Vec::new(), u64::MAX).unwrap();
    db.put_at(b"a".to_vec(), vec![7u8; 4 * 1024 * 1024], 5).unwrap();
    let before = db.active_data().len();
    let result = db.put_at(b"b".to_vec(), b"x".to_vec(), 6);
    assert!(matches!(result, Err(Error::TimestampOverflow)));
    assert_eq!(db.active_data().len(), before);
    assert_eq!(db.sealed_count(), 0);
    assert!(matches!(db.ask(b"b"), Err(Error::KeyNotFound)));
    assert!(matches!(db.rotate_active_file(7), Err(Error::TimestampOverflow)));
}

#[test]
fn test_rotate_active_file() {
    let mut db = Bitask::open_at(true, Vec::new(), 10).unwrap();
    db.put_at(b"k".to_vec(), b"v".to_vec(), 11).unwrap();
    db.rotate_active_file(20).unwrap();
    assert_eq!(db.writer_id(), 20);
    assert!(db.active_data().is_empty());
    assert_eq!(db.sealed_count(), 1);
    assert_eq!(db.sealed_segment(0).id, 10);
    assert_eq!(db.sealed_segment(0).data, encode_record(11, b"k", b"v").unwrap());
    assert_eq!(db.ask(b"k").unwrap(), b"v");
}

#[test]
fn test_compact_needs_two_sealed_segments() {
    let mut db = Bitask::open_at(true, Vec::new(), 10).unwrap();
    db.put_at(b"k".to_vec(), b"v".to_vec(), 11).unwrap();
    db.compact().unwrap();
    assert_eq!(db.sealed_count(), 0);
    db.rotate_active_file(20).unwrap();
    db.compact().unwrap();
    assert_eq!(db.sealed_count(), 1);
    assert_eq!(db.sealed_segment(0).id, 10);
    assert_eq!(db.ask(b"k").unwrap(), b"v");
}

#[test]
fn test_compact_writes_live_records_in_key_order() {
    let mut db = Bitask::open_at(true, Vec::new(), 10).unwrap();
    db.put_at(b"b".to_vec(), b"old".to_vec(), 11).unwrap();
    db.put_at(b"c".to_vec(), b"gone".to_vec(), 12).unwrap();
    db.put_at(b"a".to_vec(), b"one".to_vec(), 13).unwrap();
    db.rotate_active_file(20).unwrap();
    db.put_at(b"b".to_vec(), b"new".to_vec(), 21).unwrap();
    db.remove_at(b"c".to_vec(), 22).unwrap();
    db.put_at(b"d".to_vec(), b"four".to_vec(), 23).unwrap();
    db.rotate_active_file(30).unwrap();
    db.put_at(b"d".to_vec(), b"active".to_vec(), 31).unwrap();
    let active = db.active_data().clone();
    let sealed_before = db.sealed_segment(0).data.len() + db.sealed_segment(1).data.len();

    db.compact().unwrap();

    // the records of a and b are live; two puts and a tombstone are dropped
    assert_eq!(db.sealed_segment(0).data.len(), (20 + 1 + 3) + (20 + 1 + 3));
    assert!(db.sealed_segment(0).data.len() < sealed_before);
    assert_eq!(db.writer_id(), 30);
    assert_eq!(db.active_data(), &active);
    assert_eq!(db.sealed_count(), 1);
    assert_eq!(db.sealed_segment(0).id, 20);
    let mut merged = encode_record(13, b"a", b"one").unwrap();
    merged.extend_from_slice(&encode_record(21, b"b", b"new").unwrap());
    assert_eq!(db.sealed_segment(0).data, merged);
    assert_eq!(db.ask(b"a").unwrap(), b"one");
    assert_eq!(db.ask(b"b").unwrap(), b"new");
    assert!(matches!(db.ask(b"c"), Err(Error::KeyNotFound)));
    assert_eq!(db.ask(b"d").unwrap(), b"active");
}

#[test]
fn test_compact_takes_the_id_of_the_last_sealed_segment() {
    let mut db = Bitask::open_at(true, Vec::new(), 10).unwrap();
    db.put_at(b"a".to_vec(), b"1".to_vec(), 11).unwrap();
    db.rotate_active_file(20).unwrap();
    db.rotate_active_file(30).unwrap();
    db.compact().unwrap();
    assert_eq!(db.sealed_count(), 1);
    assert_eq!(db.sealed_segment(0).id, 20);
    assert_eq!(db.sealed_segment(0).data, encode_record(11, b"a", b"1").unwrap());
    assert_eq!(db.writer_id(), 30);
    assert_eq!(db.ask(b"a").unwrap(), b"1");
    db.rotate_active_file(40).unwrap();
    db.compact().unwrap();
    assert_eq!(db.sealed_count(), 1);
    assert_eq!(db.sealed_segment(0).id, 30);
    assert_eq!(db.writer_id(), 40);
    assert_eq!(db.ask(b"a").unwrap(), b"1");
}

#[test]
fn test_compact_with_the_smallest_ids() {
    let mut db = Bitask::open_at(true, Vec::new(), 0).unwrap();
    db.put_at(b"a".to_vec(), b"1".to_vec(), 11).unwrap();
    db.rotate_active_file(0).unwrap();
    db.rotate_active_file(0).unwrap();
    assert_eq!(db.writer_id(), 2);
    assert_eq!(db.sealed_count(), 2);
    db.compact().unwrap();
    assert_eq!(db.sealed_count(), 1);
    assert_eq!(db.sealed_segment(0).id, 1);
    assert_eq!(db.ask(b"a").unwrap(), b"1");
}

#[test]
fn test_merge_count() {
    let mut db = Bitask::open_at(true, Vec::new(), 10).unwrap();
    assert_eq!(db.merge_count(), 0);
    db.put_at(b"a".to_vec(), b"1".to_vec(), 11).unwrap();
    db.rotate_active_file(20).unwrap();
    db.compact().unwrap();
    assert_eq!(db.merge_count(), 0);
    db.rotate_active_file(30).unwrap();
    db.compact().unwrap();
    assert_eq!(db.merge_count(), 1);
    db.remove_at(b"a".to_vec(), 31).unwrap();
    assert_eq!(db.merge_count(), 1);
    let db = db.reopen().unwrap();
    assert_eq!(db.merge_count(), 0);
}

#[test]
fn test_put_is_stamped_no_earlier_than_the_current_record() {
    let mut db = Bitask::open_at(true, Vec::new(), 1).unwrap();
    db.put_at(b"k".to_vec(), b"v1".to_vec(), 100).unwrap();
    db.put_at(b"k".to_vec(), b"v2".to_vec(), 50).unwrap();
    db.put_at(b"other".to_vec(), b"x".to_vec(), 50).unwrap();
    let mut expected = encode_record(100, b"k", b"v1").unwrap();
    expected.extend_from_slice(&encode_record(100, b"k", b"v2").unwrap());
    expected.extend_from_slice(&encode_record(50, b"other", b"x").unwrap());
    assert_eq!(db.active_data(), &expected);
    // after a delete the key has no current record
    db.remove_at(b"k".to_vec(), 60).unwrap();
    db.put_at(b"k".to_vec(), b"v3".to_vec(), 55).unwrap();
    expected.extend_from_slice(&encode_record(60, b"k", b"").unwrap());
    expected.extend_from_slice(&encode_record(55, b"k", b"v3").unwrap());
    assert_eq!(db.active_data(), &expected);
    assert_eq!(db.ask(b"k").unwrap(), b"v3");
}

#[test]
fn test_last_operation_on_each_key_decides() {
    let mut db = Bitask::open_at(true, Vec::new(), 1).unwrap();
    db.put_at(b"x".to_vec(), b"1".to_vec(), 2).unwrap();
    db.put_at(b"y".to_vec(), b"2".to_vec(), 3).unwrap();
    db.remove_at(b"x".to_vec(), 4).unwrap();
    db.put_at(b"z".to_vec(), b"3".to_vec(), 5).unwrap();
    db.put_at(b"y".to_vec(), b"4".to_vec(), 6).unwrap();
    db.remove_at(b"z".to_vec(), 7).unwrap();
    db.put_at(b"z".to_vec(), b"5".to_vec(), 8).unwrap();
    assert!(matches!(db.ask(b"x"), Err(Error::KeyNotFound)));
    assert_eq!(db.ask(b"y").unwrap(), b"4");
    assert_eq!(db.ask(b"z").unwrap(), b"5");
}

#[test]
fn test_keys_and_values_are_binary_safe() {
    let mut db = Bitask::open_at(true, Vec::new(), 1).unwrap();
    let key = vec![0u8, 255, 0, 10, 13];
    let value = vec![0u8; 3];
    db.put_at(key.clone(), value.clone(), 2).unwrap();
    db.put_at(vec![0u8], vec![255u8], 3).unwrap();
    assert_eq!(db.ask(&key).unwrap(), value);
    assert_eq!(db.ask(&[0u8]).unwrap(), vec![255u8]);
    assert!(matches!(db.ask(&[0u8, 255]), Err(Error::KeyNotFound)));
}

#[test]
fn test_order_of_byte_strings() {
    assert_eq!(order_of(b"", b""), Order::Same);
    assert_eq!(order_of(b"", b"a"), Order::Before);
    assert_eq!(order_of(b"a", b""), Order::After);
    assert_eq!(order_of(b"ab", b"abc"), Order::Before);
    assert_eq!(order_of(b"abd", b"abc"), Order::After);
    assert_eq!(order_of(b"b", b"abc"), Order::After);
    assert_eq!(order_of(b"abc", b"abc"), Order::Same);
    assert_eq!(order_of(&[0x7f], &[0x80]), Order::Before);
}

#[test]
fn test_keydir_keeps_keys_sorted() {
    let entry = |n: u64| KeyDirEntry { file_id: n, value_size: 1, value_position: 20, timestamp: n };
    let mut keydir = KeyDir::new();
    for (i, key) in [&b"m"[..], b"c", b"x", b"a", b"mm", b"c"].iter().enumerate() {
        keydir.insert(key.to_vec(), entry(i as u64));
    }
    assert_eq!(keydir.len(), 5);
    assert_eq!(keydir.keys, vec![b"a".to_vec(), b"c".to_vec(), b"m".to_vec(), b"mm".to_vec(), b"x".to_vec()]);
    assert_eq!(keydir.get(b"c"), Some(entry(5)));
    assert_eq!(keydir.get(b"m"), Some(entry(0)));
    assert_eq!(keydir.get(b"b"), None);
    assert_eq!(keydir.find(b"b"), (false, 1));
    assert_eq!(keydir.find(b"mm"), (true, 3));
    keydir.remove(b"m");
    keydir.remove(b"zz");
    assert_eq!(keydir.len(), 4);
    assert_eq!(keydir.get(b"m"), None);
    assert_eq!(keydir.get(b"mm"), Some(entry(4)));
}

#[test]
fn test_compact_merges_two_sealed_segments() {
    let mut db = Bitask::open_at(true, Vec::new(), 10).unwrap();
    db.put_at(b"a".to_vec(), b"1".to_vec(), 11).unwrap();
    db.rotate_active_file(20).unwrap();
    // one sealed segment: nothing is done
    db.compact().unwrap();
    assert_eq!(db.sealed_count(), 1);
    assert_eq!(db.sealed_segment(0).id, 10);
    db.put_at(b"a".to_vec(), b"2".to_vec(), 21).unwrap();
    db.put_at(b"b".to_vec(), b"3".to_vec(), 22).unwrap();
    db.rotate_active_file(30).unwrap();
    db.put_at(b"c".to_vec(), b"4".to_vec(), 31).unwrap();
    let active = db.active_data().clone();
    // two sealed segments: they are merged under the id of the second
    db.compact().unwrap();
    assert_eq!(db.sealed_count(), 1);
    assert_eq!(db.sealed_segment(0).id, 20);
    let mut merged = encode_record(21, b"a", b"2").unwrap();
    merged.extend_from_slice(&encode_record(22, b"b", b"3").unwrap());
    assert_eq!(db.sealed_segment(0).data, merged);
    assert_eq!(db.writer_id(), 30);
    assert_eq!(db.active_data(), &active);
    assert_eq!(db.ask(b"a").unwrap(), b"2");
    assert_eq!(db.ask(b"b").unwrap(), b"3");
    assert_eq!(db.ask(b"c").unwrap(), b"4");
}
