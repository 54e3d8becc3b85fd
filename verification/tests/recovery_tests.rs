use bitask::codec::encode_record;
use bitask::db::{Bitask, DirEntry, Error};
use bitask::keydir::KeyDir;
use bitask::log::{read_record, rebuild_keydir};

fn entry(name: &str, data: Vec<u8>) -> DirEntry {
    DirEntry { name: name.as_bytes().to_vec(), data }
}

fn log_of(records: &[(u64, &[u8], &[u8])]) -> Vec<u8> {
    let mut data = Vec::new();
    for (timestamp, key, value) in records {
        data.extend_from_slice(&encode_record(*timestamp, key, value).unwrap());
    }
    data
}

#[test]
fn test_open_empty_directory_is_fresh() {
    let db = Bitask::open_at(true, Vec::new(), 1234).unwrap();
    assert_eq!(db.writer_id(), 1234);
    assert_eq!(db.sealed_count(), 0);
    assert!(db.active_data().is_empty());
    assert!(matches!(db.ask(b"key"), Err(Error::KeyNotFound)));
}

#[test]
fn test_open_directory_with_only_lock_is_fresh() {
    let db = Bitask::open_at(true, vec![entry("db.lock", vec![1, 2, 3])], 7).unwrap();
    assert_eq!(db.writer_id(), 7);
    assert_eq!(db.sealed_count(), 0);
}

#[test]
fn test_open_without_lock_fails() {
    let directory = vec![entry("5.active.log", Vec::new())];
    assert!(matches!(Bitask::open_at(false, directory, 9), Err(Error::WriterLock)));
    assert!(matches!(Bitask::open(false, Vec::new()), Err(Error::WriterLock)));
}

#[test]
fn test_open_replays_sealed_in_ascending_order_then_active() {
    let directory = vec![
        entry("30.log", log_of(&[(3, b"a", b"third"), (3, b"b", b"bee")])),
        entry("db.lock", Vec::new()),
        entry("40.active.log", log_of(&[(4, b"c", b"sea"), (5, b"b", b"")])),
        entry("10.log", log_of(&[(1, b"a", b"first"), (1, b"c", b"old")])),
        entry("20.log", log_of(&[(2, b"a", b"second")])),
    ];
    let db = Bitask::open_existing(directory).unwrap();
    assert_eq!(db.writer_id(), 40);
    assert_eq!(db.sealed_count(), 3);
    assert_eq!(db.sealed_segment(0).id, 10);
    assert_eq!(db.sealed_segment(1).id, 20);
    assert_eq!(db.sealed_segment(2).id, 30);
    assert_eq!(db.ask(b"a").unwrap(), b"third");
    assert!(matches!(db.ask(b"b"), Err(Error::KeyNotFound)));
    assert_eq!(db.ask(b"c").unwrap(), b"sea");
}

#[test]
fn test_open_equal_timestamps_later_record_wins() {
    let directory = vec![entry("1.active.log", log_of(&[(5, b"k", b"v1"), (5, b"k", b"v2")]))];
    let db = Bitask::open_existing(directory).unwrap();
    assert_eq!(db.ask(b"k").unwrap(), b"v2");
}

#[test]
fn test_open_older_timestamp_does_not_replace() {
    let directory = vec![entry("1.active.log", log_of(&[(5, b"k", b"v1"), (4, b"k", b"v2")]))];
    let db = Bitask::open_existing(directory).unwrap();
    assert_eq!(db.ask(b"k").unwrap(), b"v1");
}

#[test]
fn test_open_cuts_torn_tail() {
    let mut data = log_of(&[(1, b"key1", b"value1")]);
    let whole = data.len();
    let second = encode_record(2, b"key2", b"value2").unwrap();
    data.extend_from_slice(&second[..second.len() - 1]);
    let mut db = Bitask::open_existing(vec![entry("9.active.log", data)]).unwrap();
    assert_eq!(db.active_data().len(), whole);
    assert_eq!(db.ask(b"key1").unwrap(), b"value1");
    assert!(matches!(db.ask(b"key2"), Err(Error::KeyNotFound)));

    db.put(b"key3".to_vec(), b"value3".to_vec()).unwrap();
    let db = db.reopen().unwrap();
    assert_eq!(db.ask(b"key1").unwrap(), b"value1");
    assert_eq!(db.ask(b"key3").unwrap(), b"value3");
}

#[test]
fn test_open_stops_at_checksum_mismatch() {
    let mut data = log_of(&[(1, b"key1", b"value1"), (2, b"key2", b"value2"), (3, b"key3", b"value3")]);
    let first = 20 + 4 + 6;
    data[first + 20 + 4] ^= 0xff;
    let db = Bitask::open_existing(vec![entry("9.active.log", data)]).unwrap();
    assert_eq!(db.active_data().len(), first);
    assert_eq!(db.ask(b"key1").unwrap(), b"value1");
    assert!(matches!(db.ask(b"key2"), Err(Error::KeyNotFound)));
    assert!(matches!(db.ask(b"key3"), Err(Error::KeyNotFound)));
}

#[test]
fn test_open_rejects_unknown_files() {
    let directory = vec![entry("1.active.log", Vec::new()), entry("notes.txt", Vec::new())];
    match Bitask::open_existing(directory) {
        Err(Error::TimestampParse { value }) => assert_eq!(value, b"notes.txt"),
        other => panic!("expected TimestampParse, got {:?}", other),
    }
    let directory = vec![entry("1.active.log", Vec::new()), entry("2.txt", Vec::new())];
    match Bitask::open_existing(directory) {
        Err(Error::InvalidLogFileName { filename }) => assert_eq!(filename, b"2.txt"),
        other => panic!("expected InvalidLogFileName, got {:?}", other),
    }
}

#[test]
fn test_open_without_active_segment() {
    let directory = vec![entry("db.lock", Vec::new()), entry("1.log", Vec::new())];
    assert!(matches!(Bitask::open_existing(directory), Err(Error::ActiveFileNotFound)));
    let directory = vec![entry("1.log", Vec::new())];
    assert!(matches!(Bitask::open(true, directory), Err(Error::ActiveFileNotFound)));
}

#[test]
fn test_open_rejects_second_active_and_repeated_ids() {
    let directory = vec![entry("1.active.log", Vec::new()), entry("2.active.log", Vec::new())];
    match Bitask::open_existing(directory) {
        Err(Error::InvalidLogFileName { filename }) => assert_eq!(filename, b"2.active.log"),
        other => panic!("expected InvalidLogFileName, got {:?}", other),
    }
    let directory = vec![entry("7.log", Vec::new()), entry("07.log", Vec::new()), entry("8.active.log", Vec::new())];
    match Bitask::open_existing(directory) {
        Err(Error::InvalidLogFileName { filename }) => assert_eq!(filename, b"07.log"),
        other => panic!("expected InvalidLogFileName, got {:?}", other),
    }
    let directory = vec![entry("7.log", Vec::new()), entry("7.active.log", Vec::new())];
    match Bitask::open_existing(directory) {
        Err(Error::InvalidLogFileName { filename }) => assert_eq!(filename, b"7.active.log"),
        other => panic!("expected InvalidLogFileName, got {:?}", other),
    }
}

#[test]
fn test_close_names_the_segments() {
    let mut db = Bitask::open_at(true, Vec::new(), 100).unwrap();
    db.put_at(b"big".to_vec(), vec![1u8; 4 * 1024 * 1024 + 1], 101).unwrap();
    db.put_at(b"small".to_vec(), b"x".to_vec(), 200).unwrap();
    let directory = db.close();
    assert_eq!(directory.len(), 2);
    assert_eq!(directory[0].name, b"100.log");
    assert_eq!(directory[0].data.len(), 20 + 3 + 4 * 1024 * 1024 + 1);
    assert_eq!(directory[1].name, b"200.active.log");
    assert_eq!(directory[1].data, encode_record(200, b"small", b"x").unwrap());
}

#[test]
fn test_reopen_reads_the_same() {
    let mut db = Bitask::open_at(true, Vec::new(), 1).unwrap();
    for i in 0..50u64 {
        db.put_at(format!("key{}", i).into_bytes(), format!("value{}", i).into_bytes(), 10 + i).unwrap();
    }
    for i in 0..50u64 {
        if i % 3 == 0 {
            db.remove_at(format!("key{}", i).into_bytes(), 100 + i).unwrap();
        } else if i % 3 == 1 {
            db.put_at(format!("key{}", i).into_bytes(), b"again".to_vec(), 100 + i).unwrap();
        }
    }
    let db = db.reopen().unwrap();
    for i in 0..50u64 {
        let got = db.ask(format!("key{}", i).as_bytes());
        if i % 3 == 0 {
            assert!(matches!(got, Err(Error::KeyNotFound)));
        } else if i % 3 == 1 {
            assert_eq!(got.unwrap(), b"again");
        } else {
            assert_eq!(got.unwrap(), format!("value{}", i).into_bytes());
        }
    }
}

#[test]
fn test_reopen_with_equal_timestamps() {
    let mut db = Bitask::open_at(true, Vec::new(), 1).unwrap();
    db.put_at(b"k".to_vec(), b"v1".to_vec(), 5).unwrap();
    db.put_at(b"k".to_vec(), b"v2".to_vec(), 5).unwrap();
    assert_eq!(db.ask(b"k").unwrap(), b"v2");
    let db = db.reopen().unwrap();
    assert_eq!(db.ask(b"k").unwrap(), b"v2");
}

#[test]
fn test_reopen_after_the_clock_went_back() {
    let mut db = Bitask::open_at(true, Vec::new(), 1).unwrap();
    db.put_at(b"k".to_vec(), b"v1".to_vec(), 100).unwrap();
    db.put_at(b"k".to_vec(), b"v2".to_vec(), 50).unwrap();
    assert_eq!(db.ask(b"k").unwrap(), b"v2");
    let db = db.reopen().unwrap();
    assert_eq!(db.ask(b"k").unwrap(), b"v2");
}

#[test]
fn test_reopen_after_compaction_delete_and_rotation() {
    let mut db = Bitask::open_at(true, Vec::new(), 10).unwrap();
    db.put_at(b"a".to_vec(), b"1".to_vec(), 11).unwrap();
    db.rotate_active_file(20).unwrap();
    db.rotate_active_file(30).unwrap();
    db.compact().unwrap();
    db.remove_at(b"a".to_vec(), 41).unwrap();
    db.rotate_active_file(50).unwrap();
    assert!(matches!(db.ask(b"a"), Err(Error::KeyNotFound)));
    let db = db.reopen().unwrap();
    assert_eq!(db.sealed_count(), 2);
    assert_eq!(db.sealed_segment(0).id, 20);
    assert_eq!(db.sealed_segment(1).id, 30);
    assert_eq!(db.writer_id(), 50);
    assert!(matches!(db.ask(b"a"), Err(Error::KeyNotFound)));
}

#[test]
fn test_open_rejects_a_sealed_segment_above_the_active_one() {
    let directory = vec![entry("5.active.log", Vec::new()), entry("7.log", Vec::new())];
    match Bitask::open_existing(directory) {
        Err(Error::InvalidLogFileName { filename }) => assert_eq!(filename, b"7.log"),
        other => panic!("expected InvalidLogFileName, got {:?}", other),
    }
    let directory = vec![entry("7.log", Vec::new()), entry("3.log", Vec::new()), entry("5.active.log", Vec::new())];
    match Bitask::open_existing(directory) {
        Err(Error::InvalidLogFileName { filename }) => assert_eq!(filename, b"5.active.log"),
        other => panic!("expected InvalidLogFileName, got {:?}", other),
    }
}

#[test]
fn test_read_record_errors() {
    let record = encode_record(1, b"key", b"value").unwrap();
    assert!(read_record(&record, 0).is_ok());
    assert!(matches!(read_record(&record, record.len()), Err(Error::ShortHeader)));
    assert!(matches!(read_record(&record[..19], 0), Err(Error::ShortHeader)));
    assert!(matches!(read_record(&record[..27], 0), Err(Error::ShortRecord)));
    let mut broken = record.clone();
    broken[22] ^= 1;
    assert!(matches!(read_record(&broken, 0), Err(Error::CrcMismatch)));
}

#[test]
fn test_rebuild_keydir_positions() {
    let data = log_of(&[(1, b"a", b"xx"), (2, b"bb", b"yyy"), (3, b"a", b"")]);
    let mut keydir = KeyDir::new();
    let end = rebuild_keydir(&data, 77, &mut keydir);
    assert_eq!(end, data.len());
    assert!(keydir.get(b"a").is_none());
    let entry = keydir.get(b"bb").unwrap();
    assert_eq!(entry.file_id, 77);
    assert_eq!(entry.value_size, 3);
    assert_eq!(entry.value_position, (20 + 1 + 2) + 20 + 2);
    assert_eq!(entry.timestamp, 2);
}

#[test]
fn test_reopen_after_compaction() {
    let mut db = Bitask::open_at(true, Vec::new(), 10).unwrap();
    db.put_at(b"a".to_vec(), b"1".to_vec(), 11).unwrap();
    db.put_at(b"b".to_vec(), b"2".to_vec(), 12).unwrap();
    db.rotate_active_file(20).unwrap();
    db.put_at(b"a".to_vec(), b"3".to_vec(), 21).unwrap();
    db.remove_at(b"b".to_vec(), 22).unwrap();
    db.put_at(b"c".to_vec(), b"4".to_vec(), 23).unwrap();
    db.rotate_active_file(30).unwrap();
    db.put_at(b"c".to_vec(), b"5".to_vec(), 31).unwrap();
    db.put_at(b"d".to_vec(), b"6".to_vec(), 32).unwrap();
    db.compact().unwrap();
    let db = db.reopen().unwrap();
    assert_eq!(db.sealed_count(), 1);
    assert_eq!(db.sealed_segment(0).id, 20);
    assert_eq!(db.writer_id(), 30);
    assert_eq!(db.ask(b"a").unwrap(), b"3");
    assert!(matches!(db.ask(b"b"), Err(Error::KeyNotFound)));
    assert_eq!(db.ask(b"c").unwrap(), b"5");
    assert_eq!(db.ask(b"d").unwrap(), b"6");
}
