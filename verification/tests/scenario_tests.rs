use bitask::db::{Bitask, Error};

#[test]
fn test_get_on_new_database() {
    let db = Bitask::open(true, Vec::new()).unwrap();
    assert!(matches!(db.ask(b"key"), Err(Error::KeyNotFound)));
}

#[test]
fn test_two_keys() {
    let mut db = Bitask::open(true, Vec::new()).unwrap();
    db.put(b"key1".to_vec(), b"value1".to_vec()).unwrap();
    db.put(b"key2".to_vec(), b"value2".to_vec()).unwrap();
    assert_eq!(db.ask(b"key1").unwrap(), b"value1");
    assert_eq!(db.ask(b"key2").unwrap(), b"value2");
}

#[test]
fn test_overwrite() {
    let mut db = Bitask::open(true, Vec::new()).unwrap();
    db.put(b"k".to_vec(), b"v1".to_vec()).unwrap();
    db.put(b"k".to_vec(), b"v2".to_vec()).unwrap();
    assert_eq!(db.ask(b"k").unwrap(), b"v2");
}

#[test]
fn test_delete() {
    let mut db = Bitask::open(true, Vec::new()).unwrap();
    db.put(b"k".to_vec(), b"v".to_vec()).unwrap();
    db.remove(b"k".to_vec()).unwrap();
    assert!(matches!(db.ask(b"k"), Err(Error::KeyNotFound)));
}

#[test]
fn test_second_writer_is_refused() {
    let _first = Bitask::open(true, Vec::new()).unwrap();
    assert!(matches!(Bitask::open(false, Vec::new()), Err(Error::WriterLock)));
}

#[test]
fn test_two_big_values_rotate() {
    let mut db = Bitask::open(true, Vec::new()).unwrap();
    let big = vec![0x2Au8; 4 * 1024 * 1024];
    db.put(b"big1".to_vec(), big.clone()).unwrap();
    db.put(b"big2".to_vec(), big.clone()).unwrap();
    assert_eq!(db.ask(b"big1").unwrap(), big);
    assert_eq!(db.ask(b"big2").unwrap(), big);
    let directory = db.close();
    let logs = directory.iter().filter(|entry| entry.name.ends_with(b".log")).count();
    assert!(logs >= 2);
    let db = Bitask::open(true, directory).unwrap();
    assert_eq!(db.ask(b"big1").unwrap(), big);
    assert_eq!(db.ask(b"big2").unwrap(), big);
}

#[test]
fn test_close_and_open_again() {
    let mut db = Bitask::open(true, Vec::new()).unwrap();
    db.put(b"key1".to_vec(), b"value1".to_vec()).unwrap();
    db.put(b"key2".to_vec(), b"value2".to_vec()).unwrap();
    db.remove(b"key1".to_vec()).unwrap();
    let directory = db.close();
    let db = Bitask::open(true, directory).unwrap();
    assert!(matches!(db.ask(b"key1"), Err(Error::KeyNotFound)));
    assert_eq!(db.ask(b"key2").unwrap(), b"value2");
}

#[test]
fn test_compaction_keeps_every_key() {
    let mut db = Bitask::open_at(true, Vec::new(), 1).unwrap();
    for round in 0..3u64 {
        for i in 0..20u64 {
            let value = format!("value{}-{}", i, round).into_bytes();
            db.put_at(format!("key{}", i).into_bytes(), value, 10 * round + 2).unwrap();
        }
        db.remove_at(format!("key{}", round).into_bytes(), 10 * round + 3).unwrap();
        db.rotate_active_file(10 * round + 5).unwrap();
    }
    let mut before = Vec::new();
    for i in 0..20u64 {
        before.push(db.ask(format!("key{}", i).as_bytes()).ok());
    }
    db.compact().unwrap();
    for i in 0..20u64 {
        assert_eq!(db.ask(format!("key{}", i).as_bytes()).ok(), before[i as usize]);
    }
    assert!(before[2].is_none());
    assert_eq!(before[3], Some(b"value3-2".to_vec()));
}
