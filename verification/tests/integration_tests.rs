use bitask::db::{Bitask, Error, MAX_ACTIVE_FILE_SIZE};

fn open_fresh() -> Bitask {
    Bitask::open(true, Vec::new()).unwrap()
}

fn total_size(db: &Bitask) -> u64 {
    let mut total = db.active_data().len() as u64;
    for i in 0..db.sealed_count() {
        total += db.sealed_segment(i).data.len() as u64;
    }
    total
}

#[test]
fn test_basic_db_operations() {
    let mut db = open_fresh();

    let key = b"test_key".to_vec();
    let value = b"test_value".to_vec();
    db.put(key.clone(), value.clone()).unwrap();

    let retrieved = db.ask(&key).unwrap();
    assert_eq!(retrieved, value);

    db.remove(key.clone()).unwrap();
    assert!(matches!(db.ask(&key), Err(Error::KeyNotFound)));
}

#[test]
fn test_open_once() {
    let _db = Bitask::open(true, Vec::new()).unwrap();
}

#[test]
fn test_open_twice() {
    let _db = Bitask::open(true, Vec::new()).unwrap();
    // the first handle holds the lock, so the second caller cannot get it
    match Bitask::open(false, Vec::new()) {
        Err(Error::WriterLock) => {}
        Ok(_) => panic!("Expected second open to fail with lock error"),
        Err(e) => panic!("Expected WriterLock error, got: {:?}", e),
    }
}

#[test]
fn test_ask_key_not_found() {
    let db = open_fresh();
    let value = db.ask(b"key");
    assert!(value.is_err());
    assert!(matches!(value.err().unwrap(), Error::KeyNotFound));
}

#[test]
fn test_put_get() {
    let mut db = open_fresh();
    db.put(b"key1".to_vec(), b"value1".to_vec()).unwrap();
    db.put(b"key2".to_vec(), b"value2".to_vec()).unwrap();

    let value = db.ask(b"key1").unwrap();
    assert_eq!(value, b"value1");

    let value = db.ask(b"key2").unwrap();
    assert_eq!(value, b"value2");
}

#[test]
fn test_put_overwrite_and_get() {
    let mut db = open_fresh();
    db.put(b"key1".to_vec(), b"value1".to_vec()).unwrap();

    let value = db.ask(b"key1").unwrap();
    assert_eq!(value, b"value1");

    db.put(b"key1".to_vec(), b"value2".to_vec()).unwrap();
    let value = db.ask(b"key1").unwrap();
    assert_eq!(value, b"value2");
}

#[test]
fn test_remove() {
    let mut db = open_fresh();
    db.put(b"key1".to_vec(), b"value1".to_vec()).unwrap();
    db.remove(b"key1".to_vec()).unwrap();
    let value = db.ask(b"key1");
    assert!(value.is_err());
    assert!(matches!(value.err().unwrap(), Error::KeyNotFound));
}

#[test]
fn test_invalid_empty_key_and_empty_value() {
    let mut db = open_fresh();
    let error = db.put(vec![], vec![]);
    assert!(error.is_err());
    assert!(matches!(error.err().unwrap(), Error::InvalidEmptyKey));

    let error = db.ask(&[]);
    assert!(error.is_err());
    assert!(matches!(error.err().unwrap(), Error::InvalidEmptyKey));

    let error = db.remove(vec![]);
    assert!(error.is_err());
    assert!(matches!(error.err().unwrap(), Error::InvalidEmptyKey));
}

#[test]
fn test_put_empty_value_is_rejected() {
    let mut db = open_fresh();
    let error = db.put(b"key".to_vec(), vec![]);
    assert!(matches!(error, Err(Error::InvalidEmptyValue)));
    assert!(matches!(db.ask(b"key"), Err(Error::KeyNotFound)));
    assert_eq!(db.active_data().len(), 0);
}

#[test]
fn test_rebuild_keydir_on_open() {
    let mut db = open_fresh();

    db.put(b"key1".to_vec(), b"value1".to_vec()).unwrap();
    db.put(b"key2".to_vec(), b"value2".to_vec()).unwrap();

    let directory = db.close();

    let db = Bitask::open(true, directory).unwrap();
    let value = db.ask(b"key1").unwrap();
    assert_eq!(value, b"value1");

    let value = db.ask(b"key2").unwrap();
    assert_eq!(value, b"value2");
}

#[test]
fn test_rebuild_keydir_on_open_with_remove() {
    let mut db = open_fresh();
    db.put(b"key1".to_vec(), b"value1".to_vec()).unwrap();
    db.put(b"key2".to_vec(), b"value2".to_vec()).unwrap();
    db.remove(b"key1".to_vec()).unwrap();
    let directory = db.close();

    let db = Bitask::open(true, directory).unwrap();
    let value = db.ask(b"key1");
    assert!(value.is_err());
    assert!(matches!(value.err().unwrap(), Error::KeyNotFound));

    let value = db.ask(b"key2").unwrap();
    assert_eq!(value, b"value2");
}

#[test]
fn test_multiple_operations_sequence() {
    let mut db = open_fresh();

    for i in 0..100 {
        let key = format!("key{}", i).into_bytes();
        let value = format!("value{}", i).into_bytes();
        db.put(key, value).unwrap();
    }

    for i in 0..100 {
        let key = format!("key{}", i).into_bytes();
        let expected = format!("value{}", i).into_bytes();
        let value = db.ask(&key).unwrap();
        assert_eq!(value, expected);
    }

    for i in (0..100).step_by(2) {
        let key = format!("key{}", i).into_bytes();
        db.remove(key).unwrap();
    }

    for i in 0..100 {
        let key = format!("key{}", i).into_bytes();
        let result = db.ask(&key);
        if i % 2 == 0 {
            assert!(matches!(result.err().unwrap(), Error::KeyNotFound));
        } else {
            assert_eq!(result.unwrap(), format!("value{}", i).into_bytes());
        }
    }
}

#[test]
fn test_log_rotation() {
    let mut db = open_fresh();

    let key = b"large_key".to_vec();
    let value = vec![42u8; 4 * 1024 * 1024];

    db.put(key.clone(), value.clone()).unwrap();

    let key2 = b"large_key2".to_vec();
    db.put(key2.clone(), value.clone()).unwrap();

    assert_eq!(db.ask(&key).unwrap(), value);
    assert_eq!(db.ask(&key2).unwrap(), value);

    // one sealed segment and the active one
    let file_count = db.sealed_count() + 1;
    assert_eq!(file_count, 2);

    let directory = db.close();
    let logs = directory
        .iter()
        .filter(|entry| entry.name.ends_with(b".log"))
        .count();
    assert_eq!(logs, 2);
}

#[test]
fn test_compaction() {
    let mut db = open_fresh();

    for i in 0..3000 {
        let key = format!("key{}", i).into_bytes();
        let value = vec![42u8; 4 * 1024];
        db.put(key, value).unwrap();
    }

    for i in 0..1000 {
        let key = format!("key{}", i).into_bytes();
        let value = vec![43u8; 4 * 1024];
        db.put(key, value).unwrap();
    }

    for i in 0..400 {
        let key = format!("key{}", i).into_bytes();
        db.remove(key).unwrap();
    }

    let size_before = total_size(&db);
    db.compact().unwrap();
    assert!(total_size(&db) < size_before);
    assert_eq!(db.sealed_count(), 1);

    for i in 0..400 {
        let key = format!("key{}", i).into_bytes();
        assert!(matches!(db.ask(&key), Err(Error::KeyNotFound)));
    }

    for i in 400..1000 {
        let key = format!("key{}", i).into_bytes();
        let value = db.ask(&key).unwrap();
        assert_eq!(value, vec![43u8; 4 * 1024]);
    }

    for i in 1000..3000 {
        let key = format!("key{}", i).into_bytes();
        let value = db.ask(&key).unwrap();
        assert_eq!(value, vec![42u8; 4 * 1024]);
    }
}

#[test]
fn test_automatic_compaction_trigger() {
    let mut db = open_fresh();

    for i in 0..3000 {
        let key = format!("key{}", i).into_bytes();
        let value = vec![42u8; 4 * 1024];
        db.put(key, value).unwrap();
    }

    for i in 0..3000 {
        let key = format!("key{}", i).into_bytes();
        db.remove(key).unwrap();
    }

    db.compact().unwrap();

    let final_size = total_size(&db);
    assert!(
        final_size < MAX_ACTIVE_FILE_SIZE,
        "Expected size less than MAX_ACTIVE_FILE_SIZE, got {} bytes",
        final_size
    );

    for i in 0..1000 {
        let key = format!("key{}", i).into_bytes();
        assert!(matches!(db.ask(&key), Err(Error::KeyNotFound)));
    }
}

#[test]
fn test_automatic_compaction_disabled() {
    let mut db = open_fresh();

    for i in 0..3000 {
        let key = format!("key{}", i).into_bytes();
        let value = vec![0; 8 * 1024];
        db.put(key, value).unwrap();
    }

    let log_files = db.sealed_count();

    assert!(
        log_files >= 2,
        "Expected 2 or more log files since auto-compaction is disabled"
    );
}
