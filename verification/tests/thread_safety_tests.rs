use bitask::db::Bitask;
use std::sync::{Arc, Mutex};

// The engine is a single-threaded object: callers share it behind one mutex
// and take turns.

#[test]
fn test_concurrent_reads() {
    let db = Bitask::open(true, Vec::new()).unwrap();
    let db = Arc::new(Mutex::new(db));

    db.lock().unwrap().put(b"key1".to_vec(), b"value1".to_vec()).unwrap();

    let mut readers = vec![];
    for _ in 0..10 {
        let db_clone = Arc::clone(&db);
        readers.push(move || {
            let value = db_clone.lock().unwrap().ask(b"key1").unwrap();
            assert_eq!(value, b"value1");
        });
    }

    for reader in readers {
        reader();
    }
}

#[test]
fn test_concurrent_writes() {
    let db = Bitask::open(true, Vec::new()).unwrap();
    let db = Arc::new(Mutex::new(db));
    let mut writers = vec![];

    for i in 0..10 {
        let db_clone = Arc::clone(&db);
        writers.push(move || {
            let key = format!("key{}", i).into_bytes();
            let value = format!("value{}", i).into_bytes();
            db_clone.lock().unwrap().put(key, value).unwrap();
        });
    }

    for writer in writers {
        writer();
    }

    for i in 0..10 {
        let key = format!("key{}", i).into_bytes();
        let expected = format!("value{}", i).into_bytes();
        let value = db.lock().unwrap().ask(&key).unwrap();
        assert_eq!(value, expected);
    }
}

#[test]
fn test_concurrent_mixed_operations() {
    let db = Bitask::open(true, Vec::new()).unwrap();
    let db = Arc::new(Mutex::new(db));
    let mut callers = vec![];

    db.lock().unwrap().put(b"shared_key".to_vec(), b"initial_value".to_vec()).unwrap();

    for i in 0..10 {
        let db_clone = Arc::clone(&db);
        callers.push(move || {
            if i % 2 == 0 {
                let key = format!("key{}", i).into_bytes();
                let value = format!("value{}", i).into_bytes();
                db_clone.lock().unwrap().put(key, value).unwrap();
            } else {
                let _ = db_clone.lock().unwrap().ask(b"shared_key").unwrap();
            }
        });
    }

    for caller in callers {
        caller();
    }

    for i in (0..10).step_by(2) {
        let key = format!("key{}", i).into_bytes();
        let expected = format!("value{}", i).into_bytes();
        let value = db.lock().unwrap().ask(&key).unwrap();
        assert_eq!(value, expected);
    }
}
