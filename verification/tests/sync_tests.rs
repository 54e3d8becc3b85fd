use bitask::db::{Bitask, DirEntry};
use bitask::codec::encode_record;
use bitask::sync::{plan, Action, Disk};

fn disk_of(db: &Bitask) -> Disk {
    let mut sealed = Vec::new();
    for i in 0..db.sealed_count() {
        sealed.push(db.sealed_segment(i).id);
    }
    Disk {
        writer_id: db.writer_id(),
        active_len: db.active_data().len(),
        sealed,
        merges: db.merge_count(),
    }
}

#[test]
fn test_plan_nothing_to_do() {
    let mut db = Bitask::open_at(true, Vec::new(), 10).unwrap();
    db.put_at(b"k".to_vec(), b"v".to_vec(), 11).unwrap();
    let disk = disk_of(&db);
    assert_eq!(plan(&db, &disk), vec![]);
    let _ = db.ask(b"k").unwrap();
    assert_eq!(plan(&db, &disk), vec![]);
}

#[test]
fn test_plan_after_put_and_remove() {
    let mut db = Bitask::open_at(true, Vec::new(), 10).unwrap();
    let disk = disk_of(&db);
    db.put_at(b"k".to_vec(), b"v".to_vec(), 11).unwrap();
    assert_eq!(plan(&db, &disk), vec![Action::Append { id: 10, from: 0 }]);
    let disk = disk_of(&db);
    db.remove_at(b"k".to_vec(), 12).unwrap();
    assert_eq!(plan(&db, &disk), vec![Action::Append { id: 10, from: 22 }]);
}

#[test]
fn test_plan_after_rotation() {
    let mut db = Bitask::open_at(true, Vec::new(), 10).unwrap();
    db.put_at(b"a".to_vec(), vec![1u8; 4 * 1024 * 1024], 11).unwrap();
    let disk = disk_of(&db);
    db.put_at(b"b".to_vec(), b"x".to_vec(), 20).unwrap();
    assert_eq!(
        plan(&db, &disk),
        vec![Action::Seal { id: 10 }, Action::Create { id: 20 }, Action::Append { id: 20, from: 0 }]
    );
}

#[test]
fn test_plan_after_compaction_writes_before_it_removes() {
    let mut db = Bitask::open_at(true, Vec::new(), 10).unwrap();
    db.put_at(b"a".to_vec(), b"1".to_vec(), 11).unwrap();
    db.rotate_active_file(20).unwrap();
    db.put_at(b"a".to_vec(), b"2".to_vec(), 21).unwrap();
    db.rotate_active_file(30).unwrap();
    let disk = disk_of(&db);
    assert_eq!(db.merge_count(), 0);
    db.compact().unwrap();
    assert_eq!(db.merge_count(), 1);
    // the file of segment 20 is out of date and written anew
    assert_eq!(plan(&db, &disk), vec![Action::Write { id: 20 }, Action::Remove { id: 10 }]);
    assert_eq!(db.sealed_segment(0).data, encode_record(21, b"a", b"2").unwrap());
    let disk = disk_of(&db);
    assert_eq!(plan(&db, &disk), vec![]);
}

#[test]
fn test_plan_after_rotation_and_compaction() {
    let mut db = Bitask::open_at(true, Vec::new(), 10).unwrap();
    db.put_at(b"a".to_vec(), b"1".to_vec(), 11).unwrap();
    db.rotate_active_file(20).unwrap();
    db.put_at(b"a".to_vec(), b"2".to_vec(), 21).unwrap();
    let disk = disk_of(&db);
    db.rotate_active_file(30).unwrap();
    db.compact().unwrap();
    db.put_at(b"b".to_vec(), b"3".to_vec(), 31).unwrap();
    assert_eq!(
        plan(&db, &disk),
        vec![
            Action::Seal { id: 20 },
            Action::Create { id: 30 },
            Action::Append { id: 30, from: 0 },
            Action::Write { id: 20 },
            Action::Remove { id: 10 },
        ]
    );
}

#[test]
fn test_plan_cuts_a_torn_tail() {
    let mut data = encode_record(1, b"key", b"value").unwrap();
    let whole = data.len();
    data.extend_from_slice(&[1, 2, 3]);
    let on_disk = data.len();
    let db = Bitask::open_existing(vec![DirEntry { name: b"5.active.log".to_vec(), data }]).unwrap();
    let disk = Disk { writer_id: 5, active_len: on_disk, sealed: Vec::new(), merges: 0 };
    assert_eq!(plan(&db, &disk), vec![Action::Truncate { id: 5, len: whole }]);
}
