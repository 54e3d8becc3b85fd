use bitask::error::Error;
use bitask::paths::{
    active_log_file_name, classify, file_active_log_path, file_log_path, lock_file_name,
    log_file_name, LogFile,
};

#[test]
fn test_file_names() {
    assert_eq!(lock_file_name(), b"db.lock");
    assert_eq!(log_file_name(0), b"0.log");
    assert_eq!(log_file_name(1700000000123), b"1700000000123.log");
    assert_eq!(active_log_file_name(42), b"42.active.log");
    assert_eq!(active_log_file_name(u64::MAX), b"18446744073709551615.active.log");
}

#[test]
fn test_file_paths() {
    assert_eq!(file_log_path(b"db", 7), b"db/7.log");
    assert_eq!(file_active_log_path(b"db", 7), b"db/7.active.log");
    assert_eq!(file_log_path(b"/tmp/db/", 10), b"/tmp/db/10.log");
    assert_eq!(file_active_log_path(b"", 10), b"10.active.log");
}

#[test]
fn test_classify_log_files() {
    assert_eq!(classify(b"123.log").unwrap(), LogFile::Sealed(123));
    assert_eq!(classify(b"123.active.log").unwrap(), LogFile::Active(123));
    assert_eq!(classify(b"007.log").unwrap(), LogFile::Sealed(7));
    assert_eq!(classify(b"18446744073709551615.log").unwrap(), LogFile::Sealed(u64::MAX));
}

#[test]
fn test_classify_bad_id() {
    for name in [&b"abc.log"[..], b".log", b"", b"12a.log", b"18446744073709551616.log", b"-1.log", b"+1.log"] {
        match classify(name) {
            Err(Error::TimestampParse { value }) => assert_eq!(value, name),
            other => panic!("expected TimestampParse, got {:?}", other),
        }
    }
}

#[test]
fn test_classify_bad_suffix() {
    for name in [&b"123"[..], b"123.txt", b"123.log.bak", b"123.", b"123.foo.active.log", b"123.active"] {
        match classify(name) {
            Err(Error::InvalidLogFileName { filename }) => assert_eq!(filename, name),
            other => panic!("expected InvalidLogFileName, got {:?}", other),
        }
    }
}

#[test]
fn test_names_classify_back() {
    for id in [0u64, 9, 10, 99, 100, 1234567890, u64::MAX] {
        assert_eq!(classify(&log_file_name(id)).unwrap(), LogFile::Sealed(id));
        assert_eq!(classify(&active_log_file_name(id)).unwrap(), LogFile::Active(id));
    }
}
