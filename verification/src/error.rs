//! The errors of the store.

use vstd::prelude::*;

verus! {

/// What went wrong with an operation on a byte buffer or a file.
#[derive(Debug, Clone, Copy, PartialEq, Eq, Structural)]
pub enum IoErrorKind {
    /// A buffer was too small to take what had to be written.
    WriteZero,
    /// The input ended before the expected number of bytes.
    UnexpectedEof,
    /// Any other failure of the file system.
    Other,
}

/// Errors that can occur during database operations.
#[derive(Debug)]
pub enum Error {
    /// An entry of the database directory is neither a log file nor the lock file.
    InvalidLogFileName { filename: Vec<u8> },
    /// The segment id at the start of a file name is not an unsigned decimal number.
    TimestampParse { value: Vec<u8> },
    /// An underlying read or write failed.
    Io(IoErrorKind),
    /// Another writer holds the lock of the directory.
    WriterLock,
    /// The key is not in the database.
    KeyNotFound,
    /// A segment that the key directory refers to is missing.
    FileNotFound(u64),
    /// An empty value was given to a put.
    InvalidEmptyValue,
    /// An empty key was given.
    InvalidEmptyKey,
    /// The system clock is set before the UNIX epoch.
    TimestampError,
    /// The time in milliseconds does not fit in 64 bits, or no segment id is
    /// left for a new segment.
    TimestampOverflow,
    /// The directory holds files but no active segment.
    ActiveFileNotFound,
    /// Fewer than twenty bytes were given where a record header was expected.
    ShortHeader,
    /// A record ended before the key and value that its header announced.
    ShortRecord,
    /// The checksum of a record does not match its key and value.
    CrcMismatch,
    /// A key or a value is too long for the length fields of a record.
    RecordTooLarge,
}

} // verus!
