//! A Bitcask-style key-value store: an append-only log of records plus an
//! in-memory key directory that points at the latest value of every live key.
//!
//! The engine works on the bytes of the log segments. Reading the database
//! directory, locking it and writing segments back is left to the caller, who
//! hands the engine the contents of the directory and performs the changes
//! that the engine plans.
//!
//! - `codec`: the record format and its checksum
//! - `paths`: the names of the files of a database directory
//! - `keydir`: the key directory
//! - `log`: scanning a segment and replaying its records
//! - `image`: a database as a mathematical value
//! - `db`: the engine
//! - `recovery`, `compaction`, `size`, `laws`: what holds of every database
//! - `sync`: which files to change after an operation
//! - `command`: the commands of the command-line tool
//! - `clock`: the wall clock
//! - `error`: the errors

pub mod clock;
pub mod codec;
pub mod command;
pub mod compaction;
pub mod db;
pub mod error;
pub mod image;
pub mod keydir;
pub mod laws;
pub mod log;
pub mod paths;
pub mod recovery;
pub mod size;
pub mod sync;
