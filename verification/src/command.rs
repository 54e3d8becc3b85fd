//! The commands of the command-line tool, and what running one does to a
//! database.

use vstd::prelude::*;
use vstd::slice::*;
use vstd::utf8::encode_utf8;
use crate::codec::fits;
use crate::db;
use crate::db::{compacts_to, next_count};
use crate::error::Error;
use crate::image::{put_accepts, remove_accepts};
use crate::recovery::{ordered, recoverable};
use crate::size::{has_dead_record, total_bytes};

verus! {

/// A command of the tool.
#[derive(Debug)]
pub enum Command {
    /// Get a value from the store
    Ask {
        /// The key to look up
        key: String,
    },
    /// Put a value into the store
    Put {
        /// The key to store
        key: String,
        /// The value to store
        value: String,
    },
    /// Remove a key from the store
    Remove {
        /// The key to remove
        key: String,
    },
    /// Compact the database
    Compact,
}

/// What the tool was asked to do.
#[derive(Debug)]
pub struct Bitask {
    /// Sets logging to "debug" level, defaults to "info"
    pub verbose: bool,
    /// The command to run
    pub command: Command,
}

/// The bytes of a string.
fn bytes_of(s: &String) -> (bytes: Vec<u8>)
    ensures
        bytes@ == encode_utf8(s@),
{
    slice_to_vec(s.as_str().as_bytes())
}

impl Bitask {
    /// The log level that the tool runs with.
    pub fn log_level(&self) -> (level: &'static str)
        ensures
            level@ == (if self.verbose {
                "debug"@
            } else {
                "info"@
            }),
    {
        if self.verbose {
            "debug"
        } else {
            "info"
        }
    }

    /// Runs the command on an open database. `Ask` gives the value to print;
    /// the other commands give nothing.
    ///
    /// Keys and values are the bytes of the strings. An error of the database
    /// is handed on as it is.
    pub fn exec(self, db: &mut db::Bitask) -> (r: Result<Option<Vec<u8>>, Error>)
        requires
            old(db).wf(),
        ensures
            final(db).wf(),
            recoverable(final(db).image()),
            ordered(final(db).image()),
            match self.command {
                Command::Ask { key } => {
                    let k = encode_utf8(key@);
                    &&& final(db).image() == old(db).image()
                    &&& final(db).merges() == old(db).merges()
                    &&& k.len() == 0 ==> r is Err && r->Err_0 is InvalidEmptyKey
                    &&& k.len() > 0 && !old(db)@.contains_key(k) ==> r is Err && r->Err_0
                        is KeyNotFound
                    &&& k.len() > 0 && old(db)@.contains_key(k) ==> r is Ok && r->Ok_0 is Some
                        && r->Ok_0->Some_0@ == old(db)@[k]
                },
                Command::Put { key, value } => {
                    let k = encode_utf8(key@);
                    let v = encode_utf8(value@);
                    &&& r is Ok ==> r->Ok_0 is None && final(db)@ == old(db)@.insert(k, v)
                        && exists|now: u64|
                        put_accepts(old(db).image(), now, k, v) && final(db).image()
                            == #[trigger] old(db).image().put(now, k, v)
                    &&& r is Err ==> final(db).image() == old(db).image()
                    &&& final(db).merges() == old(db).merges()
                    &&& k.len() == 0 ==> r is Err && r->Err_0 is InvalidEmptyKey
                    &&& k.len() > 0 && v.len() == 0 ==> r is Err && r->Err_0 is InvalidEmptyValue
                    &&& k.len() > 0 && v.len() > 0 && r is Err ==> r->Err_0 is TimestampError
                        || r->Err_0 is TimestampOverflow || (r->Err_0 is RecordTooLarge && !(fits(
                        k,
                        v,
                    ) && 20 + k.len() + v.len() <= usize::MAX))
                    &&& !fits(k, v) ==> r is Err
                },
                Command::Remove { key } => {
                    let k = encode_utf8(key@);
                    &&& r is Ok ==> r->Ok_0 is None && final(db)@ == old(db)@.remove(k)
                        && exists|now: u64|
                        final(db).image() == #[trigger] old(db).image().remove(now, k)
                    &&& r is Err ==> final(db).image() == old(db).image()
                    &&& final(db).merges() == old(db).merges()
                    &&& k.len() == 0 ==> r is Err && r->Err_0 is InvalidEmptyKey
                    &&& k.len() > 0 && r is Err ==> r->Err_0 is TimestampError || r->Err_0
                        is TimestampOverflow || (r->Err_0 is RecordTooLarge && !remove_accepts(k))
                    &&& !remove_accepts(k) ==> r is Err
                },
                Command::Compact => {
                    &&& r is Ok && r->Ok_0 is None
                    &&& final(db)@ == old(db)@
                    &&& final(db).key_order() == old(db).key_order()
                    &&& total_bytes(final(db).image()) <= total_bytes(old(db).image())
                    &&& old(db).image().sealed.len() >= 2 && has_dead_record(old(db).image())
                        ==> total_bytes(final(db).image()) < total_bytes(old(db).image())
                    &&& old(db).image().sealed.len() < 2 ==> final(db).image() == old(db).image()
                        && final(db).merges() == old(db).merges()
                    &&& old(db).image().sealed.len() >= 2 ==> compacts_to(
                        old(db).image(),
                        old(db).key_order(),
                        final(db).image(),
                    ) && final(db).merges() == next_count(old(db).merges())
                },
            },
    {
        proof {
            db.lemma_wf();
        }
        match self.command {
            Command::Ask { key } => {
                let k = bytes_of(&key);
                match db.ask(k.as_slice()) {
                    Ok(value) => Ok(Some(value)),
                    Err(e) => Err(e),
                }
            },
            Command::Put { key, value } => {
                let k = bytes_of(&key);
                let v = bytes_of(&value);
                match db.put(k, v) {
                    Ok(()) => Ok(None),
                    Err(e) => Err(e),
                }
            },
            Command::Remove { key } => {
                let k = bytes_of(&key);
                match db.remove(k) {
                    Ok(()) => Ok(None),
                    Err(e) => Err(e),
                }
            },
            Command::Compact => {
                match db.compact() {
                    Ok(()) => Ok(None),
                    Err(e) => Err(e),
                }
            },
        }
    }
}

} // verus!
