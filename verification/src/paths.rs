//! The names of the files of a database directory: `db.lock` for the lock,
//! `<id>.active.log` for the active segment and `<id>.log` for a sealed one,
//! with the id in decimal. Names are byte strings.

use vstd::prelude::*;
use vstd::slice::*;
use crate::error::Error;
use crate::keydir::bytes_eq;

verus! {

/// The bytes of `db.lock`.
pub open spec fn lock_name() -> Seq<u8> {
    seq![100u8, 98u8, 46u8, 108u8, 111u8, 99u8, 107u8]
}

/// The bytes of `.log`.
pub open spec fn sealed_suffix() -> Seq<u8> {
    seq![46u8, 108u8, 111u8, 103u8]
}

/// The bytes of `.active.log`.
pub open spec fn active_suffix() -> Seq<u8> {
    seq![46u8, 97u8, 99u8, 116u8, 105u8, 118u8, 101u8, 46u8, 108u8, 111u8, 103u8]
}

/// The decimal digits of a number, in ASCII, without leading zeros.
pub open spec fn decimal(n: nat) -> Seq<u8>
    decreases n,
{
    if n < 10 {
        seq![(48 + n) as u8]
    } else {
        decimal(n / 10).push((48 + n % 10) as u8)
    }
}

/// Whether a byte is an ASCII digit.
pub open spec fn is_digit(b: u8) -> bool {
    48 <= b <= 57
}

/// Whether every byte is an ASCII digit.
pub open spec fn all_digits(s: Seq<u8>) -> bool {
    forall|i: int| 0 <= i < s.len() ==> is_digit(#[trigger] s[i])
}

/// The number that a string of ASCII digits denotes in decimal.
pub open spec fn digits_value(s: Seq<u8>) -> nat
    decreases s.len(),
{
    if s.len() == 0 {
        0
    } else {
        digits_value(s.drop_last()) * 10 + (s.last() - 48) as nat
    }
}

/// The place of the first `.` at or after `i`, or the length of the name.
pub open spec fn dot_from(name: Seq<u8>, i: int) -> int
    decreases name.len() - i,
{
    if i >= name.len() || name[i] == 46 {
        i
    } else {
        dot_from(name, i + 1)
    }
}

/// The name of the sealed segment with this id.
pub open spec fn log_name(id: u64) -> Seq<u8> {
    decimal(id as nat) + sealed_suffix()
}

/// The name of the active segment with this id.
pub open spec fn active_log_name(id: u64) -> Seq<u8> {
    decimal(id as nat) + active_suffix()
}

/// A file name under a directory: the two joined by one `/`, unless the
/// directory is empty or ends in `/` already.
pub open spec fn joined(path: Seq<u8>, name: Seq<u8>) -> Seq<u8> {
    if path.len() == 0 {
        name
    } else if path.last() == 47 {
        path + name
    } else {
        path + seq![47u8] + name
    }
}

/// What a directory entry is, by its name.
#[derive(Debug, Clone, Copy, PartialEq, Eq, Structural)]
pub enum LogFile {
    /// The active segment with this id
    Active(u64),
    /// A sealed segment with this id
    Sealed(u64),
}

/// What the name of a directory entry says.
pub enum Classified {
    /// A log file
    Log(LogFile),
    /// The part before the first `.` is not an unsigned decimal number that
    /// fits in 64 bits
    BadId,
    /// The part from the first `.` on is neither `.active.log` nor `.log`
    BadSuffix,
}

/// The classification of a name: it is split at the first `.`; the part
/// before must be an unsigned decimal number, the segment id; the rest says
/// whether the segment is active or sealed.
pub open spec fn classified(name: Seq<u8>) -> Classified {
    let dot = dot_from(name, 0);
    let stem = name.subrange(0, dot);
    let suffix = name.subrange(dot, name.len() as int);
    if stem.len() == 0 || !all_digits(stem) || digits_value(stem) > u64::MAX {
        Classified::BadId
    } else if suffix == active_suffix() {
        Classified::Log(LogFile::Active(digits_value(stem) as u64))
    } else if suffix == sealed_suffix() {
        Classified::Log(LogFile::Sealed(digits_value(stem) as u64))
    } else {
        Classified::BadSuffix
    }
}

/// The decimal digits of a number are digits, at least one, and denote the
/// number.
pub proof fn lemma_decimal(n: nat)
    ensures
        decimal(n).len() > 0,
        all_digits(decimal(n)),
        digits_value(decimal(n)) == n,
    decreases n,
{
    if n < 10 {
        let s = decimal(n);
        assert(s.drop_last() =~= Seq::<u8>::empty());
        assert(digits_value(s.drop_last()) == 0);
    } else {
        lemma_decimal(n / 10);
        let s = decimal(n);
        assert(s.drop_last() =~= decimal(n / 10));
        assert(all_digits(s)) by {
            assert forall|i: int| 0 <= i < s.len() implies is_digit(#[trigger] s[i]) by {
                if i < s.len() - 1 {
                    assert(s[i] == decimal(n / 10)[i]);
                }
            }
        }
    }
}

/// Where no `.` lies between `i` and `dot`, and one lies at `dot` or the name
/// ends there, the first `.` from `i` on is at `dot`.
pub proof fn lemma_dot_from(name: Seq<u8>, i: int, dot: int)
    requires
        0 <= i <= dot <= name.len(),
        forall|j: int| i <= j < dot ==> name[j] != 46,
        dot == name.len() || name[dot] == 46,
    ensures
        dot_from(name, i) == dot,
    decreases dot - i,
{
    if i < dot {
        lemma_dot_from(name, i + 1, dot);
    }
}

/// The name of a sealed segment is classified as that sealed segment, and the
/// name of an active segment as that active segment.
pub proof fn lemma_names_classify(id: u64)
    ensures
        classified(log_name(id)) == Classified::Log(LogFile::Sealed(id)),
        classified(active_log_name(id)) == Classified::Log(LogFile::Active(id)),
        log_name(id) != lock_name(),
        active_log_name(id) != lock_name(),
{
    let digits = decimal(id as nat);
    lemma_decimal(id as nat);
    let sealed = log_name(id);
    let active = active_log_name(id);
    let dot = digits.len() as int;
    assert forall|j: int| 0 <= j < dot implies sealed[j] != 46 && active[j] != 46 by {
        assert(is_digit(digits[j]));
    }
    assert(sealed[dot] == sealed_suffix()[0]);
    assert(active[dot] == active_suffix()[0]);
    lemma_dot_from(sealed, 0, dot);
    lemma_dot_from(active, 0, dot);
    assert(sealed.subrange(0, dot) =~= digits);
    assert(active.subrange(0, dot) =~= digits);
    assert(sealed.subrange(dot, sealed.len() as int) =~= sealed_suffix());
    assert(active.subrange(dot, active.len() as int) =~= active_suffix());
    assert(active_suffix()[1] != sealed_suffix()[1]);
    assert(is_digit(digits[0]));
    assert(sealed[0] == digits[0]);
    assert(active[0] == digits[0]);
    assert(lock_name()[0] == 100);
}

/// The value of a string of digits is at least that of each of its prefixes.
proof fn lemma_value_grows(s: Seq<u8>, i: int)
    requires
        0 <= i <= s.len(),
        all_digits(s),
    ensures
        digits_value(s.subrange(0, i)) <= digits_value(s),
    decreases s.len() - i,
{
    if i < s.len() {
        let longer = s.subrange(0, i + 1);
        assert(longer.drop_last() =~= s.subrange(0, i));
        assert(is_digit(s[i]));
        assert(longer.last() == s[i]);
        lemma_value_grows(s, i + 1);
    } else {
        assert(s.subrange(0, i) =~= s);
    }
}

/// Reads an unsigned decimal number of at least one digit.
fn parse_id(stem: &[u8]) -> (r: Option<u64>)
    ensures
        r == (if stem@.len() == 0 || !all_digits(stem@) || digits_value(stem@) > u64::MAX {
            None
        } else {
            Some(digits_value(stem@) as u64)
        }),
{
    if stem.len() == 0 {
        return None;
    }
    let mut value: u64 = 0;
    let mut i: usize = 0;
    while i < stem.len()
        invariant
            i <= stem@.len(),
            all_digits(stem@.subrange(0, i as int)),
            value == digits_value(stem@.subrange(0, i as int)),
        decreases stem@.len() - i,
    {
        let b = stem[i];
        if b < 48 || b > 57 {
            assert(!is_digit(stem@[i as int]));
            return None;
        }
        let digit: u64 = (b - 48) as u64;
        proof {
            let longer = stem@.subrange(0, i + 1);
            assert(longer.drop_last() =~= stem@.subrange(0, i as int));
            assert(longer.last() == b);
            assert(all_digits(longer)) by {
                assert forall|j: int| 0 <= j < longer.len() implies is_digit(
                    #[trigger] longer[j],
                ) by {
                    if j < i {
                        assert(longer[j] == stem@.subrange(0, i as int)[j]);
                    }
                }
            }
        }
        if value > (u64::MAX - digit) / 10 {
            proof {
                let longer = stem@.subrange(0, i + 1);
                assert(digits_value(longer) > u64::MAX);
                if all_digits(stem@) {
                    lemma_value_grows(stem@, i + 1);
                }
            }
            return None;
        }
        value = value * 10 + digit;
        i += 1;
    }
    assert(stem@.subrange(0, i as int) =~= stem@);
    Some(value)
}

/// The bytes of `db.lock`.
pub fn lock_file_name() -> (name: Vec<u8>)
    ensures
        name@ == lock_name(),
{
    let name: Vec<u8> = vec![100u8, 98u8, 46u8, 108u8, 111u8, 99u8, 107u8];
    assert(name@ =~= lock_name());
    name
}

/// Classifies a directory entry by its name.
///
/// Fails with `TimestampParse` when the part before the first `.` is not an
/// unsigned decimal number that fits in 64 bits, and with `InvalidLogFileName`
/// when the part from the first `.` on is neither `.active.log` nor `.log`.
/// Either error carries the name.
pub fn classify(name: &[u8]) -> (r: Result<LogFile, Error>)
    ensures
        match classified(name@) {
            Classified::Log(file) => r == Ok::<LogFile, Error>(file),
            Classified::BadId => r is Err && r->Err_0 is TimestampParse
                && r->Err_0->TimestampParse_value@ == name@,
            Classified::BadSuffix => r is Err && r->Err_0 is InvalidLogFileName
                && r->Err_0->InvalidLogFileName_filename@ == name@,
        },
{
    let mut dot: usize = 0;
    while dot < name.len() && name[dot] != 46
        invariant
            dot <= name@.len(),
            dot_from(name@, 0) == dot_from(name@, dot as int),
        decreases name@.len() - dot,
    {
        dot += 1;
    }
    let id = match parse_id(slice_subrange(name, 0, dot)) {
        Some(id) => id,
        None => { return Err(Error::TimestampParse { value: slice_to_vec(name) }); },
    };
    let suffix = slice_subrange(name, dot, name.len());
    let active: Vec<u8> = vec![46u8, 97u8, 99u8, 116u8, 105u8, 118u8, 101u8, 46u8, 108u8, 111u8, 103u8];
    let sealed: Vec<u8> = vec![46u8, 108u8, 111u8, 103u8];
    assert(active@ =~= active_suffix());
    assert(sealed@ =~= sealed_suffix());
    if bytes_eq(suffix, active.as_slice()) {
        Ok(LogFile::Active(id))
    } else if bytes_eq(suffix, sealed.as_slice()) {
        Ok(LogFile::Sealed(id))
    } else {
        Err(Error::InvalidLogFileName { filename: slice_to_vec(name) })
    }
}

/// Appends the decimal digits of `n` to `buffer`.
fn push_decimal(buffer: &mut Vec<u8>, n: u64)
    ensures
        final(buffer)@ == old(buffer)@ + decimal(n as nat),
    decreases n,
{
    if n >= 10 {
        push_decimal(buffer, n / 10);
    }
    buffer.push(48 + (n % 10) as u8);
    assert(buffer@ =~= old(buffer)@ + decimal(n as nat));
}

/// The name of the sealed segment with this id: `<id>.log`.
pub fn log_file_name(id: u64) -> (name: Vec<u8>)
    ensures
        name@ == log_name(id),
{
    let mut name: Vec<u8> = Vec::new();
    push_decimal(&mut name, id);
    let suffix: Vec<u8> = vec![46u8, 108u8, 111u8, 103u8];
    name.extend_from_slice(suffix.as_slice());
    assert(name@ =~= log_name(id));
    name
}

/// The name of the active segment with this id: `<id>.active.log`.
pub fn active_log_file_name(id: u64) -> (name: Vec<u8>)
    ensures
        name@ == active_log_name(id),
{
    let mut name: Vec<u8> = Vec::new();
    push_decimal(&mut name, id);
    let suffix: Vec<u8> = vec![46u8, 97u8, 99u8, 116u8, 105u8, 118u8, 101u8, 46u8, 108u8, 111u8, 103u8];
    name.extend_from_slice(suffix.as_slice());
    assert(name@ =~= active_log_name(id));
    name
}

/// Joins a directory and a file name.
fn join(path: &[u8], name: &[u8]) -> (full: Vec<u8>)
    ensures
        full@ == joined(path@, name@),
{
    let mut full: Vec<u8> = slice_to_vec(path);
    if path.len() > 0 && path[path.len() - 1] != 47 {
        full.push(47);
    }
    full.extend_from_slice(name);
    assert(full@ =~= joined(path@, name@));
    full
}

/// Constructs the path of an active log file: `<path>/<timestamp>.active.log`.
pub fn file_active_log_path(path: &[u8], timestamp: u64) -> (full: Vec<u8>)
    ensures
        full@ == joined(path@, active_log_name(timestamp)),
{
    let name = active_log_file_name(timestamp);
    join(path, name.as_slice())
}

/// Constructs the path of a sealed log file: `<path>/<timestamp>.log`.
pub fn file_log_path(path: &[u8], timestamp: u64) -> (full: Vec<u8>)
    ensures
        full@ == joined(path@, log_name(timestamp)),
{
    let name = log_file_name(timestamp);
    join(path, name.as_slice())
}

} // verus!
