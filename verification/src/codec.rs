//! The record format of the log: a fixed header of twenty bytes, then the key
//! bytes, then the value bytes. A record without value bytes is a tombstone.

use vstd::prelude::*;
use vstd::bytes::*;
use vstd::slice::*;
use crate::clock::timestamp_as_u64;
use crate::error::{Error, IoErrorKind};

verus! {

/// The CRC-32 (IEEE) checksum of a byte string.
pub uninterp spec fn crc32(data: Seq<u8>) -> u32;

/// `crc32fast::hash` computes the CRC-32 (IEEE) checksum of the bytes given; its
/// result depends on those bytes alone.
#[verifier::external_body]
pub(crate) fn checksum(data: &[u8]) -> (crc: u32)
    ensures
        crc == crc32(data@),
{
    crc32fast::hash(data)
}

/// Header of a record in a log file.
#[derive(Debug, Clone, Copy, PartialEq, Eq, Structural)]
pub struct CommandHeader {
    /// CRC-32 checksum of the key followed by the value
    pub crc: u32,
    /// Timestamp when the record was written
    pub timestamp: u64,
    /// Length of the key in bytes
    pub key_len: u32,
    /// Size of the value in bytes (0 for a tombstone)
    pub value_size: u32,
}

/// The twenty bytes of a header: the four fields in little-endian order.
pub open spec fn header_bytes(h: CommandHeader) -> Seq<u8> {
    spec_u32_to_le_bytes(h.crc) + spec_u64_to_le_bytes(h.timestamp) + spec_u32_to_le_bytes(
        h.key_len,
    ) + spec_u32_to_le_bytes(h.value_size)
}

/// The header that the first twenty bytes of `b` encode.
pub open spec fn header_of(b: Seq<u8>) -> CommandHeader
    recommends
        b.len() >= 20,
{
    CommandHeader {
        crc: spec_u32_from_le_bytes(b.subrange(0, 4)),
        timestamp: spec_u64_from_le_bytes(b.subrange(4, 12)),
        key_len: spec_u32_from_le_bytes(b.subrange(12, 16)),
        value_size: spec_u32_from_le_bytes(b.subrange(16, 20)),
    }
}

/// The bytes of a whole record with the given checksum and timestamp.
pub open spec fn record_bytes(crc: u32, timestamp: u64, key: Seq<u8>, value: Seq<u8>) -> Seq<u8>
    recommends
        key.len() <= u32::MAX,
        value.len() <= u32::MAX,
{
    header_bytes(
        CommandHeader {
            crc,
            timestamp,
            key_len: key.len() as u32,
            value_size: value.len() as u32,
        },
    ) + key + value
}

/// The bytes of the record that a put or a delete appends: the checksum is that
/// of the key followed by the value.
pub open spec fn encoded(timestamp: u64, key: Seq<u8>, value: Seq<u8>) -> Seq<u8> {
    record_bytes(crc32(key + value), timestamp, key, value)
}

/// A header is twenty bytes long and decoding them gives the header back.
pub proof fn lemma_header_round_trip(h: CommandHeader)
    ensures
        header_bytes(h).len() == 20,
        header_of(header_bytes(h)) == h,
{
    lemma_auto_spec_u32_to_from_le_bytes();
    lemma_auto_spec_u64_to_from_le_bytes();
    let b = header_bytes(h);
    assert(b.subrange(0, 4) =~= spec_u32_to_le_bytes(h.crc));
    assert(b.subrange(4, 12) =~= spec_u64_to_le_bytes(h.timestamp));
    assert(b.subrange(12, 16) =~= spec_u32_to_le_bytes(h.key_len));
    assert(b.subrange(16, 20) =~= spec_u32_to_le_bytes(h.value_size));
}

/// Twenty bytes are the encoding of the header that they decode to.
pub proof fn lemma_header_bytes_of(b: Seq<u8>)
    requires
        b.len() == 20,
    ensures
        header_bytes(header_of(b)) == b,
{
    lemma_auto_spec_u32_to_from_le_bytes();
    lemma_auto_spec_u64_to_from_le_bytes();
    assert(header_bytes(header_of(b)) =~= b.subrange(0, 4) + b.subrange(4, 12) + b.subrange(
        12,
        16,
    ) + b.subrange(16, 20));
    assert(b.subrange(0, 4) + b.subrange(4, 12) + b.subrange(12, 16) + b.subrange(16, 20) =~= b);
}

/// Decoding a record that the codec wrote gives back the header fields, the key
/// and the value, and the checksum in the header is that of key and value.
pub proof fn lemma_record_round_trip(timestamp: u64, key: Seq<u8>, value: Seq<u8>)
    requires
        key.len() <= u32::MAX,
        value.len() <= u32::MAX,
    ensures
        encoded(timestamp, key, value).len() == 20 + key.len() + value.len(),
        header_of(encoded(timestamp, key, value)) == (CommandHeader {
            crc: crc32(key + value),
            timestamp,
            key_len: key.len() as u32,
            value_size: value.len() as u32,
        }),
        encoded(timestamp, key, value).subrange(20, 20 + key.len() as int) == key,
        encoded(timestamp, key, value).subrange(
            20 + key.len() as int,
            20 + key.len() as int + value.len() as int,
        ) == value,
        crc32(encoded(timestamp, key, value).skip(20)) == header_of(
            encoded(timestamp, key, value),
        ).crc,
{
    let h = CommandHeader {
        crc: crc32(key + value),
        timestamp,
        key_len: key.len() as u32,
        value_size: value.len() as u32,
    };
    lemma_header_round_trip(h);
    let r = encoded(timestamp, key, value);
    let hb = header_bytes(h);
    assert(r.subrange(0, 4) =~= hb.subrange(0, 4));
    assert(r.subrange(4, 12) =~= hb.subrange(4, 12));
    assert(r.subrange(12, 16) =~= hb.subrange(12, 16));
    assert(r.subrange(16, 20) =~= hb.subrange(16, 20));
    assert(r.subrange(20, 20 + key.len() as int) =~= key);
    assert(r.subrange(20 + key.len() as int, 20 + key.len() as int + value.len() as int) =~= value);
    assert(r.skip(20) =~= key + value);
}

/// Overwrites the bytes of `buffer` from index `at` on with the bytes of `src`.
pub fn copy_into(buffer: &mut Vec<u8>, at: usize, src: &[u8])
    requires
        at + src@.len() <= old(buffer)@.len(),
    ensures
        final(buffer)@ == old(buffer)@.subrange(0, at as int) + src@ + old(buffer)@.skip(
            at as int + src@.len() as int,
        ),
{
    let total: usize = buffer.len();
    let mut i: usize = 0;
    while i < src.len()
        invariant
            i <= src@.len(),
            buffer@.len() == total,
            at + src@.len() <= buffer@.len(),
            buffer@.len() == old(buffer)@.len(),
            buffer@ == old(buffer)@.subrange(0, at as int) + src@.subrange(0, i as int) + old(buffer)@.skip(at as int + i as int),
        decreases src@.len() - i,
    {
        let b = src[i];
        buffer.set(at + i, b);
        i += 1;
        assert(buffer@ =~= old(buffer)@.subrange(0, at as int) + src@.subrange(0, i as int) + old(buffer)@.skip(at as int + i as int));
    }
    assert(src@.subrange(0, i as int) =~= src@);
}

impl CommandHeader {
    /// Size of the header in bytes.
    pub const SIZE: usize = 20;

    /// Creates a header with the given fields.
    pub fn new(crc: u32, timestamp: u64, key_len: u32, value_len: u32) -> (h: Self)
        ensures
            h == (CommandHeader { crc, timestamp, key_len, value_size: value_len }),
    {
        CommandHeader { crc, timestamp, key_len, value_size: value_len }
    }

    /// Writes the header over the first twenty bytes of `buffer`.
    ///
    /// Fails with `Io(WriteZero)`, leaving the buffer as it was, when the buffer
    /// is shorter than a header.
    pub fn serialize(&self, buffer: &mut Vec<u8>) -> (r: Result<(), Error>)
        ensures
            old(buffer)@.len() >= 20 ==> r is Ok && final(buffer)@ == header_bytes(*self) + old(buffer)@.skip(20),
            old(buffer)@.len() < 20 ==> r is Err && r->Err_0 == Error::Io(IoErrorKind::WriteZero)
                && final(buffer)@ == old(buffer)@,
    {
        if buffer.len() < CommandHeader::SIZE {
            return Err(Error::Io(IoErrorKind::WriteZero));
        }
        proof {
            lemma_auto_spec_u32_to_from_le_bytes();
            lemma_auto_spec_u64_to_from_le_bytes();
        }
        let crc = u32_to_le_bytes(self.crc);
        let timestamp = u64_to_le_bytes(self.timestamp);
        let key_len = u32_to_le_bytes(self.key_len);
        let value_size = u32_to_le_bytes(self.value_size);
        copy_into(buffer, 0, crc.as_slice());
        copy_into(buffer, 4, timestamp.as_slice());
        copy_into(buffer, 12, key_len.as_slice());
        copy_into(buffer, 16, value_size.as_slice());
        assert(buffer@ =~= header_bytes(*self) + old(buffer)@.skip(20));
        Ok(())
    }

    /// Reads a header from the first twenty bytes of `buf`.
    ///
    /// Fails with `ShortHeader` when `buf` holds fewer than twenty bytes.
    pub fn deserialize(buf: &[u8]) -> (r: Result<Self, Error>)
        ensures
            buf@.len() >= 20 ==> r == Ok::<Self, Error>(header_of(buf@)),
            buf@.len() < 20 ==> r is Err && r->Err_0 is ShortHeader,
    {
        if buf.len() < CommandHeader::SIZE {
            return Err(Error::ShortHeader);
        }
        let crc = u32_from_le_bytes(slice_subrange(buf, 0, 4));
        let timestamp = u64_from_le_bytes(slice_subrange(buf, 4, 12));
        let key_len = u32_from_le_bytes(slice_subrange(buf, 12, 16));
        let value_size = u32_from_le_bytes(slice_subrange(buf, 16, 20));
        Ok(CommandHeader { crc, timestamp, key_len, value_size })
    }
}

/// Whether a key and a value are short enough for the length fields of a header.
pub open spec fn fits(key: Seq<u8>, value: Seq<u8>) -> bool {
    key.len() <= u32::MAX && value.len() <= u32::MAX
}

/// Writes a record over the start of `buffer`: the header, then key and value.
fn write_record(crc: u32, timestamp: u64, key: &[u8], value: &[u8], buffer: &mut Vec<u8>) -> (r:
    Result<(), Error>)
    ensures
        !fits(key@, value@) ==> r is Err && r->Err_0 is RecordTooLarge && final(buffer)@ == old(buffer)@,
        fits(key@, value@) && old(buffer)@.len() < 20 + key@.len() + value@.len() ==> r is Err
            && r->Err_0 == Error::Io(IoErrorKind::WriteZero) && final(buffer)@ == old(buffer)@,
        fits(key@, value@) && old(buffer)@.len() >= 20 + key@.len() + value@.len() ==> r is Ok
            && final(buffer)@ == record_bytes(crc, timestamp, key@, value@) + old(buffer)@.skip(
            20 + key@.len() as int + value@.len() as int,
        ),
{
    if key.len() > u32::MAX as usize || value.len() > u32::MAX as usize {
        return Err(Error::RecordTooLarge);
    }
    let total: u64 = 20 + key.len() as u64 + value.len() as u64;
    if (buffer.len() as u64) < total {
        return Err(Error::Io(IoErrorKind::WriteZero));
    }
    let header = CommandHeader::new(crc, timestamp, key.len() as u32, value.len() as u32);
    match header.serialize(buffer) {
        Ok(()) => {},
        Err(e) => {
            return Err(e);
        },
    }
    proof {
        lemma_header_round_trip(header);
    }
    copy_into(buffer, CommandHeader::SIZE, key);
    copy_into(buffer, CommandHeader::SIZE + key.len(), value);
    assert(buffer@ =~= record_bytes(crc, timestamp, key@, value@) + old(buffer)@.skip(
        20 + key@.len() as int + value@.len() as int,
    ));
    Ok(())
}

/// A command to append a key-value pair to the log.
#[derive(Debug)]
pub struct CommandSet {
    /// CRC-32 checksum of key and value
    pub crc: u32,
    /// Timestamp when the command was created (milliseconds since UNIX epoch)
    pub timestamp: u64,
    /// Key to be stored
    pub key: Vec<u8>,
    /// Value to be associated with the key
    pub value: Vec<u8>,
}

/// A command to remove a key from the database.
#[derive(Debug)]
pub struct CommandRemove {
    /// CRC-32 checksum of the key
    pub crc: u32,
    /// Timestamp when the command was created (milliseconds since UNIX epoch)
    pub timestamp: u64,
    /// Key to be removed
    pub key: Vec<u8>,
}

impl CommandSet {
    /// Creates a set command with the given timestamp; the checksum is that of
    /// the key followed by the value.
    pub fn with_timestamp(key: Vec<u8>, value: Vec<u8>, timestamp: u64) -> (c: Self)
        ensures
            c.crc == crc32(key@ + value@),
            c.timestamp == timestamp,
            c.key@ == key@,
            c.value@ == value@,
    {
        let mut payload: Vec<u8> = Vec::new();
        payload.extend_from_slice(key.as_slice());
        payload.extend_from_slice(value.as_slice());
        assert(payload@ =~= key@ + value@);
        let crc = checksum(payload.as_slice());
        CommandSet { crc, timestamp, key, value }
    }

    /// Creates a set command stamped with the current time.
    ///
    /// Fails with `TimestampError` or `TimestampOverflow` when the clock cannot
    /// be read as milliseconds in 64 bits.
    pub fn new(key: Vec<u8>, value: Vec<u8>) -> (r: Result<Self, Error>)
        ensures
            match r {
                Ok(c) => c.crc == crc32(key@ + value@) && c.key@ == key@ && c.value@ == value@,
                Err(e) => e is TimestampError || e is TimestampOverflow,
            },
    {
        match timestamp_as_u64() {
            Ok(timestamp) => Ok(CommandSet::with_timestamp(key, value, timestamp)),
            Err(e) => Err(e),
        }
    }

    /// Writes the command over the start of `buffer`: header, key, value.
    ///
    /// Fails with `RecordTooLarge` when the key or the value is longer than a
    /// 32-bit length, and with `Io(WriteZero)` when the buffer is shorter than the
    /// record. A failed call leaves the buffer as it was.
    pub fn serialize(&self, buffer: &mut Vec<u8>) -> (r: Result<(), Error>)
        ensures
            !fits(self.key@, self.value@) ==> r is Err && r->Err_0 is RecordTooLarge && final(buffer)@ == old(buffer)@,
            fits(self.key@, self.value@) && old(buffer)@.len() < 20 + self.key@.len()
                + self.value@.len() ==> r is Err && r->Err_0 == Error::Io(IoErrorKind::WriteZero)
                && final(buffer)@ == old(buffer)@,
            fits(self.key@, self.value@) && old(buffer)@.len() >= 20 + self.key@.len()
                + self.value@.len() ==> r is Ok && final(buffer)@ == record_bytes(
                self.crc,
                self.timestamp,
                self.key@,
                self.value@,
            ) + old(buffer)@.skip(20 + self.key@.len() as int + self.value@.len() as int),
    {
        write_record(self.crc, self.timestamp, self.key.as_slice(), self.value.as_slice(), buffer)
    }
}

impl CommandRemove {
    /// Creates a remove command with the given timestamp; the checksum is that
    /// of the key.
    pub fn with_timestamp(key: Vec<u8>, timestamp: u64) -> (c: Self)
        ensures
            c.crc == crc32(key@),
            c.timestamp == timestamp,
            c.key@ == key@,
    {
        let crc = checksum(key.as_slice());
        CommandRemove { crc, timestamp, key }
    }

    /// Creates a remove command stamped with the current time.
    ///
    /// Fails with `TimestampError` or `TimestampOverflow` when the clock cannot
    /// be read as milliseconds in 64 bits.
    pub fn new(key: Vec<u8>) -> (r: Result<Self, Error>)
        ensures
            match r {
                Ok(c) => c.crc == crc32(key@) && c.key@ == key@,
                Err(e) => e is TimestampError || e is TimestampOverflow,
            },
    {
        match timestamp_as_u64() {
            Ok(timestamp) => Ok(CommandRemove::with_timestamp(key, timestamp)),
            Err(e) => Err(e),
        }
    }

    /// Writes the command over the start of `buffer`: a header with value size
    /// zero, then the key.
    ///
    /// Fails with `RecordTooLarge` when the key is longer than a 32-bit length,
    /// and with `Io(WriteZero)` when the buffer is shorter than the record. A
    /// failed call leaves the buffer as it was.
    pub fn serialize(&self, buffer: &mut Vec<u8>) -> (r: Result<(), Error>)
        ensures
            self.key@.len() > u32::MAX ==> r is Err && r->Err_0 is RecordTooLarge && final(buffer)@ == old(buffer)@,
            self.key@.len() <= u32::MAX && old(buffer)@.len() < 20 + self.key@.len() ==> r is Err
                && r->Err_0 == Error::Io(IoErrorKind::WriteZero) && final(buffer)@ == old(buffer)@,
            self.key@.len() <= u32::MAX && old(buffer)@.len() >= 20 + self.key@.len() ==> r is Ok
                && final(buffer)@ == record_bytes(
                self.crc,
                self.timestamp,
                self.key@,
                Seq::<u8>::empty(),
            ) + old(buffer)@.skip(20 + self.key@.len() as int),
    {
        let value: Vec<u8> = Vec::new();
        write_record(self.crc, self.timestamp, self.key.as_slice(), value.as_slice(), buffer)
    }
}

/// Encodes the record of a put (or, with an empty value, of a delete).
///
/// Fails with `RecordTooLarge` when the key or the value is longer than a
/// 32-bit length or the record is longer than a buffer can be.
pub fn encode_record(timestamp: u64, key: &[u8], value: &[u8]) -> (r: Result<Vec<u8>, Error>)
    ensures
        fits(key@, value@) && 20 + key@.len() + value@.len() <= usize::MAX ==> r is Ok
            && r->Ok_0@ == encoded(timestamp, key@, value@),
        !(fits(key@, value@) && 20 + key@.len() + value@.len() <= usize::MAX) ==> r is Err
            && r->Err_0 is RecordTooLarge,
{
    if key.len() > u32::MAX as usize || value.len() > u32::MAX as usize {
        return Err(Error::RecordTooLarge);
    }
    let total: u64 = 20 + key.len() as u64 + value.len() as u64;
    if total > usize::MAX as u64 {
        return Err(Error::RecordTooLarge);
    }
    let command = CommandSet::with_timestamp(slice_to_vec(key), slice_to_vec(value), timestamp);
    let mut buffer: Vec<u8> = vec![0u8; total as usize];
    match command.serialize(&mut buffer) {
        Ok(()) => {},
        Err(e) => {
            return Err(e);
        },
    }
    assert(buffer@ =~= encoded(timestamp, key@, value@));
    Ok(buffer)
}

} // verus!
