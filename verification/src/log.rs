//! Scanning a segment: which records it holds, and what replaying them does to
//! a key directory.

use vstd::prelude::*;
use vstd::slice::*;
use crate::codec::{
    checksum, crc32, encoded, header_of, lemma_header_bytes_of, CommandHeader,
};
use crate::error::Error;
use crate::keydir::{KeyDir, KeyDirEntry};

verus! {

/// The header of the record that starts at `pos`, if a whole record with a
/// matching checksum lies there.
pub open spec fn record_at(data: Seq<u8>, pos: int) -> Option<CommandHeader> {
    if pos < 0 || pos + 20 > data.len() {
        None
    } else {
        let h = header_of(data.subrange(pos, pos + 20));
        let end = pos + 20 + h.key_len + h.value_size;
        if end > data.len() {
            None
        } else if crc32(data.subrange(pos + 20, end)) != h.crc {
            None
        } else {
            Some(h)
        }
    }
}

/// Where the record with header `h` that starts at `pos` ends.
pub open spec fn record_end(pos: int, h: CommandHeader) -> int {
    pos + 20 + h.key_len + h.value_size
}

/// The key of the record with header `h` that starts at `pos`.
pub open spec fn key_at(data: Seq<u8>, pos: int, h: CommandHeader) -> Seq<u8> {
    data.subrange(pos + 20, pos + 20 + h.key_len)
}

/// The entry that points at the value of the record with header `h` at `pos`.
pub open spec fn entry_at(file_id: u64, pos: int, h: CommandHeader) -> KeyDirEntry {
    KeyDirEntry {
        file_id,
        value_size: h.value_size,
        value_position: (pos + 20 + h.key_len) as u64,
        timestamp: h.timestamp,
    }
}

/// What one scanned record does to the key directory: a tombstone erases the
/// key; a put sets the entry unless the key has an entry with a later
/// timestamp, so that of two records with one timestamp the later one wins.
pub open spec fn replay_step(
    kd: Map<Seq<u8>, KeyDirEntry>,
    key: Seq<u8>,
    entry: KeyDirEntry,
) -> Map<Seq<u8>, KeyDirEntry> {
    if entry.value_size == 0 {
        kd.remove(key)
    } else if kd.contains_key(key) && kd[key].timestamp > entry.timestamp {
        kd
    } else {
        kd.insert(key, entry)
    }
}

/// The key directory after the records of `data` from `pos` on are replayed
/// over `kd`. The scan stops at the first place where no whole record with a
/// matching checksum lies.
pub open spec fn replay(
    data: Seq<u8>,
    pos: int,
    file_id: u64,
    kd: Map<Seq<u8>, KeyDirEntry>,
) -> Map<Seq<u8>, KeyDirEntry>
    decreases data.len() - pos,
{
    match record_at(data, pos) {
        Some(h) => replay(
            data,
            record_end(pos, h),
            file_id,
            replay_step(kd, key_at(data, pos, h), entry_at(file_id, pos, h)),
        ),
        None => kd,
    }
}

/// Where a scan of `data` from `pos` on stops: the end of the last whole
/// record.
pub open spec fn valid_end(data: Seq<u8>, pos: int) -> int
    decreases data.len() - pos,
{
    match record_at(data, pos) {
        Some(h) => valid_end(data, record_end(pos, h)),
        None => pos,
    }
}

/// The entry points at the value of a whole record for `key` in `data`: the
/// bytes from the record's start to the value's end are the encoding of the
/// key, the value and the entry's timestamp.
pub open spec fn entry_in(data: Seq<u8>, key: Seq<u8>, e: KeyDirEntry) -> bool {
    &&& key.len() <= u32::MAX
    &&& e.value_size > 0
    &&& e.value_position >= 20 + key.len()
    &&& e.value_position + e.value_size <= data.len()
    &&& data.subrange(e.value_position - 20 - key.len(), e.value_position + e.value_size)
        == encoded(
        e.timestamp,
        key,
        data.subrange(e.value_position as int, e.value_position + e.value_size),
    )
}

/// The entry of a scanned put points at the value of that record.
pub proof fn lemma_scanned_entry(data: Seq<u8>, pos: int, file_id: u64, h: CommandHeader)
    requires
        record_at(data, pos) == Some(h),
        h.value_size > 0,
        data.len() <= u64::MAX,
    ensures
        entry_in(data, key_at(data, pos, h), entry_at(file_id, pos, h)),
{
    let key = key_at(data, pos, h);
    let e = entry_at(file_id, pos, h);
    let end = record_end(pos, h);
    let value = data.subrange(e.value_position as int, e.value_position + e.value_size);
    lemma_header_bytes_of(data.subrange(pos, pos + 20));
    assert(data.subrange(pos + 20, end) =~= key + value);
    assert(data.subrange(pos, end) =~= data.subrange(pos, pos + 20) + key + value);
}

/// An entry that points into `data` points at the same record in every
/// prefix of `data` that holds the value.
pub proof fn lemma_within(data: Seq<u8>, n: int, key: Seq<u8>, e: KeyDirEntry)
    requires
        entry_in(data, key, e),
        e.value_position + e.value_size <= n <= data.len(),
    ensures
        entry_in(data.subrange(0, n), key, e),
        data.subrange(0, n).subrange(e.value_position as int, e.value_position + e.value_size)
            == data.subrange(e.value_position as int, e.value_position + e.value_size),
{
    let shorter = data.subrange(0, n);
    assert(shorter.subrange(e.value_position as int, e.value_position + e.value_size)
        =~= data.subrange(e.value_position as int, e.value_position + e.value_size));
    assert(shorter.subrange(e.value_position - 20 - key.len(), e.value_position + e.value_size)
        =~= data.subrange(e.value_position - 20 - key.len(), e.value_position + e.value_size));
}

/// An entry that points into `data` points at the same record and the same
/// value when bytes are appended to `data`.
pub proof fn lemma_longer(data: Seq<u8>, more: Seq<u8>, key: Seq<u8>, e: KeyDirEntry)
    requires
        entry_in(data, key, e),
    ensures
        entry_in(data + more, key, e),
        (data + more).subrange(e.value_position as int, e.value_position + e.value_size)
            == data.subrange(e.value_position as int, e.value_position + e.value_size),
{
    let longer = data + more;
    assert(longer.subrange(e.value_position as int, e.value_position + e.value_size)
        =~= data.subrange(e.value_position as int, e.value_position + e.value_size));
    assert(longer.subrange(e.value_position - 20 - key.len(), e.value_position + e.value_size)
        =~= data.subrange(e.value_position - 20 - key.len(), e.value_position + e.value_size));
}

/// Reads the header of the record that starts at `pos` and checks that the
/// whole record is there and that its checksum matches.
///
/// Fails with `ShortHeader` when fewer than twenty bytes are left, with
/// `ShortRecord` when the key and value that the header announces are not all
/// there, and with `CrcMismatch` when the checksum differs.
pub fn read_record(data: &[u8], pos: usize) -> (r: Result<CommandHeader, Error>)
    requires
        pos <= data@.len(),
    ensures
        match r {
            Ok(h) => record_at(data@, pos as int) == Some(h),
            Err(e) => {
                &&& record_at(data@, pos as int) is None
                &&& data@.len() - pos < 20 <==> e is ShortHeader
                &&& (data@.len() - pos >= 20 && record_end(
                    pos as int,
                    header_of(data@.subrange(pos as int, pos + 20)),
                ) > data@.len()) <==> e is ShortRecord
                &&& (e is ShortHeader || e is ShortRecord || e is CrcMismatch)
            },
        },
{
    if data.len() - pos < CommandHeader::SIZE {
        return Err(Error::ShortHeader);
    }
    let head = slice_subrange(data, pos, pos + CommandHeader::SIZE);
    let header = match CommandHeader::deserialize(head) {
        Ok(h) => h,
        Err(e) => {
            return Err(e);
        },
    };
    let left: u64 = (data.len() - pos - CommandHeader::SIZE) as u64;
    let body: u64 = header.key_len as u64 + header.value_size as u64;
    if body > left {
        return Err(Error::ShortRecord);
    }
    let start: usize = pos + CommandHeader::SIZE;
    let end: usize = start + body as usize;
    let crc = checksum(slice_subrange(data, start, end));
    if crc != header.crc {
        return Err(Error::CrcMismatch);
    }
    Ok(header)
}

/// Replays the records of one segment over the key directory and returns
/// where the scan stopped: the end of the last whole record.
///
/// Every entry of the resulting directory is either an entry that was there
/// before or points at the value of a whole record of this segment.
pub fn rebuild_keydir(data: &[u8], file_id: u64, keydir: &mut KeyDir) -> (end: usize)
    requires
        old(keydir).wf(),
    ensures
        final(keydir).wf(),
        final(keydir)@ == replay(data@, 0, file_id, old(keydir)@),
        end == valid_end(data@, 0),
        end <= data@.len(),
        forall|k: Seq<u8>| #[trigger]
            final(keydir)@.contains_key(k) ==> (old(keydir)@.contains_key(k) && final(keydir)@[k]
                == old(keydir)@[k]) || (final(keydir)@[k].file_id == file_id && entry_in(
                data@.subrange(0, end as int),
                k,
                final(keydir)@[k],
            )),
{
    let total: usize = data.len();
    let mut position: usize = 0;
    let mut done = false;
    while !done
        invariant
            total == data@.len(),
            position <= data@.len(),
            done ==> record_at(data@, position as int) is None,
            keydir.wf(),
            replay(data@, 0, file_id, old(keydir)@) == replay(
                data@,
                position as int,
                file_id,
                keydir@,
            ),
            valid_end(data@, 0) == valid_end(data@, position as int),
            forall|k: Seq<u8>| #[trigger]
                keydir@.contains_key(k) ==> (old(keydir)@.contains_key(k) && keydir@[k] == old(
                    keydir,
                )@[k]) || (keydir@[k].file_id == file_id && entry_in(
                    data@.subrange(0, position as int),
                    k,
                    keydir@[k],
                )),
        decreases data@.len() - position + (if done { 0int } else { 1int }),
    {
        let scanned = read_record(data, position);
        if scanned.is_err() {
            done = true;
            continue ;
        }
        let header = scanned.unwrap();
        let key_start: usize = position + CommandHeader::SIZE;
        let value_start: usize = key_start + header.key_len as usize;
        let key = slice_subrange(data, key_start, value_start);
        let entry = KeyDirEntry {
            file_id,
            value_size: header.value_size,
            value_position: value_start as u64,
            timestamp: header.timestamp,
        };
        assert(entry == entry_at(file_id, position as int, header));
        assert(key@ == key_at(data@, position as int, header));
        let ghost scanned_to = position;
        let ghost next = value_start + header.value_size;
        let ghost before = keydir@;
        proof {
            if header.value_size > 0 {
                lemma_scanned_entry(data@, position as int, file_id, header);
                lemma_within(data@, next as int, key@, entry);
            }
            assert forall|k: Seq<u8>| #[trigger] before.contains_key(k) && before[k].file_id
                == file_id && entry_in(
                data@.subrange(0, scanned_to as int),
                k,
                before[k],
            ) implies entry_in(data@.subrange(0, next as int), k, before[k]) by {
                lemma_longer(
                    data@.subrange(0, scanned_to as int),
                    data@.subrange(scanned_to as int, next as int),
                    k,
                    before[k],
                );
                assert(data@.subrange(0, scanned_to as int) + data@.subrange(
                    scanned_to as int,
                    next as int,
                ) =~= data@.subrange(0, next as int));
            }
        }
        if header.value_size == 0 {
            keydir.remove(key);
        } else {
            let newer = match keydir.get(key) {
                Some(existing) => existing.timestamp > header.timestamp,
                None => false,
            };
            if !newer {
                keydir.insert(slice_to_vec(key), entry);
            }
        }
        position = value_start + header.value_size as usize;
    }
    position
}

} // verus!
