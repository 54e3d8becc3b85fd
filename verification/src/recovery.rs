//! Recovery: a database whose key directory is what replaying its segments
//! gives, and the proof that puts, deletes and rotation keep it so.

use vstd::prelude::*;
use crate::codec::{encoded, fits, lemma_record_round_trip, CommandHeader};
use crate::image::{
    lemma_rank, lemma_rotated, lemma_remove, lemma_with_put, rank, recovered, replay_sealed, Image,
};
use crate::keydir::KeyDirEntry;
use crate::log::{entry_at, key_at, record_at, record_end, replay, replay_step, valid_end};

verus! {

/// Every sealed segment has an id below that of the active segment.
pub open spec fn ordered(img: Image) -> bool {
    img.ordered()
}

/// The database is what recovery would build from its segments: the active
/// segment holds whole records only, and the key directory is what replaying
/// the sealed segments in order, then the active segment, gives.
pub open spec fn recoverable(img: Image) -> bool {
    &&& img.wf()
    &&& valid_end(img.active, 0) == img.active.len()
    &&& img.keydir == replay(
        img.active,
        0,
        img.writer_id,
        replay_sealed(img.sealed, img.sealed.len() as int),
    )
}

/// A scan of a segment that holds whole records only, with one more record
/// appended, finds the old records and then the new one.
pub proof fn lemma_replay_append(
    data: Seq<u8>,
    pos: int,
    file_id: u64,
    kd: Map<Seq<u8>, KeyDirEntry>,
    now: u64,
    key: Seq<u8>,
    value: Seq<u8>,
)
    requires
        0 <= pos <= data.len(),
        valid_end(data, pos) == data.len(),
        fits(key, value),
    ensures
        valid_end(data + encoded(now, key, value), pos) == data.len() + 20 + key.len()
            + value.len(),
        replay(data + encoded(now, key, value), pos, file_id, kd) == replay_step(
            replay(data, pos, file_id, kd),
            key,
            KeyDirEntry {
                file_id,
                value_size: value.len() as u32,
                value_position: (data.len() + 20 + key.len()) as u64,
                timestamp: now,
            },
        ),
    decreases data.len() - pos,
{
    let record = encoded(now, key, value);
    let longer = data + record;
    lemma_record_round_trip(now, key, value);
    match record_at(data, pos) {
        Some(h) => {
            let end = record_end(pos, h);
            assert(longer.subrange(pos, pos + 20) =~= data.subrange(pos, pos + 20));
            assert(longer.subrange(pos + 20, end) =~= data.subrange(pos + 20, end));
            assert(record_at(longer, pos) == Some(h));
            assert(key_at(longer, pos, h) =~= key_at(data, pos, h));
            lemma_replay_append(
                data,
                end,
                file_id,
                replay_step(kd, key_at(data, pos, h), entry_at(file_id, pos, h)),
                now,
                key,
                value,
            );
        },
        None => {
            assert(pos == data.len());
            let h = CommandHeader {
                crc: crate::codec::crc32(key + value),
                timestamp: now,
                key_len: key.len() as u32,
                value_size: value.len() as u32,
            };
            let head = longer.subrange(pos, pos + 20);
            assert(head.subrange(0, 4) =~= record.subrange(0, 4));
            assert(head.subrange(4, 12) =~= record.subrange(4, 12));
            assert(head.subrange(12, 16) =~= record.subrange(12, 16));
            assert(head.subrange(16, 20) =~= record.subrange(16, 20));
            let end = pos + 20 + key.len() + value.len();
            assert(longer.subrange(pos + 20, end) =~= record.skip(20));
            assert(record_at(longer, pos) == Some(h));
            assert(key_at(longer, pos, h) =~= key);
            assert(record_at(longer, end) is None);
            let step = replay_step(kd, key_at(longer, pos, h), entry_at(file_id, pos, h));
            assert(replay(longer, end, file_id, step) == step);
            assert(valid_end(longer, end) == end);
        },
    }
}

/// A scan of the valid prefix of a segment finds what a scan of the segment
/// finds, and stops at the end of the prefix.
pub proof fn lemma_replay_prefix(
    data: Seq<u8>,
    pos: int,
    file_id: u64,
    kd: Map<Seq<u8>, KeyDirEntry>,
)
    requires
        0 <= pos <= data.len(),
    ensures
        pos <= valid_end(data, pos) <= data.len(),
        valid_end(data.subrange(0, valid_end(data, pos)), pos) == valid_end(data, pos),
        replay(data.subrange(0, valid_end(data, pos)), pos, file_id, kd) == replay(
            data,
            pos,
            file_id,
            kd,
        ),
    decreases data.len() - pos,
{
    match record_at(data, pos) {
        Some(h) => {
            let end = record_end(pos, h);
            let step = replay_step(kd, key_at(data, pos, h), entry_at(file_id, pos, h));
            lemma_replay_prefix(data, end, file_id, step);
            let prefix = data.subrange(0, valid_end(data, pos));
            assert(prefix.subrange(pos, pos + 20) =~= data.subrange(pos, pos + 20));
            assert(prefix.subrange(pos + 20, end) =~= data.subrange(pos + 20, end));
            assert(record_at(prefix, pos) == Some(h));
            assert(key_at(prefix, pos, h) =~= key_at(data, pos, h));
        },
        None => {
            let prefix = data.subrange(0, pos);
            assert(record_at(prefix, pos) is None);
        },
    }
}

/// Replaying the first `n` segments depends on those segments alone.
pub proof fn lemma_replay_sealed_same(a: Seq<(u64, Seq<u8>)>, b: Seq<(u64, Seq<u8>)>, n: int)
    requires
        n <= a.len(),
        n <= b.len(),
        forall|j: int| 0 <= j < n ==> a[j] == b[j],
    ensures
        replay_sealed(a, n) == replay_sealed(b, n),
    decreases n,
{
    if n > 0 {
        lemma_replay_sealed_same(a, b, n - 1);
    }
}

/// A fresh database is recoverable, and its segments are in order.
pub proof fn lemma_fresh_recoverable(now: u64)
    ensures
        recoverable(Image::fresh(now)),
        ordered(Image::fresh(now)),
{
    let img = Image::fresh(now);
    assert(record_at(img.active, 0) is None);
}

/// What recovery builds is recoverable.
pub proof fn lemma_recovered_recoverable(
    writer_id: u64,
    active: Seq<u8>,
    sealed: Seq<(u64, Seq<u8>)>,
)
    requires
        recovered(writer_id, active, sealed).wf(),
    ensures
        recoverable(recovered(writer_id, active, sealed)),
{
    lemma_replay_prefix(active, 0, writer_id, replay_sealed(sealed, sealed.len() as int));
}

/// Rotation keeps the segments in order.
pub proof fn lemma_rotated_ordered(img: Image, now: u64)
    requires
        img.wf(),
        ordered(img),
        img.fresh_id(now) <= u64::MAX,
    ensures
        ordered(img.rotated(now)),
{
    let after = img.rotated(now);
    let n = img.sealed.len() as int;
    lemma_rank(img.sealed, img.writer_id);
    let r = rank(img.sealed, img.writer_id);
    if r < n {
        assert(img.sealed[r].0 >= img.writer_id);
    }
    assert(after.sealed =~= img.sealed.push((img.writer_id, img.active)));
    if n > 0 {
        assert(img.sealed.last() == img.sealed[n - 1]);
    }
    assert forall|i: int| 0 <= i < after.sealed.len() implies (#[trigger] after.sealed[i]).0
        < after.writer_id by {
        if i < n {
            assert(after.sealed[i] == img.sealed[i]);
        }
    }
}

/// A put keeps the segments in order.
pub proof fn lemma_put_ordered(img: Image, now: u64, key: Seq<u8>, value: Seq<u8>)
    requires
        img.wf(),
        ordered(img),
        img.rotation_due() ==> img.fresh_id(now) <= u64::MAX,
    ensures
        ordered(img.put(now, key, value)),
{
    if img.rotation_due() {
        lemma_rotated_ordered(img, now);
    }
}

/// Rotation keeps a database recoverable, where its segments are in order.
pub proof fn lemma_rotated_recoverable(img: Image, now: u64)
    requires
        recoverable(img),
        ordered(img),
        img.fresh_id(now) <= u64::MAX,
    ensures
        recoverable(img.rotated(now)),
{
    let after = img.rotated(now);
    let n = img.sealed.len() as int;
    lemma_rotated(img, now);
    lemma_rank(img.sealed, img.writer_id);
    let r = rank(img.sealed, img.writer_id);
    if r < n {
        assert(img.sealed[r].0 >= img.writer_id);
    }
    assert(after.sealed =~= img.sealed.push((img.writer_id, img.active)));
    lemma_replay_sealed_same(after.sealed, img.sealed, n);
    assert(after.sealed[n] == (img.writer_id, img.active));
    assert(replay_sealed(after.sealed, n + 1) == img.keydir);
    assert(record_at(after.active, 0) is None);
}

/// A put keeps a database recoverable, where its segments are in order.
pub proof fn lemma_put_recoverable(img: Image, now: u64, key: Seq<u8>, value: Seq<u8>)
    requires
        recoverable(img),
        ordered(img),
        fits(key, value),
        value.len() > 0,
        img.rotation_due() ==> img.fresh_id(now) <= u64::MAX,
        !img.rotation_due() ==> img.active.len() + 20 + key.len() + value.len() <= u64::MAX,
    ensures
        recoverable(img.put(now, key, value)),
{
    let at = img.stamp(now, key);
    let base = if img.rotation_due() {
        img.rotated(now)
    } else {
        img
    };
    if img.rotation_due() {
        lemma_rotated_recoverable(img, now);
    }
    lemma_with_put(base, at, key, value);
    lemma_replay_append(
        base.active,
        0,
        base.writer_id,
        replay_sealed(base.sealed, base.sealed.len() as int),
        at,
        key,
        value,
    );
    let after = base.with_put(at, key, value);
    assert(after == img.put(now, key, value));
    assert(after.active.len() == base.active.len() + 20 + key.len() + value.len()) by {
        lemma_record_round_trip(at, key, value);
    }
}

/// A delete keeps a database recoverable.
pub proof fn lemma_remove_recoverable(img: Image, now: u64, key: Seq<u8>)
    requires
        recoverable(img),
        key.len() <= u32::MAX,
    ensures
        recoverable(img.remove(now, key)),
{
    lemma_remove(img, now, key);
    lemma_replay_append(
        img.active,
        0,
        img.writer_id,
        replay_sealed(img.sealed, img.sealed.len() as int),
        now,
        key,
        Seq::empty(),
    );
    lemma_record_round_trip(now, key, Seq::empty());
}

/// Closing and reopening a recoverable database gives the database back:
/// recovery from its segments builds the same key directory over the same
/// segments, so every key reads as before.
pub proof fn lemma_reopen(img: Image)
    requires
        recoverable(img),
    ensures
        recovered(img.writer_id, img.active, img.sealed) == img,
        recovered(img.writer_id, img.active, img.sealed).view() == img.view(),
{
    assert(img.active.subrange(0, img.active.len() as int) =~= img.active);
}

} // verus!
