//! Compaction and recovery: a recoverable database is recoverable after
//! compaction, so that it reads the same when it is opened again.

use vstd::prelude::*;
use crate::codec::lemma_record_round_trip;
use crate::db::{compacted, merged_records, moved_to, record_of, relocated};
use crate::image::{has_sealed, replay_sealed, value_of, Image};
use crate::keydir::KeyDirEntry;
use crate::log::{
    entry_at, entry_in, key_at, record_at, record_end, replay, replay_step, valid_end,
};
use crate::recovery::{lemma_replay_append, recoverable};

verus! {

/// Every entry that a replay leaves is one of the directory it began with,
/// or points into the segment replayed.
pub proof fn lemma_replay_origin(
    data: Seq<u8>,
    pos: int,
    file_id: u64,
    kd: Map<Seq<u8>, KeyDirEntry>,
)
    ensures
        forall|k: Seq<u8>| #[trigger]
            replay(data, pos, file_id, kd).contains_key(k) ==> (kd.contains_key(k) && replay(
                data,
                pos,
                file_id,
                kd,
            )[k] == kd[k]) || replay(data, pos, file_id, kd)[k].file_id == file_id,
    decreases data.len() - pos,
{
    match record_at(data, pos) {
        Some(h) => {
            let step = replay_step(kd, key_at(data, pos, h), entry_at(file_id, pos, h));
            lemma_replay_origin(data, record_end(pos, h), file_id, step);
            assert forall|k: Seq<u8>| #[trigger]
                replay(data, pos, file_id, kd).contains_key(k) implies (kd.contains_key(k)
                && replay(data, pos, file_id, kd)[k] == kd[k]) || replay(
                data,
                pos,
                file_id,
                kd,
            )[k].file_id == file_id by {
                assert(replay(data, record_end(pos, h), file_id, step).contains_key(k));
            }
        },
        None => {},
    }
}

/// No entry that the replay of sealed segments leaves points into a segment
/// with another id than theirs.
pub proof fn lemma_sealed_origin(sealed: Seq<(u64, Seq<u8>)>, n: int, writer_id: u64)
    requires
        n <= sealed.len(),
        !has_sealed(sealed, writer_id),
    ensures
        forall|k: Seq<u8>| #[trigger]
            replay_sealed(sealed, n).contains_key(k) ==> replay_sealed(sealed, n)[k].file_id
                != writer_id,
    decreases n,
{
    if n > 0 {
        lemma_sealed_origin(sealed, n - 1, writer_id);
        lemma_replay_origin(sealed[n - 1].1, 0, sealed[n - 1].0, replay_sealed(sealed, n - 1));
        assert(sealed[n - 1].0 != writer_id);
        assert forall|k: Seq<u8>| #[trigger]
            replay_sealed(sealed, n).contains_key(k) implies replay_sealed(sealed, n)[k].file_id
            != writer_id by {
            if replay_sealed(sealed, n - 1).contains_key(k) {
                assert(replay_sealed(sealed, n - 1)[k].file_id != writer_id);
            }
        }
    }
}

/// How, for one key, a replay over the old sealed segments (`a`) stands to the
/// same replay over the merged segment (`b`): both lack the key; or both hold
/// the same entry of the active segment; or `a` holds a sealed entry and `b`
/// the entry that took its place; or `a` holds a sealed entry that does not
/// last, and `b` holds nothing or an earlier entry of the active segment.
pub open spec fn alike_at(
    a: Map<Seq<u8>, KeyDirEntry>,
    b: Map<Seq<u8>, KeyDirEntry>,
    merged: Map<Seq<u8>, KeyDirEntry>,
    last: Map<Seq<u8>, KeyDirEntry>,
    writer_id: u64,
    k: Seq<u8>,
) -> bool {
    if !a.contains_key(k) {
        !b.contains_key(k)
    } else if a[k].file_id == writer_id {
        b.contains_key(k) && b[k] == a[k]
    } else {
        ||| (b.contains_key(k) && merged.contains_key(k) && b[k] == merged[k]
            && merged[k].timestamp == a[k].timestamp)
        ||| ((!b.contains_key(k) || (b[k].file_id == writer_id && b[k].timestamp
            < a[k].timestamp)) && (!last.contains_key(k) || last[k].file_id == writer_id))
    }
}

/// The two replays are alike at every key.
pub open spec fn alike(
    a: Map<Seq<u8>, KeyDirEntry>,
    b: Map<Seq<u8>, KeyDirEntry>,
    merged: Map<Seq<u8>, KeyDirEntry>,
    last: Map<Seq<u8>, KeyDirEntry>,
    writer_id: u64,
) -> bool {
    forall|k: Seq<u8>| #[trigger] alike_at(a, b, merged, last, writer_id, k)
}

/// Replaying the active segment keeps two key directories alike.
pub proof fn lemma_alike_replay(
    data: Seq<u8>,
    pos: int,
    writer_id: u64,
    a: Map<Seq<u8>, KeyDirEntry>,
    b: Map<Seq<u8>, KeyDirEntry>,
    merged: Map<Seq<u8>, KeyDirEntry>,
    last: Map<Seq<u8>, KeyDirEntry>,
)
    requires
        alike(a, b, merged, last, writer_id),
        forall|k: Seq<u8>| #[trigger] merged.contains_key(k) ==> merged[k].file_id != writer_id,
    ensures
        alike(
            replay(data, pos, writer_id, a),
            replay(data, pos, writer_id, b),
            merged,
            last,
            writer_id,
        ),
    decreases data.len() - pos,
{
    match record_at(data, pos) {
        Some(h) => {
            let key = key_at(data, pos, h);
            let entry = entry_at(writer_id, pos, h);
            let a1 = replay_step(a, key, entry);
            let b1 = replay_step(b, key, entry);
            assert forall|k: Seq<u8>| #[trigger] alike_at(a1, b1, merged, last, writer_id, k) by {
                assert(alike_at(a, b, merged, last, writer_id, k));
            }
            lemma_alike_replay(data, record_end(pos, h), writer_id, a1, b1, merged, last);
        },
        None => {},
    }
}

/// The entries that compaction moved: those of the keys whose entries
/// pointed into sealed segments, as they are afterwards.
pub open spec fn moved_entries(before: Image, after: Image) -> Map<Seq<u8>, KeyDirEntry> {
    Map::new(
        |k: Seq<u8>|
            before.keydir.contains_key(k) && before.keydir[k].file_id != before.writer_id,
        |k: Seq<u8>| after.keydir[k],
    )
}

/// The moved entries of the first `n` keys of `order`.
pub open spec fn moved_entries_to(before: Image, after: Image, order: Seq<Seq<u8>>, n: int) -> Map<
    Seq<u8>,
    KeyDirEntry,
> {
    Map::new(
        |k: Seq<u8>|
            before.keydir.contains_key(k) && before.keydir[k].file_id != before.writer_id
                && exists|j: int| 0 <= j < n && #[trigger] order[j] == k,
        |k: Seq<u8>| after.keydir[k],
    )
}

/// What compaction guarantees of a database and the order of its keys.
pub open spec fn compaction_of(before: Image, after: Image, order: Seq<Seq<u8>>, new_id: u64) -> bool {
    &&& before.wf()
    &&& after.wf()
    &&& new_id != before.writer_id
    &&& compacted(before, after, new_id)
    &&& after.sealed[0].1 == merged_records(before, order, order.len() as int)
    &&& forall|i: int|
        0 <= i < order.len() ==> moved_to(before, order, i, #[trigger] after.keydir[order[i]])
    &&& forall|i: int, j: int| 0 <= i < j < order.len() ==> order[i] != order[j]
    &&& forall|k: Seq<u8>|
        before.keydir.contains_key(k) <==> exists|i: int|
            0 <= i < order.len() && #[trigger] order[i] == k
}

/// The merged segment holds whole records only, and replaying it gives the
/// moved entries.
pub proof fn lemma_replay_merged(
    before: Image,
    after: Image,
    order: Seq<Seq<u8>>,
    new_id: u64,
    n: int,
)
    requires
        compaction_of(before, after, order, new_id),
        0 <= n <= order.len(),
    ensures
        valid_end(merged_records(before, order, n), 0) == merged_records(before, order, n).len(),
        replay(merged_records(before, order, n), 0, new_id, Map::empty()) == moved_entries_to(
            before,
            after,
            order,
            n,
        ),
    decreases n,
{
    let empty = Map::<Seq<u8>, KeyDirEntry>::empty();
    if n == 0 {
        let nothing = merged_records(before, order, 0);
        assert(record_at(nothing, 0) is None);
        assert(moved_entries_to(before, after, order, 0) =~= empty);
    } else {
        lemma_replay_merged(before, after, order, new_id, n - 1);
        let key = order[n - 1];
        let earlier = merged_records(before, order, n - 1);
        let old_entry = before.keydir[key];
        assert(before.keydir.contains_key(key));
        if old_entry.file_id == before.writer_id {
            assert(moved_entries_to(before, after, order, n) =~= moved_entries_to(
                before,
                after,
                order,
                n - 1,
            )) by {
                assert forall|k: Seq<u8>|
                    moved_entries_to(before, after, order, n).contains_key(k)
                        == moved_entries_to(before, after, order, n - 1).contains_key(k) by {
                    if moved_entries_to(before, after, order, n).contains_key(k) {
                        let j = choose|j: int| 0 <= j < n && #[trigger] order[j] == k;
                        assert(j != n - 1);
                    }
                    if moved_entries_to(before, after, order, n - 1).contains_key(k) {
                        let j = choose|j: int| 0 <= j < n - 1 && #[trigger] order[j] == k;
                        assert(order[j] == k);
                    }
                }
            }
        } else {
            let data = before.data_of(old_entry.file_id);
            let value = value_of(data, old_entry);
            assert(entry_in(data, key, old_entry));
            assert(record_of(before, key) == crate::codec::encoded(old_entry.timestamp, key, value));
            lemma_replay_append(earlier, 0, new_id, empty, old_entry.timestamp, key, value);
            let new_entry = after.keydir[key];
            assert(relocated(before, key, old_entry, new_entry, after.sealed[0].1, new_id));
            assert(moved_to(before, order, n - 1, after.keydir[order[n - 1]]));
            let so_far = moved_entries_to(before, after, order, n - 1);
            assert(!so_far.contains_key(key)) by {
                if so_far.contains_key(key) {
                    let j = choose|j: int| 0 <= j < n - 1 && #[trigger] order[j] == key;
                    assert(order[j] != order[n - 1]);
                }
            }
            assert(so_far.insert(key, new_entry) =~= moved_entries_to(before, after, order, n)) by {
                assert forall|k: Seq<u8>|
                    so_far.insert(key, new_entry).contains_key(k) == moved_entries_to(
                        before,
                        after,
                        order,
                        n,
                    ).contains_key(k) by {
                    if k == key {
                        assert(order[n - 1] == k);
                    } else {
                        if moved_entries_to(before, after, order, n).contains_key(k) {
                            let j = choose|j: int| 0 <= j < n && #[trigger] order[j] == k;
                            assert(j != n - 1);
                        }
                        if so_far.contains_key(k) {
                            let j = choose|j: int| 0 <= j < n - 1 && #[trigger] order[j] == k;
                            assert(order[j] == k);
                        }
                    }
                }
            }
            lemma_record_round_trip(old_entry.timestamp, key, value);
        }
    }
}

/// Compaction keeps a database recoverable: opened again from the merged
/// segment and the active segment, it has the same key directory.
pub proof fn lemma_compacted_recoverable(
    before: Image,
    after: Image,
    order: Seq<Seq<u8>>,
    new_id: u64,
)
    requires
        recoverable(before),
        compaction_of(before, after, order, new_id),
    ensures
        recoverable(after),
{
    let wid = before.writer_id;
    let old_base = replay_sealed(before.sealed, before.sealed.len() as int);
    let moved = moved_entries(before, after);
    lemma_replay_merged(before, after, order, new_id, order.len() as int);
    assert(moved_entries_to(before, after, order, order.len() as int) =~= moved);
    assert(replay_sealed(after.sealed, 1) == moved) by {
        assert(replay_sealed(after.sealed, 0) =~= Map::<Seq<u8>, KeyDirEntry>::empty());
    }
    lemma_sealed_origin(before.sealed, before.sealed.len() as int, wid);
    lemma_replay_origin(before.active, 0, wid, old_base);
    assert forall|k: Seq<u8>| #[trigger] moved.contains_key(k) implies moved[k].file_id != wid by {
        assert(relocated(before, k, before.keydir[k], after.keydir[k], after.sealed[0].1, new_id));
    }
    assert(alike(old_base, moved, moved, before.keydir, wid)) by {
        assert forall|k: Seq<u8>| #[trigger]
            alike_at(old_base, moved, moved, before.keydir, wid, k) by {
            if moved.contains_key(k) {
                assert(before.keydir.contains_key(k));
                assert(relocated(
                    before,
                    k,
                    before.keydir[k],
                    after.keydir[k],
                    after.sealed[0].1,
                    new_id,
                ));
            }
            if old_base.contains_key(k) {
                assert(old_base[k].file_id != wid);
            }
        }
    }
    lemma_alike_replay(before.active, 0, wid, old_base, moved, moved, before.keydir);
    let again = replay(after.active, 0, wid, moved);
    assert(after.active == before.active);
    assert(replay(before.active, 0, wid, old_base) == before.keydir);
    assert(alike(before.keydir, again, moved, before.keydir, wid));
    assert forall|k: Seq<u8>|
        #![trigger again.contains_key(k)]
        #![trigger after.keydir.contains_key(k)]
        again.contains_key(k) == after.keydir.contains_key(k) && (again.contains_key(k)
            ==> again[k] == after.keydir[k]) by {
        assert(alike_at(before.keydir, again, moved, before.keydir, wid, k));
        assert(after.keydir.dom().contains(k) == before.keydir.dom().contains(k));
        if before.keydir.contains_key(k) {
            assert(relocated(
                before,
                k,
                before.keydir[k],
                after.keydir[k],
                after.sealed[0].1,
                new_id,
            ));
        }
    }
    assert(again =~= after.keydir);
}

} // verus!
