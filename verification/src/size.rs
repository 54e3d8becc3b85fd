//! The size of a database, and what compaction reclaims: the merged segment
//! is as long as the live records of the sealed segments, which is never
//! more than the sealed segments themselves.

use vstd::prelude::*;
use crate::db::{compacts_to, merged_records, record_of};
use crate::image::{ascending, replay_sealed, Image};
use crate::keydir::KeyDirEntry;
use crate::log::{entry_at, entry_in, key_at, record_at, record_end, replay, replay_step};
use crate::recovery::recoverable;

verus! {

/// The length of the record that an entry for `key` points into.
pub open spec fn record_len(key: Seq<u8>, e: KeyDirEntry) -> int {
    20 + key.len() + e.value_size
}

/// The bytes of the records of `data` from `pos` on that are live: those at
/// which the entry of their key points.
pub open spec fn live_bytes(
    data: Seq<u8>,
    pos: int,
    file_id: u64,
    kd: Map<Seq<u8>, KeyDirEntry>,
) -> int
    decreases data.len() - pos,
{
    match record_at(data, pos) {
        Some(h) => {
            let key = key_at(data, pos, h);
            (if kd.contains_key(key) && kd[key] == entry_at(file_id, pos, h) {
                record_end(pos, h) - pos
            } else {
                0
            }) + live_bytes(data, record_end(pos, h), file_id, kd)
        },
        None => 0,
    }
}

/// The bytes of the records of `data` from `pos` on at which the entry `e`
/// for `key` points.
pub open spec fn hit_bytes(data: Seq<u8>, pos: int, file_id: u64, key: Seq<u8>, e: KeyDirEntry) -> int
    decreases data.len() - pos,
{
    match record_at(data, pos) {
        Some(h) => (if key_at(data, pos, h) == key && e == entry_at(file_id, pos, h) {
            record_end(pos, h) - pos
        } else {
            0
        }) + hit_bytes(data, record_end(pos, h), file_id, key, e),
        None => 0,
    }
}

/// The live bytes of the first `n` sealed segments.
pub open spec fn live_sealed(
    sealed: Seq<(u64, Seq<u8>)>,
    n: int,
    kd: Map<Seq<u8>, KeyDirEntry>,
) -> int
    decreases n,
{
    if n <= 0 {
        0
    } else {
        live_sealed(sealed, n - 1, kd) + live_bytes(sealed[n - 1].1, 0, sealed[n - 1].0, kd)
    }
}

/// The bytes of the first `n` sealed segments at which the entry `e` for
/// `key` points.
pub open spec fn hit_sealed(sealed: Seq<(u64, Seq<u8>)>, n: int, key: Seq<u8>, e: KeyDirEntry) -> int
    decreases n,
{
    if n <= 0 {
        0
    } else {
        hit_sealed(sealed, n - 1, key, e) + hit_bytes(sealed[n - 1].1, 0, sealed[n - 1].0, key, e)
    }
}

/// The bytes of the first `n` sealed segments.
pub open spec fn sealed_bytes(sealed: Seq<(u64, Seq<u8>)>, n: int) -> int
    decreases n,
{
    if n <= 0 {
        0
    } else {
        sealed_bytes(sealed, n - 1) + sealed[n - 1].1.len()
    }
}

/// The bytes of all segments of a database.
pub open spec fn total_bytes(img: Image) -> int {
    img.active.len() + sealed_bytes(img.sealed, img.sealed.len() as int)
}

/// No segment is longer than a 64-bit length.
pub open spec fn bounded(sealed: Seq<(u64, Seq<u8>)>) -> bool {
    forall|j: int| 0 <= j < sealed.len() ==> (#[trigger] sealed[j]).1.len() <= u64::MAX
}

/// The live bytes of a segment are no more than the segment holds.
pub proof fn lemma_live_bound(
    data: Seq<u8>,
    pos: int,
    file_id: u64,
    kd: Map<Seq<u8>, KeyDirEntry>,
)
    requires
        0 <= pos <= data.len(),
    ensures
        0 <= live_bytes(data, pos, file_id, kd) <= data.len() - pos,
    decreases data.len() - pos,
{
    match record_at(data, pos) {
        Some(h) => {
            lemma_live_bound(data, record_end(pos, h), file_id, kd);
        },
        None => {},
    }
}

/// The live bytes of the sealed segments are no more than the segments hold.
pub proof fn lemma_live_sealed_bound(
    sealed: Seq<(u64, Seq<u8>)>,
    n: int,
    kd: Map<Seq<u8>, KeyDirEntry>,
)
    requires
        n <= sealed.len(),
    ensures
        0 <= live_sealed(sealed, n, kd) <= sealed_bytes(sealed, n),
    decreases n,
{
    if n > 0 {
        lemma_live_sealed_bound(sealed, n - 1, kd);
        lemma_live_bound(sealed[n - 1].1, 0, sealed[n - 1].0, kd);
    }
}

/// An entry that points at a record of `data` from `pos` on points into the
/// segment `file_id`, behind that place.
pub proof fn lemma_hit(data: Seq<u8>, pos: int, file_id: u64, key: Seq<u8>, e: KeyDirEntry)
    requires
        0 <= pos,
        data.len() <= u64::MAX,
    ensures
        hit_bytes(data, pos, file_id, key, e) >= 0,
        hit_bytes(data, pos, file_id, key, e) > 0 ==> e.file_id == file_id && e.value_position
            >= pos + 20,
    decreases data.len() - pos,
{
    match record_at(data, pos) {
        Some(h) => {
            lemma_hit(data, record_end(pos, h), file_id, key, e);
        },
        None => {},
    }
}

/// Every entry that a replay leaves is one of the directory it began with,
/// or points at exactly one record of the segment replayed: that of its key.
pub proof fn lemma_replay_hits(
    data: Seq<u8>,
    pos: int,
    file_id: u64,
    kd: Map<Seq<u8>, KeyDirEntry>,
)
    requires
        0 <= pos,
        data.len() <= u64::MAX,
    ensures
        forall|k: Seq<u8>| #[trigger]
            replay(data, pos, file_id, kd).contains_key(k) ==> (kd.contains_key(k) && replay(
                data,
                pos,
                file_id,
                kd,
            )[k] == kd[k]) || hit_bytes(data, pos, file_id, k, replay(data, pos, file_id, kd)[k])
                == record_len(k, replay(data, pos, file_id, kd)[k]),
    decreases data.len() - pos,
{
    match record_at(data, pos) {
        Some(h) => {
            let key = key_at(data, pos, h);
            let entry = entry_at(file_id, pos, h);
            let end = record_end(pos, h);
            let step = replay_step(kd, key, entry);
            lemma_replay_hits(data, end, file_id, step);
            let r = replay(data, pos, file_id, kd);
            assert forall|k: Seq<u8>| #[trigger] r.contains_key(k) implies (kd.contains_key(k)
                && r[k] == kd[k]) || hit_bytes(data, pos, file_id, k, r[k]) == record_len(
                k,
                r[k],
            ) by {
                assert(replay(data, end, file_id, step).contains_key(k));
                lemma_hit(data, end, file_id, k, r[k]);
                if step.contains_key(k) && r[k] == step[k] {
                    if !(kd.contains_key(k) && r[k] == kd[k]) {
                        assert(k == key && r[k] == entry);
                    }
                }
            }
        },
        None => {},
    }
}

/// Every entry that the replay of the sealed segments leaves points at
/// exactly one record of one of them.
pub proof fn lemma_sealed_hits(sealed: Seq<(u64, Seq<u8>)>, n: int)
    requires
        0 <= n <= sealed.len(),
        ascending(sealed),
        bounded(sealed),
    ensures
        forall|k: Seq<u8>| #[trigger]
            replay_sealed(sealed, n).contains_key(k) ==> hit_sealed(
                sealed,
                sealed.len() as int,
                k,
                replay_sealed(sealed, n)[k],
            ) == record_len(k, replay_sealed(sealed, n)[k]),
    decreases n,
{
    if n > 0 {
        lemma_sealed_hits(sealed, n - 1);
        let data = sealed[n - 1].1;
        let id = sealed[n - 1].0;
        let base = replay_sealed(sealed, n - 1);
        lemma_replay_hits(data, 0, id, base);
        let r = replay_sealed(sealed, n);
        assert forall|k: Seq<u8>| #[trigger] r.contains_key(k) implies hit_sealed(
            sealed,
            sealed.len() as int,
            k,
            r[k],
        ) == record_len(k, r[k]) by {
            if !(base.contains_key(k) && r[k] == base[k]) {
                lemma_one_hit(sealed, sealed.len() as int, n - 1, k, r[k]);
            }
        }
    }
}

/// An entry that points at a record of the segment at place `j` points at no
/// record of another segment.
pub proof fn lemma_one_hit(sealed: Seq<(u64, Seq<u8>)>, n: int, j: int, key: Seq<u8>, e: KeyDirEntry)
    requires
        0 <= j < sealed.len(),
        0 <= n <= sealed.len(),
        ascending(sealed),
        bounded(sealed),
        hit_bytes(sealed[j].1, 0, sealed[j].0, key, e) == record_len(key, e),
    ensures
        hit_sealed(sealed, n, key, e) == (if j < n {
            record_len(key, e)
        } else {
            0
        }),
    decreases n,
{
    if n > 0 {
        lemma_one_hit(sealed, n - 1, j, key, e);
        lemma_hit(sealed[j].1, 0, sealed[j].0, key, e);
        lemma_hit(sealed[n - 1].1, 0, sealed[n - 1].0, key, e);
        if n - 1 != j {
            if n - 1 < j {
                assert(sealed[n - 1].0 < sealed[j].0);
            } else {
                assert(sealed[j].0 < sealed[n - 1].0);
            }
        }
    }
}

/// An entry that points into no sealed segment points at no record of one.
pub proof fn lemma_no_hit(sealed: Seq<(u64, Seq<u8>)>, n: int, key: Seq<u8>, e: KeyDirEntry)
    requires
        0 <= n <= sealed.len(),
        bounded(sealed),
        forall|j: int| 0 <= j < sealed.len() ==> (#[trigger] sealed[j]).0 != e.file_id,
    ensures
        hit_sealed(sealed, n, key, e) == 0,
    decreases n,
{
    if n > 0 {
        lemma_no_hit(sealed, n - 1, key, e);
        lemma_hit(sealed[n - 1].1, 0, sealed[n - 1].0, key, e);
        assert(sealed[n - 1].0 != e.file_id);
    }
}

/// A new key adds to the live bytes of a segment the bytes at which its
/// entry points.
pub proof fn lemma_live_insert(
    data: Seq<u8>,
    pos: int,
    file_id: u64,
    kd: Map<Seq<u8>, KeyDirEntry>,
    key: Seq<u8>,
    e: KeyDirEntry,
)
    requires
        !kd.contains_key(key),
    ensures
        live_bytes(data, pos, file_id, kd.insert(key, e)) == live_bytes(data, pos, file_id, kd)
            + hit_bytes(data, pos, file_id, key, e),
    decreases data.len() - pos,
{
    match record_at(data, pos) {
        Some(h) => {
            lemma_live_insert(data, record_end(pos, h), file_id, kd, key, e);
        },
        None => {},
    }
}

/// A new key adds to the live bytes of the sealed segments the bytes at
/// which its entry points.
pub proof fn lemma_live_sealed_insert(
    sealed: Seq<(u64, Seq<u8>)>,
    n: int,
    kd: Map<Seq<u8>, KeyDirEntry>,
    key: Seq<u8>,
    e: KeyDirEntry,
)
    requires
        !kd.contains_key(key),
    ensures
        live_sealed(sealed, n, kd.insert(key, e)) == live_sealed(sealed, n, kd) + hit_sealed(
            sealed,
            n,
            key,
            e,
        ),
    decreases n,
{
    if n > 0 {
        lemma_live_sealed_insert(sealed, n - 1, kd, key, e);
        lemma_live_insert(sealed[n - 1].1, 0, sealed[n - 1].0, kd, key, e);
    }
}

/// The entries of the first `n` keys of `order`.
pub open spec fn first_entries(img: Image, order: Seq<Seq<u8>>, n: int) -> Map<
    Seq<u8>,
    KeyDirEntry,
> {
    Map::new(
        |k: Seq<u8>| exists|j: int| 0 <= j < n && #[trigger] order[j] == k,
        |k: Seq<u8>| img.keydir[k],
    )
}

/// What is known of the keys of a database when it is compacted: they stand
/// in `order`, each once.
pub open spec fn keys_in(img: Image, order: Seq<Seq<u8>>) -> bool {
    &&& forall|i: int, j: int| 0 <= i < j < order.len() ==> order[i] != order[j]
    &&& forall|k: Seq<u8>|
        img.keydir.contains_key(k) <==> exists|i: int|
            0 <= i < order.len() && #[trigger] order[i] == k
}

/// The records that compaction writes for the first `n` keys are as long as
/// the live bytes that the entries of those keys make in the sealed segments.
pub proof fn lemma_merged_len(img: Image, order: Seq<Seq<u8>>, n: int)
    requires
        recoverable(img),
        img.ordered(),
        bounded(img.sealed),
        img.active.len() <= u64::MAX,
        keys_in(img, order),
        0 <= n <= order.len(),
    ensures
        merged_records(img, order, n).len() == live_sealed(
            img.sealed,
            img.sealed.len() as int,
            first_entries(img, order, n),
        ),
    decreases n,
{
    let count = img.sealed.len() as int;
    if n == 0 {
        assert(first_entries(img, order, 0) =~= Map::<Seq<u8>, KeyDirEntry>::empty());
        lemma_live_empty(img.sealed, count);
    } else {
        lemma_merged_len(img, order, n - 1);
        let key = order[n - 1];
        let e = img.keydir[key];
        let earlier = first_entries(img, order, n - 1);
        assert(img.keydir.contains_key(key));
        assert(!earlier.contains_key(key)) by {
            if earlier.contains_key(key) {
                let j = choose|j: int| 0 <= j < n - 1 && #[trigger] order[j] == key;
                assert(order[j] != order[n - 1]);
            }
        }
        assert(first_entries(img, order, n) =~= earlier.insert(key, e)) by {
            assert forall|k: Seq<u8>|
                first_entries(img, order, n).contains_key(k) == earlier.insert(
                    key,
                    e,
                ).contains_key(k) by {
                if k == key {
                    assert(order[n - 1] == k);
                } else {
                    if first_entries(img, order, n).contains_key(k) {
                        let j = choose|j: int| 0 <= j < n && #[trigger] order[j] == k;
                        assert(j != n - 1);
                    }
                    if earlier.contains_key(k) {
                        let j = choose|j: int| 0 <= j < n - 1 && #[trigger] order[j] == k;
                        assert(order[j] == k);
                    }
                }
            }
        }
        lemma_live_sealed_insert(img.sealed, count, earlier, key, e);
        if e.file_id == img.writer_id {
            assert forall|j: int| 0 <= j < img.sealed.len() implies (#[trigger] img.sealed[j]).0
                != e.file_id by {}
            lemma_no_hit(img.sealed, count, key, e);
        } else {
            let base = replay_sealed(img.sealed, count);
            lemma_replay_hits(img.active, 0, img.writer_id, base);
            lemma_hit(img.active, 0, img.writer_id, key, e);
            assert(base.contains_key(key) && base[key] == e);
            lemma_sealed_hits(img.sealed, count);
            assert(entry_in(img.data_of(e.file_id), key, e));
            assert(record_of(img, key).len() == record_len(key, e));
        }
    }
}

/// An empty key directory leaves no live bytes.
pub proof fn lemma_live_empty(sealed: Seq<(u64, Seq<u8>)>, n: int)
    ensures
        live_sealed(sealed, n, Map::<Seq<u8>, KeyDirEntry>::empty()) == 0,
    decreases n,
{
    if n > 0 {
        lemma_live_empty(sealed, n - 1);
        lemma_live_none(sealed[n - 1].1, 0, sealed[n - 1].0);
    }
}

/// An empty key directory leaves no live bytes in a segment.
pub proof fn lemma_live_none(data: Seq<u8>, pos: int, file_id: u64)
    ensures
        live_bytes(data, pos, file_id, Map::<Seq<u8>, KeyDirEntry>::empty()) == 0,
    decreases data.len() - pos,
{
    match record_at(data, pos) {
        Some(h) => {
            lemma_live_none(data, record_end(pos, h), file_id);
        },
        None => {},
    }
}

/// Compaction writes as many bytes as are live in the sealed segments, which
/// is no more than the sealed segments hold.
pub proof fn lemma_compaction_size(img: Image, order: Seq<Seq<u8>>)
    requires
        recoverable(img),
        img.ordered(),
        bounded(img.sealed),
        img.active.len() <= u64::MAX,
        keys_in(img, order),
    ensures
        merged_records(img, order, order.len() as int).len() == live_sealed(
            img.sealed,
            img.sealed.len() as int,
            img.keydir,
        ),
        merged_records(img, order, order.len() as int).len() <= sealed_bytes(
            img.sealed,
            img.sealed.len() as int,
        ),
{
    lemma_merged_len(img, order, order.len() as int);
    assert(first_entries(img, order, order.len() as int) =~= img.keydir);
    lemma_live_sealed_bound(img.sealed, img.sealed.len() as int, img.keydir);
}

/// Whether a scan of `data` from `pos` on finds a record that starts at `p`.
pub open spec fn scanned(data: Seq<u8>, pos: int, p: int) -> bool
    decreases data.len() - pos,
{
    match record_at(data, pos) {
        Some(h) => p == pos || scanned(data, record_end(pos, h), p),
        None => false,
    }
}

/// Whether the record that starts at `p` is live: the entry of its key
/// points at it.
pub open spec fn live_at(data: Seq<u8>, p: int, file_id: u64, kd: Map<Seq<u8>, KeyDirEntry>) -> bool {
    match record_at(data, p) {
        Some(h) => kd.contains_key(key_at(data, p, h)) && kd[key_at(data, p, h)] == entry_at(
            file_id,
            p,
            h,
        ),
        None => false,
    }
}

/// Whether a sealed segment holds a record that is not live: a put that was
/// superseded, or a tombstone.
pub open spec fn has_dead_record(img: Image) -> bool {
    exists|j: int, p: int|
        0 <= j < img.sealed.len() && #[trigger] scanned(img.sealed[j].1, 0, p) && !live_at(
            img.sealed[j].1,
            p,
            img.sealed[j].0,
            img.keydir,
        )
}

/// A segment with a record that is not live holds more than its live bytes.
pub proof fn lemma_dead_record(
    data: Seq<u8>,
    pos: int,
    file_id: u64,
    kd: Map<Seq<u8>, KeyDirEntry>,
    p: int,
)
    requires
        0 <= pos <= data.len(),
        scanned(data, pos, p),
        !live_at(data, p, file_id, kd),
    ensures
        live_bytes(data, pos, file_id, kd) < data.len() - pos,
    decreases data.len() - pos,
{
    match record_at(data, pos) {
        Some(h) => {
            let end = record_end(pos, h);
            if p == pos {
                lemma_live_bound(data, end, file_id, kd);
            } else {
                lemma_dead_record(data, end, file_id, kd, p);
            }
        },
        None => {},
    }
}

/// Sealed segments of which one has a record that is not live hold more
/// than their live bytes.
pub proof fn lemma_dead_sealed(
    sealed: Seq<(u64, Seq<u8>)>,
    n: int,
    kd: Map<Seq<u8>, KeyDirEntry>,
    j: int,
    p: int,
)
    requires
        0 <= j < n <= sealed.len(),
        scanned(sealed[j].1, 0, p),
        !live_at(sealed[j].1, p, sealed[j].0, kd),
    ensures
        live_sealed(sealed, n, kd) < sealed_bytes(sealed, n),
    decreases n,
{
    if j == n - 1 {
        lemma_live_sealed_bound(sealed, n - 1, kd);
        lemma_dead_record(sealed[j].1, 0, sealed[j].0, kd, p);
    } else {
        lemma_dead_sealed(sealed, n - 1, kd, j, p);
        lemma_live_bound(sealed[n - 1].1, 0, sealed[n - 1].0, kd);
    }
}

/// Compaction makes the database smaller where a sealed segment holds a
/// record that is not live: a put that was superseded, or a tombstone.
pub proof fn lemma_compaction_shrinks(
    before: Image,
    order: Seq<Seq<u8>>,
    after: Image,
    j: int,
    p: int,
)
    requires
        recoverable(before),
        before.ordered(),
        bounded(before.sealed),
        before.active.len() <= u64::MAX,
        keys_in(before, order),
        compacts_to(before, order, after),
        0 <= j < before.sealed.len(),
        scanned(before.sealed[j].1, 0, p),
        !live_at(before.sealed[j].1, p, before.sealed[j].0, before.keydir),
    ensures
        total_bytes(after) < total_bytes(before),
{
    lemma_compaction_size(before, order);
    lemma_dead_sealed(before.sealed, before.sealed.len() as int, before.keydir, j, p);
    assert(sealed_bytes(after.sealed, 1) == after.sealed[0].1.len()) by {
        assert(sealed_bytes(after.sealed, 0) == 0);
    }
}

} // verus!
