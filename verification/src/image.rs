//! The state of a database as a mathematical value, and what the operations
//! of the engine do to it.

use vstd::prelude::*;
use crate::codec::{encoded, fits, lemma_record_round_trip};
use crate::error::Error;
use crate::keydir::KeyDirEntry;
use crate::log::{entry_in, lemma_longer, replay, valid_end};

verus! {

/// Maximum size of the active segment before rotation (4 MiB).
pub const MAX_ACTIVE_FILE_SIZE: u64 = 4 * 1024 * 1024;

/// A database: the active segment, the sealed segments in ascending order of
/// their ids, and the key directory.
pub struct Image {
    /// Id of the active segment
    pub writer_id: u64,
    /// Bytes of the active segment
    pub active: Seq<u8>,
    /// Id and bytes of every sealed segment
    pub sealed: Seq<(u64, Seq<u8>)>,
    /// Where the latest value of every live key lies
    pub keydir: Map<Seq<u8>, KeyDirEntry>,
}

/// The ids ascend strictly.
pub open spec fn ascending(sealed: Seq<(u64, Seq<u8>)>) -> bool {
    forall|i: int, j: int| 0 <= i < j < sealed.len() ==> sealed[i].0 < sealed[j].0
}

/// Whether a sealed segment has this id.
pub open spec fn has_sealed(sealed: Seq<(u64, Seq<u8>)>, id: u64) -> bool {
    exists|i: int| 0 <= i < sealed.len() && (#[trigger] sealed[i]).0 == id
}

/// The place of the sealed segment with this id.
pub open spec fn sealed_index(sealed: Seq<(u64, Seq<u8>)>, id: u64) -> int {
    choose|i: int| 0 <= i < sealed.len() && (#[trigger] sealed[i]).0 == id
}

/// The number of segments of an ascending sequence whose id is below `id`.
pub open spec fn rank(sealed: Seq<(u64, Seq<u8>)>, id: u64) -> int
    decreases sealed.len(),
{
    if sealed.len() == 0 {
        0
    } else if sealed.last().0 < id {
        sealed.len() as int
    } else {
        rank(sealed.drop_last(), id)
    }
}

/// The bytes that an entry points at.
pub open spec fn value_of(data: Seq<u8>, e: KeyDirEntry) -> Seq<u8> {
    data.subrange(e.value_position as int, e.value_position + e.value_size)
}

impl Image {
    /// Whether a segment, active or sealed, has this id.
    pub open spec fn has_segment(self, id: u64) -> bool {
        id == self.writer_id || has_sealed(self.sealed, id)
    }

    /// The bytes of the segment with this id.
    pub open spec fn data_of(self, id: u64) -> Seq<u8> {
        if id == self.writer_id {
            self.active
        } else {
            self.sealed[sealed_index(self.sealed, id)].1
        }
    }

    /// No two segments share an id, the sealed ones ascend, and every entry of
    /// the key directory points at the value of a whole record for its key in
    /// a segment that exists.
    pub open spec fn wf(self) -> bool {
        &&& ascending(self.sealed)
        &&& !has_sealed(self.sealed, self.writer_id)
        &&& forall|k: Seq<u8>| #[trigger]
            self.keydir.contains_key(k) ==> self.has_segment(self.keydir[k].file_id) && entry_in(
                self.data_of(self.keydir[k].file_id),
                k,
                self.keydir[k],
            )
    }

    /// The contents of the database: every live key with its value.
    pub open spec fn view(self) -> Map<Seq<u8>, Seq<u8>> {
        Map::new(
            |k: Seq<u8>| self.keydir.contains_key(k),
            |k: Seq<u8>| value_of(self.data_of(self.keydir[k].file_id), self.keydir[k]),
        )
    }

    /// The largest id of a segment.
    pub open spec fn max_id(self) -> u64 {
        if self.sealed.len() > 0 && self.sealed.last().0 > self.writer_id {
            self.sealed.last().0
        } else {
            self.writer_id
        }
    }

    /// The id of a segment made at time `now`: the time itself, or the next id
    /// after the largest in use when the time is not later than that.
    pub open spec fn fresh_id(self, now: u64) -> int {
        if now > self.max_id() {
            now as int
        } else {
            self.max_id() + 1
        }
    }

    /// A fresh database whose active segment has the id `now`.
    pub open spec fn fresh(now: u64) -> Image {
        Image {
            writer_id: now,
            active: Seq::empty(),
            sealed: Seq::empty(),
            keydir: Map::empty(),
        }
    }

    /// Whether the active segment has outgrown its limit.
    pub open spec fn rotation_due(self) -> bool {
        self.active.len() > MAX_ACTIVE_FILE_SIZE
    }

    /// The database after rotation at time `now`: the active segment is
    /// sealed under its id and an empty active segment with a fresh id begins.
    pub open spec fn rotated(self, now: u64) -> Image {
        Image {
            writer_id: self.fresh_id(now) as u64,
            active: Seq::empty(),
            sealed: self.sealed.insert(
                rank(self.sealed, self.writer_id),
                (self.writer_id, self.active),
            ),
            keydir: self.keydir,
        }
    }

    /// The database after the record of a put is appended to the active
    /// segment and the key directory points at its value.
    pub open spec fn with_put(self, now: u64, key: Seq<u8>, value: Seq<u8>) -> Image {
        Image {
            active: self.active + encoded(now, key, value),
            keydir: self.keydir.insert(
                key,
                KeyDirEntry {
                    file_id: self.writer_id,
                    value_size: value.len() as u32,
                    value_position: (self.active.len() + 20 + key.len()) as u64,
                    timestamp: now,
                },
            ),
            ..self
        }
    }

    /// The timestamp of a record for `key` written at time `now`: the time
    /// itself, or the timestamp of the key's current record where that is
    /// later, so that the timestamps of one key never go back.
    pub open spec fn stamp(self, now: u64, key: Seq<u8>) -> u64 {
        if self.keydir.contains_key(key) && self.keydir[key].timestamp > now {
            self.keydir[key].timestamp
        } else {
            now
        }
    }

    /// The database after a put at time `now`, with rotation first where it
    /// is due.
    pub open spec fn put(self, now: u64, key: Seq<u8>, value: Seq<u8>) -> Image {
        if self.rotation_due() {
            self.rotated(now).with_put(self.stamp(now, key), key, value)
        } else {
            self.with_put(self.stamp(now, key), key, value)
        }
    }

    /// Every sealed segment has an id below that of the active segment: the
    /// segments ascend in the order in which they were made.
    pub open spec fn ordered(self) -> bool {
        forall|i: int| 0 <= i < self.sealed.len() ==> (#[trigger] self.sealed[i]).0 < self.writer_id
    }

    /// The database after a tombstone for `key` is appended to the active
    /// segment and the key is erased from the key directory.
    pub open spec fn remove(self, now: u64, key: Seq<u8>) -> Image {
        Image {
            active: self.active + encoded(now, key, Seq::empty()),
            keydir: self.keydir.remove(key),
            ..self
        }
    }
}

/// In an ascending sequence `rank` splits the ids below `id` from the others.
pub proof fn lemma_rank(sealed: Seq<(u64, Seq<u8>)>, id: u64)
    requires
        ascending(sealed),
    ensures
        0 <= rank(sealed, id) <= sealed.len(),
        forall|j: int| 0 <= j < rank(sealed, id) ==> sealed[j].0 < id,
        forall|j: int| rank(sealed, id) <= j < sealed.len() ==> sealed[j].0 >= id,
    decreases sealed.len(),
{
    if sealed.len() > 0 && !(sealed.last().0 < id) {
        let shorter = sealed.drop_last();
        assert(ascending(shorter)) by {
            assert forall|i: int, j: int| 0 <= i < j < shorter.len() implies shorter[i].0
                < shorter[j].0 by {
                assert(shorter[i] == sealed[i]);
                assert(shorter[j] == sealed[j]);
            }
        }
        lemma_rank(shorter, id);
        assert forall|j: int| 0 <= j < rank(sealed, id) implies sealed[j].0 < id by {
            assert(shorter[j] == sealed[j]);
        }
        assert forall|j: int| rank(sealed, id) <= j < sealed.len() implies sealed[j].0 >= id by {
            if j < shorter.len() {
                assert(shorter[j] == sealed[j]);
            }
        }
    }
}

/// In an ascending sequence the segment at place `i` is the one found under
/// its id.
pub proof fn lemma_sealed_at(sealed: Seq<(u64, Seq<u8>)>, i: int)
    requires
        ascending(sealed),
        0 <= i < sealed.len(),
    ensures
        has_sealed(sealed, sealed[i].0),
        sealed_index(sealed, sealed[i].0) == i,
{
    let id = sealed[i].0;
    assert(sealed[i].0 == id);
    let j = sealed_index(sealed, id);
    assert(0 <= j < sealed.len() && sealed[j].0 == id);
    if j < i {
        assert(sealed[j].0 < sealed[i].0);
    } else if i < j {
        assert(sealed[i].0 < sealed[j].0);
    }
}

/// A put keeps the database well formed and sets the key to the value,
/// leaving every other key as it was.
pub proof fn lemma_with_put(img: Image, now: u64, key: Seq<u8>, value: Seq<u8>)
    requires
        img.wf(),
        fits(key, value),
        value.len() > 0,
        img.active.len() + 20 + key.len() + value.len() <= u64::MAX,
    ensures
        img.with_put(now, key, value).wf(),
        img.with_put(now, key, value).view() == img.view().insert(key, value),
{
    let after = img.with_put(now, key, value);
    let record = encoded(now, key, value);
    let entry = after.keydir[key];
    lemma_record_round_trip(now, key, value);
    assert(after.active.subrange(img.active.len() as int, after.active.len() as int) =~= record);
    assert(value_of(after.active, entry) =~= value) by {
        assert(record.subrange(20 + key.len() as int, 20 + key.len() as int + value.len() as int)
            == value);
    }
    assert forall|k: Seq<u8>| #[trigger] after.keydir.contains_key(k) implies after.has_segment(
        after.keydir[k].file_id,
    ) && entry_in(after.data_of(after.keydir[k].file_id), k, after.keydir[k]) && after.view()[k]
        == img.view().insert(key, value)[k] by {
        if k == key {
        } else {
            let e = img.keydir[k];
            assert(img.keydir.contains_key(k));
            if e.file_id == img.writer_id {
                lemma_longer(img.active, record, k, e);
            }
        }
    }
    assert(after.view() =~= img.view().insert(key, value));
}

/// A delete keeps the database well formed and takes the key out, leaving
/// every other key as it was.
pub proof fn lemma_remove(img: Image, now: u64, key: Seq<u8>)
    requires
        img.wf(),
    ensures
        img.remove(now, key).wf(),
        img.remove(now, key).view() == img.view().remove(key),
{
    let after = img.remove(now, key);
    let record = encoded(now, key, Seq::empty());
    assert forall|k: Seq<u8>| #[trigger] after.keydir.contains_key(k) implies after.has_segment(
        after.keydir[k].file_id,
    ) && entry_in(after.data_of(after.keydir[k].file_id), k, after.keydir[k]) && after.view()[k]
        == img.view().remove(key)[k] by {
        let e = img.keydir[k];
        assert(img.keydir.contains_key(k));
        if e.file_id == img.writer_id {
            lemma_longer(img.active, record, k, e);
        }
    }
    assert(after.view() =~= img.view().remove(key));
}

/// Rotation keeps the database well formed and its contents as they were.
pub proof fn lemma_rotated(img: Image, now: u64)
    requires
        img.wf(),
        img.fresh_id(now) <= u64::MAX,
    ensures
        img.rotated(now).wf(),
        img.rotated(now).view() == img.view(),
        !img.rotated(now).rotation_due(),
{
    let after = img.rotated(now);
    let r = rank(img.sealed, img.writer_id);
    lemma_rank(img.sealed, img.writer_id);
    assert forall|j: int| r <= j < img.sealed.len() implies img.sealed[j].0 > img.writer_id by {
        assert(img.sealed[j].0 == img.sealed[j].0);
    }
    assert(ascending(after.sealed));
    if img.sealed.len() > 0 {
        assert forall|j: int| 0 <= j < img.sealed.len() implies img.sealed[j].0
            <= img.sealed.last().0 by {}
    }
    assert(!has_sealed(after.sealed, after.writer_id)) by {
        if has_sealed(after.sealed, after.writer_id) {
            let j = sealed_index(after.sealed, after.writer_id);
            if j < r {
                assert(after.sealed[j] == img.sealed[j]);
            } else if j > r {
                assert(after.sealed[j] == img.sealed[j - 1]);
            }
        }
    }
    assert forall|id: u64| #[trigger] img.has_segment(id) implies after.has_segment(id)
        && after.data_of(id) == img.data_of(id) by {
        if id == img.writer_id {
            assert(after.sealed[r] == (img.writer_id, img.active));
            lemma_sealed_at(after.sealed, r);
        } else {
            let i = sealed_index(img.sealed, id);
            let i1 = if i < r { i } else { i + 1 };
            assert(after.sealed[i1] == img.sealed[i]);
            lemma_sealed_at(after.sealed, i1);
        }
    }
    assert forall|k: Seq<u8>| #[trigger] after.keydir.contains_key(k) implies after.has_segment(
        after.keydir[k].file_id,
    ) && entry_in(after.data_of(after.keydir[k].file_id), k, after.keydir[k]) by {
        assert(img.keydir.contains_key(k));
        assert(img.has_segment(img.keydir[k].file_id));
    }
    assert(after.view() =~= img.view()) by {
        assert forall|k: Seq<u8>| #[trigger] after.keydir.contains_key(k) implies after.view()[k]
            == img.view()[k] by {
            assert(img.keydir.contains_key(k));
            assert(img.has_segment(img.keydir[k].file_id));
        }
    }
}

/// The bytes of the sealed segment with this id.
pub open spec fn sealed_data(sealed: Seq<(u64, Seq<u8>)>, id: u64) -> Seq<u8> {
    sealed[sealed_index(sealed, id)].1
}

/// The key directory after the first `n` sealed segments are replayed in
/// order over an empty directory.
pub open spec fn replay_sealed(sealed: Seq<(u64, Seq<u8>)>, n: int) -> Map<Seq<u8>, KeyDirEntry>
    decreases n,
{
    if n <= 0 {
        Map::empty()
    } else {
        replay(sealed[n - 1].1, 0, sealed[n - 1].0, replay_sealed(sealed, n - 1))
    }
}

/// The database that recovery builds from the segments of a directory: the
/// sealed segments are replayed in ascending order of their ids, the active
/// segment last, and the active segment is cut after its last whole record.
pub open spec fn recovered(writer_id: u64, active: Seq<u8>, sealed: Seq<(u64, Seq<u8>)>) -> Image {
    Image {
        writer_id,
        active: active.subrange(0, valid_end(active, 0)),
        sealed,
        keydir: replay(active, 0, writer_id, replay_sealed(sealed, sealed.len() as int)),
    }
}

/// Putting a segment with a new id at its rank keeps the sequence ascending,
/// adds that id with its bytes, and keeps every other segment.
pub proof fn lemma_insert(sealed: Seq<(u64, Seq<u8>)>, id: u64, data: Seq<u8>)
    requires
        ascending(sealed),
        !has_sealed(sealed, id),
    ensures
        0 <= rank(sealed, id) <= sealed.len(),
        ascending(sealed.insert(rank(sealed, id), (id, data))),
        has_sealed(sealed.insert(rank(sealed, id), (id, data)), id),
        sealed_data(sealed.insert(rank(sealed, id), (id, data)), id) == data,
        forall|x: u64| #[trigger]
            has_sealed(sealed, x) ==> has_sealed(sealed.insert(rank(sealed, id), (id, data)), x)
                && sealed_data(sealed.insert(rank(sealed, id), (id, data)), x) == sealed_data(
                sealed,
                x,
            ),
        forall|x: u64| #[trigger]
            has_sealed(sealed.insert(rank(sealed, id), (id, data)), x) ==> x == id || has_sealed(
                sealed,
                x,
            ),
{
    let r = rank(sealed, id);
    let after = sealed.insert(r, (id, data));
    lemma_rank(sealed, id);
    assert forall|j: int| r <= j < sealed.len() implies sealed[j].0 > id by {
        assert(sealed[j].0 == sealed[j].0);
    }
    assert(ascending(after));
    assert(after[r] == (id, data));
    lemma_sealed_at(after, r);
    assert forall|x: u64| #[trigger] has_sealed(sealed, x) implies has_sealed(after, x)
        && sealed_data(after, x) == sealed_data(sealed, x) by {
        let i = sealed_index(sealed, x);
        let i1 = if i < r { i } else { i + 1 };
        assert(after[i1] == sealed[i]);
        lemma_sealed_at(after, i1);
    }
    assert forall|x: u64| #[trigger] has_sealed(after, x) implies x == id || has_sealed(
        sealed,
        x,
    ) by {
        let j = sealed_index(after, x);
        if j < r {
            assert(after[j] == sealed[j]);
        } else if j > r {
            assert(after[j] == sealed[j - 1]);
        }
    }
}

/// Two ascending sequences that hold the same ids with the same bytes are
/// equal.
pub proof fn lemma_same_ascending(a: Seq<(u64, Seq<u8>)>, b: Seq<(u64, Seq<u8>)>)
    requires
        ascending(a),
        ascending(b),
        forall|x: u64| #[trigger]
            has_sealed(a, x) ==> has_sealed(b, x) && sealed_data(b, x) == sealed_data(a, x),
        forall|x: u64| #[trigger] has_sealed(b, x) ==> has_sealed(a, x),
    ensures
        a == b,
    decreases a.len(),
{
    if a.len() == 0 {
        if b.len() > 0 {
            assert(b[0].0 == b[0].0);
            assert(has_sealed(b, b[0].0));
            assert(has_sealed(a, b[0].0));
        }
        assert(a =~= b);
    } else {
        let na = a.len() - 1;
        let top = a[na];
        lemma_sealed_at(a, na);
        assert(has_sealed(b, top.0));
        let nb = b.len() - 1;
        lemma_sealed_at(b, nb);
        assert(has_sealed(a, b[nb].0));
        let i = sealed_index(a, b[nb].0);
        let j = sealed_index(b, top.0);
        assert(a[i].0 == b[nb].0 && b[j].0 == top.0);
        assert(top.0 == b[nb].0);
        assert(sealed_data(b, top.0) == sealed_data(a, top.0));
        assert(top == b[nb]);
        let shorter_a = a.drop_last();
        let shorter_b = b.drop_last();
        assert(ascending(shorter_a)) by {
            assert forall|p: int, q: int| 0 <= p < q < shorter_a.len() implies shorter_a[p].0
                < shorter_a[q].0 by {
                assert(shorter_a[p] == a[p] && shorter_a[q] == a[q]);
            }
        }
        assert(ascending(shorter_b)) by {
            assert forall|p: int, q: int| 0 <= p < q < shorter_b.len() implies shorter_b[p].0
                < shorter_b[q].0 by {
                assert(shorter_b[p] == b[p] && shorter_b[q] == b[q]);
            }
        }
        assert forall|x: u64| #[trigger] has_sealed(shorter_a, x) implies has_sealed(shorter_b, x)
            && sealed_data(shorter_b, x) == sealed_data(shorter_a, x) by {
            let p = sealed_index(shorter_a, x);
            assert(shorter_a[p] == a[p]);
            lemma_sealed_at(a, p);
            lemma_sealed_at(shorter_a, p);
            assert(has_sealed(b, x));
            let q = sealed_index(b, x);
            assert(b[q].0 == x);
            assert(q != nb);
            assert(shorter_b[q] == b[q]);
            lemma_sealed_at(shorter_b, q);
        }
        assert forall|x: u64| #[trigger] has_sealed(shorter_b, x) implies has_sealed(
            shorter_a,
            x,
        ) by {
            let q = sealed_index(shorter_b, x);
            assert(shorter_b[q] == b[q]);
            lemma_sealed_at(b, q);
            assert(has_sealed(a, x));
            let p = sealed_index(a, x);
            assert(a[p].0 == x);
            assert(p != na);
            assert(shorter_a[p] == a[p]);
        }
        lemma_same_ascending(shorter_a, shorter_b);
        assert(a =~= shorter_a.push(top));
        assert(b =~= shorter_b.push(top));
    }
}

/// Whether a put of this key and value at this time succeeds.
pub open spec fn put_accepts(img: Image, now: u64, key: Seq<u8>, value: Seq<u8>) -> bool {
    &&& key.len() > 0
    &&& value.len() > 0
    &&& fits(key, value)
    &&& 20 + key.len() + value.len() <= usize::MAX
    &&& img.rotation_due() ==> img.fresh_id(now) <= u64::MAX
}

/// Whether `e` is the error of a put that fails: the first of the
/// conditions, in this order, that holds.
pub open spec fn put_error(img: Image, now: u64, key: Seq<u8>, value: Seq<u8>, e: Error) -> bool {
    if key.len() == 0 {
        e is InvalidEmptyKey
    } else if value.len() == 0 {
        e is InvalidEmptyValue
    } else if !fits(key, value) || 20 + key.len() + value.len() > usize::MAX {
        e is RecordTooLarge
    } else {
        e is TimestampOverflow
    }
}

/// Whether a delete of this key succeeds.
pub open spec fn remove_accepts(key: Seq<u8>) -> bool {
    0 < key.len() <= u32::MAX && 20 + key.len() <= usize::MAX
}

} // verus!
