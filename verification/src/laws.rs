//! What holds of every database: a get after a put, after an overwrite and
//! after a delete; that of several mutations the last one on a key decides;
//! and that a database reads the same after it is closed and opened again.

use vstd::prelude::*;
use crate::codec::{encoded, fits};
use crate::image::{
    has_sealed, lemma_insert, lemma_remove, lemma_rotated, lemma_with_put, put_accepts, recovered,
    remove_accepts, sealed_data, Image,
};
use crate::recovery::{
    lemma_put_ordered, lemma_put_recoverable, lemma_remove_recoverable, lemma_reopen, ordered,
    recoverable,
};

verus! {

/// A put or a delete, with the time at which it is made.
pub enum Mutation {
    /// Sets the key to the value
    Put { key: Seq<u8>, value: Seq<u8>, now: u64 },
    /// Takes the key out
    Remove { key: Seq<u8>, now: u64 },
}

impl Mutation {
    /// The key that the mutation is about.
    pub open spec fn key(self) -> Seq<u8> {
        match self {
            Mutation::Put { key, .. } => key,
            Mutation::Remove { key, .. } => key,
        }
    }

    /// Whether the database accepts the mutation.
    pub open spec fn accepted(self, img: Image) -> bool {
        match self {
            Mutation::Put { key, value, now } => put_accepts(img, now, key, value),
            Mutation::Remove { key, .. } => remove_accepts(key),
        }
    }

    /// The database after the mutation; one that is not accepted changes
    /// nothing.
    pub open spec fn apply(self, img: Image) -> Image {
        if !self.accepted(img) {
            img
        } else {
            match self {
                Mutation::Put { key, value, now } => img.put(now, key, value),
                Mutation::Remove { key, now } => img.remove(now, key),
            }
        }
    }
}

/// The database after a sequence of mutations, made in order.
pub open spec fn run(img: Image, ops: Seq<Mutation>) -> Image
    decreases ops.len(),
{
    if ops.len() == 0 {
        img
    } else {
        ops.last().apply(run(img, ops.drop_last()))
    }
}

/// A put keeps the database well formed and sets the key to the value,
/// leaving every other key as it was, with or without rotation.
pub proof fn lemma_put(img: Image, now: u64, key: Seq<u8>, value: Seq<u8>)
    requires
        img.wf(),
        put_accepts(img, now, key, value),
    ensures
        img.put(now, key, value).wf(),
        img.put(now, key, value).view() == img.view().insert(key, value),
{
    if img.rotation_due() {
        lemma_rotated(img, now);
        lemma_with_put(img.rotated(now), img.stamp(now, key), key, value);
    } else {
        lemma_with_put(img, img.stamp(now, key), key, value);
    }
}

/// A put on a database whose active segment is above the limit rotates it
/// first: the old active segment is sealed under its id with its bytes, the
/// new active segment has a larger id and holds the new record alone, and
/// every key reads as the put leaves it.
pub proof fn lemma_put_rotates(img: Image, now: u64, key: Seq<u8>, value: Seq<u8>)
    requires
        img.wf(),
        put_accepts(img, now, key, value),
        img.rotation_due(),
    ensures
        img.put(now, key, value).sealed.len() == img.sealed.len() + 1,
        has_sealed(img.put(now, key, value).sealed, img.writer_id),
        sealed_data(img.put(now, key, value).sealed, img.writer_id) == img.active,
        img.put(now, key, value).writer_id > img.writer_id,
        img.put(now, key, value).active == encoded(img.stamp(now, key), key, value),
        img.put(now, key, value).view() == img.view().insert(key, value),
{
    lemma_insert(img.sealed, img.writer_id, img.active);
    lemma_put(img, now, key, value);
    assert(img.put(now, key, value).active =~= encoded(img.stamp(now, key), key, value));
}

/// After a put, a get of the key gives the value.
pub proof fn lemma_put_get(img: Image, now: u64, key: Seq<u8>, value: Seq<u8>)
    requires
        img.wf(),
        put_accepts(img, now, key, value),
    ensures
        img.put(now, key, value).view().contains_key(key),
        img.put(now, key, value).view()[key] == value,
{
    lemma_put(img, now, key, value);
}

/// After two puts of one key, a get gives the second value.
pub proof fn lemma_put_put_get(
    img: Image,
    first: u64,
    second: u64,
    key: Seq<u8>,
    v1: Seq<u8>,
    v2: Seq<u8>,
)
    requires
        img.wf(),
        put_accepts(img, first, key, v1),
        put_accepts(img.put(first, key, v1), second, key, v2),
    ensures
        img.put(first, key, v1).put(second, key, v2).view().contains_key(key),
        img.put(first, key, v1).put(second, key, v2).view()[key] == v2,
{
    lemma_put(img, first, key, v1);
    lemma_put(img.put(first, key, v1), second, key, v2);
}

/// After a put and a delete of one key, the key is not found.
pub proof fn lemma_put_remove_get(img: Image, first: u64, second: u64, key: Seq<u8>, value: Seq<u8>)
    requires
        img.wf(),
        put_accepts(img, first, key, value),
    ensures
        !img.put(first, key, value).remove(second, key).view().contains_key(key),
{
    lemma_put(img, first, key, value);
    lemma_remove(img.put(first, key, value), second, key);
}

/// One mutation keeps the database well formed.
pub proof fn lemma_apply(img: Image, op: Mutation)
    requires
        img.wf(),
    ensures
        op.apply(img).wf(),
        forall|k: Seq<u8>|
            k != op.key() ==> (#[trigger] op.apply(img).view().contains_key(k)
                == img.view().contains_key(k)) && (img.view().contains_key(k) ==> op.apply(
                img,
            ).view()[k] == img.view()[k]),
        op.accepted(img) ==> match op {
            Mutation::Put { key, value, .. } => op.apply(img).view().contains_key(key) && op.apply(
                img,
            ).view()[key] == value,
            Mutation::Remove { key, .. } => !op.apply(img).view().contains_key(key),
        },
{
    if op.accepted(img) {
        match op {
            Mutation::Put { key, value, now } => {
                lemma_put(img, now, key, value);
            },
            Mutation::Remove { key, now } => {
                lemma_remove(img, now, key);
            },
        }
    }
}

/// A sequence of mutations keeps the database well formed.
pub proof fn lemma_run_wf(img: Image, ops: Seq<Mutation>)
    requires
        img.wf(),
    ensures
        run(img, ops).wf(),
    decreases ops.len(),
{
    if ops.len() > 0 {
        lemma_run_wf(img, ops.drop_last());
        lemma_apply(run(img, ops.drop_last()), ops.last());
    }
}

/// Of a sequence of mutations, the last one on a key decides what a get of
/// that key gives: the value of a put, or nothing after a delete.
pub proof fn lemma_last_wins(img: Image, ops: Seq<Mutation>, i: int)
    requires
        img.wf(),
        0 <= i < ops.len(),
        ops[i].accepted(run(img, ops.subrange(0, i))),
        forall|j: int| i < j < ops.len() ==> (#[trigger] ops[j]).key() != ops[i].key(),
    ensures
        match ops[i] {
            Mutation::Put { key, value, .. } => run(img, ops).view().contains_key(key) && run(
                img,
                ops,
            ).view()[key] == value,
            Mutation::Remove { key, .. } => !run(img, ops).view().contains_key(key),
        },
    decreases ops.len(),
{
    let before = ops.drop_last();
    lemma_run_wf(img, before);
    lemma_apply(run(img, before), ops.last());
    if i == ops.len() - 1 {
        assert(ops.subrange(0, i) =~= before);
    } else {
        assert(before.subrange(0, i) =~= ops.subrange(0, i));
        assert(before[i] == ops[i]);
        assert forall|j: int| i < j < before.len() implies (#[trigger] before[j]).key()
            != before[i].key() by {
            assert(before[j] == ops[j]);
        }
        lemma_last_wins(img, before, i);
        assert(ops.last() == ops[ops.len() - 1]);
    }
}

/// A key that no mutation of a sequence is about reads as before.
pub proof fn lemma_untouched(img: Image, ops: Seq<Mutation>, key: Seq<u8>)
    requires
        img.wf(),
        forall|j: int| 0 <= j < ops.len() ==> (#[trigger] ops[j]).key() != key,
    ensures
        run(img, ops).view().contains_key(key) == img.view().contains_key(key),
        img.view().contains_key(key) ==> run(img, ops).view()[key] == img.view()[key],
    decreases ops.len(),
{
    if ops.len() > 0 {
        let before = ops.drop_last();
        assert forall|j: int| 0 <= j < before.len() implies (#[trigger] before[j]).key() != key by {
            assert(before[j] == ops[j]);
        }
        lemma_untouched(img, before, key);
        lemma_run_wf(img, before);
        lemma_apply(run(img, before), ops.last());
        assert(ops.last() == ops[ops.len() - 1]);
    }
}

/// A recoverable database whose segments are in order stays so under every
/// sequence of mutations, so that closing it and opening it again gives the
/// same database, in which every key reads as before.
pub proof fn lemma_run_reopen(img: Image, ops: Seq<Mutation>)
    requires
        recoverable(img),
        ordered(img),
    ensures
        recoverable(run(img, ops)),
        ordered(run(img, ops)),
        recovered(run(img, ops).writer_id, run(img, ops).active, run(img, ops).sealed) == run(
            img,
            ops,
        ),
        recovered(run(img, ops).writer_id, run(img, ops).active, run(img, ops).sealed).view()
            == run(img, ops).view(),
    decreases ops.len(),
{
    if ops.len() > 0 {
        let before = run(img, ops.drop_last());
        lemma_run_reopen(img, ops.drop_last());
        let op = ops.last();
        if op.accepted(before) {
            match op {
                Mutation::Put { key, value, now } => {
                    if !before.rotation_due() {
                        lemma_active_bound(before);
                    }
                    lemma_put_recoverable(before, now, key, value);
                    lemma_put_ordered(before, now, key, value);
                },
                Mutation::Remove { key, now } => {
                    lemma_remove_recoverable(before, now, key);
                },
            }
        }
    }
    lemma_reopen(run(img, ops));
}

/// An active segment that is not due for rotation has room for a record.
proof fn lemma_active_bound(img: Image)
    requires
        !img.rotation_due(),
    ensures
        forall|key: Seq<u8>, value: Seq<u8>| #[trigger]
            fits(key, value) ==> img.active.len() + 20 + key.len() + value.len() <= u64::MAX,
{
}

} // verus!
