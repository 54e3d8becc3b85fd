//! The storage engine: put, get, delete, rotation of the active segment,
//! recovery of the key directory from the segments, and compaction.
//!
//! The engine holds the bytes of its segments. A caller that keeps them in
//! files hands their contents to `open` and writes back what changed.

use vstd::prelude::*;
use vstd::slice::*;
use crate::clock::timestamp_as_u64;
use crate::codec::{encode_record, fits, lemma_record_round_trip};
use crate::compaction::{compaction_of, lemma_compacted_recoverable};
use crate::image::{
    ascending, has_sealed, lemma_insert, lemma_remove, lemma_rotated, lemma_same_ascending,
    lemma_sealed_at, lemma_with_put, put_accepts, put_error, rank, recovered, remove_accepts,
    replay_sealed, sealed_data, sealed_index, value_of, Image,
};
use crate::keydir::{bytes_eq, precedes, KeyDir, KeyDirEntry};
use crate::log::{entry_in, lemma_longer, rebuild_keydir};
use crate::paths::{
    active_log_file_name, active_log_name, classified, classify, lemma_names_classify,
    lock_file_name, lock_name, log_file_name, log_name, Classified, LogFile,
};
use crate::size::{
    bounded, has_dead_record, keys_in, lemma_compaction_shrinks, lemma_compaction_size, live_at,
    live_sealed, scanned, sealed_bytes, total_bytes,
};
use crate::recovery::{
    lemma_fresh_recoverable, lemma_put_ordered, lemma_put_recoverable,
    lemma_recovered_recoverable, lemma_remove_recoverable, lemma_reopen, lemma_rotated_ordered,
    lemma_rotated_recoverable, ordered, recoverable,
};
pub use crate::error::{Error, IoErrorKind};
pub use crate::image::MAX_ACTIVE_FILE_SIZE;

verus! {

/// A sealed segment: an immutable log file.
#[derive(Debug)]
pub struct Segment {
    /// Id of the segment
    pub id: u64,
    /// Bytes of the segment
    pub data: Vec<u8>,
}

/// The ids and bytes of a vector of segments.
pub open spec fn segments_view(sealed: Seq<Segment>) -> Seq<(u64, Seq<u8>)> {
    Seq::new(sealed.len(), |i: int| (sealed[i].id, sealed[i].data@))
}

/// A Bitcask-style key-value store: an append-only log of records in
/// segments, and an in-memory key directory that maps every live key to the
/// place of its latest value.
#[derive(Debug)]
pub struct Bitask {
    /// Id of the active segment
    writer_id: u64,
    /// Bytes of the active segment
    active: Vec<u8>,
    /// The sealed segments, ascending by id
    sealed: Vec<Segment>,
    /// In-memory index mapping keys to their latest value locations
    keydir: KeyDir,
    /// How many times the sealed segments were merged, counted round
    merges: u64,
}

impl View for Bitask {
    type V = Map<Seq<u8>, Seq<u8>>;

    /// The contents of the database: every live key with its value.
    open spec fn view(&self) -> Map<Seq<u8>, Seq<u8>> {
        self.image().view()
    }
}

impl Bitask {
    /// The database as a mathematical value.
    pub closed spec fn image(&self) -> Image {
        Image {
            writer_id: self.writer_id,
            active: self.active@,
            sealed: segments_view(self.sealed@),
            keydir: self.keydir@,
        }
    }

    /// The invariant of the engine: the image is well formed, the sealed
    /// segments have ids below that of the active segment, and the key
    /// directory is what recovery would build from the segments.
    pub closed spec fn wf(&self) -> bool {
        &&& self.keydir.wf()
        &&& recoverable(self.image())
        &&& ordered(self.image())
    }

    /// How many times this handle has merged its sealed segments, counted
    /// round: after the largest count comes zero. A caller that keeps the
    /// segments in files sees by it that a sealed file is out of date.
    pub closed spec fn merges(&self) -> u64 {
        self.merges
    }

    /// The live keys, each once, in the order in which compaction writes
    /// their records: ascending, byte by byte.
    pub closed spec fn key_order(&self) -> Seq<Seq<u8>> {
        Seq::new(self.keydir.keys@.len(), |i: int| self.keydir.keys@[i]@)
    }

    /// The key order holds every live key once, in ascending lexicographic
    /// order, and nothing else.
    pub proof fn lemma_key_order(&self)
        requires
            self.wf(),
        ensures
            forall|i: int, j: int|
                0 <= i < j < self.key_order().len() ==> self.key_order()[i] != self.key_order()[j],
            forall|i: int, j: int|
                0 <= i < j < self.key_order().len() ==> precedes(
                    self.key_order()[i],
                    self.key_order()[j],
                ),
            forall|k: Seq<u8>|
                self.image().keydir.contains_key(k) <==> exists|i: int|
                    0 <= i < self.key_order().len() && #[trigger] self.key_order()[i] == k,
    {
        self.keydir.lemma_distinct();
        assert forall|k: Seq<u8>| self.image().keydir.contains_key(k) implies exists|i: int|
            0 <= i < self.key_order().len() && #[trigger] self.key_order()[i] == k by {
            let i = self.keydir.index_of(k);
            assert(self.key_order()[i] == k);
        }
        assert forall|k: Seq<u8>|
            (exists|i: int|
                0 <= i < self.key_order().len() && #[trigger] self.key_order()[i]
                    == k) implies self.image().keydir.contains_key(k) by {
            let i = choose|i: int| 0 <= i < self.key_order().len() && #[trigger] self.key_order()[i] == k;
            assert(self.keydir.keys@[i]@ == k);
        }
    }

    /// The image of a well-formed engine is well formed, in order and
    /// recoverable, and no segment is longer than a 64-bit length.
    pub proof fn lemma_wf(&self)
        requires
            self.wf(),
        ensures
            self.image().wf(),
            ordered(self.image()),
            recoverable(self.image()),
            bounded(self.image().sealed),
            self.image().active.len() <= u64::MAX,
    {
        assert forall|j: int| 0 <= j < self.image().sealed.len() implies (
        #[trigger] self.image().sealed[j]).1.len() <= u64::MAX by {
            assert(self.image().sealed[j].1 == self.sealed@[j].data@);
            assert(self.sealed@[j].data.len() == self.sealed@[j].data@.len());
        }
        assert(self.active.len() == self.image().active.len());
    }

    /// Creates a new database whose active segment has the id `timestamp`.
    pub fn open_new(timestamp: u64) -> (db: Self)
        ensures
            db.wf(),
            db.image() == Image::fresh(timestamp),
            db@ == Map::<Seq<u8>, Seq<u8>>::empty(),
            db.merges() == 0,
            recoverable(db.image()),
            ordered(db.image()),
    {
        proof {
            lemma_fresh_recoverable(timestamp);
        }
        let db = Bitask {
            writer_id: timestamp,
            active: Vec::new(),
            sealed: Vec::new(),
            keydir: KeyDir::new(),
            merges: 0,
        };
        assert(db.image().sealed =~= Seq::empty());
        assert(db.image().view() =~= Map::<Seq<u8>, Seq<u8>>::empty());
        db
    }

    /// Opens a database from the entries of its directory.
    ///
    /// Every entry but `db.lock` must be a segment, exactly one of them active,
    /// no two with the same id, and the active one with the largest id. The
    /// sealed segments are replayed in
    /// ascending order of their ids, then the active segment; a scan stops at
    /// the first place where no whole record with a matching checksum lies, and
    /// the active segment is cut there.
    ///
    /// Fails with `TimestampParse` or `InvalidLogFileName` for an entry that is
    /// no segment, with `InvalidLogFileName` for a second active segment, an id
    /// that occurs twice or a sealed segment with an id above the active one's,
    /// and with `ActiveFileNotFound` when no entry is an active segment.
    pub fn open_existing(entries: Vec<DirEntry>) -> (r: Result<Self, Error>)
        ensures
            r is Ok <==> listing_ok(entries@),
            match r {
                Ok(db) => {
                    &&& db.wf()
                    &&& recovers(entries@, db.image())
                    &&& recoverable(db.image())
                    &&& ordered(db.image())
                    &&& db.merges() == 0
                },
                Err(e) => open_error(entries@, e),
            },
    {
        let lock = lock_file_name();
        let mut active: Option<usize> = None;
        let mut writer_id: u64 = 0;
        let mut sealed: Vec<Segment> = Vec::new();
        let mut i: usize = 0;
        assert(segments_view(sealed@) =~= Seq::empty());
        while i < entries.len()
            invariant
                i <= entries@.len(),
                lock@ == lock_name(),
                forall|j: int| 0 <= j < i ==> !#[trigger] unreadable(entries@[j]),
                forall|j: int| 0 <= j < i ==> !#[trigger] bad(entries@, j),
                lists_sealed(entries@, i as int, segments_view(sealed@)),
                match active {
                    Some(a) => a < i && active_id(entries@[a as int]) == Some(writer_id)
                        && !has_sealed(segments_view(sealed@), writer_id) && forall|x: u64| #[trigger]
                        has_sealed(segments_view(sealed@), x) ==> x < writer_id,
                    None => true,
                },
                forall|j: int|
                    0 <= j < i && (#[trigger] active_id(entries@[j])) is Some ==> active == Some(
                        j as usize,
                    ),
                forall|j: int, k: int|
                    0 <= j < k < i && (#[trigger] log_id(entries@[j])) is Some && (#[trigger] log_id(
                        entries@[k],
                    )) is Some ==> log_id(entries@[j]) != log_id(entries@[k]),
            decreases entries@.len() - i,
        {
            let entry = &entries[i];
            if bytes_eq(entry.name.as_slice(), lock.as_slice()) {
                i += 1;
                continue ;
            }
            let file = match classify(entry.name.as_slice()) {
                Ok(file) => file,
                Err(e) => {
                    assert(unreadable(entries@[i as int]));
                    assert(first_bad(entries@, i as int));
                    return Err(e);
                },
            };
            let ghost listed = segments_view(sealed@);
            let found = find_segment(&sealed, file_id(file));
            let taken = found.is_some() || (active.is_some() && (writer_id == file_id(file)
                || is_active(file)));
            if taken {
                proof {
                    let id = file_id(file);
                    assert(log_id(entries@[i as int]) == Some(id));
                    if found is Some {
                        assert(listed[found->Some_0 as int].0 == id);
                    }
                    if has_sealed(listed, id) {
                        let j = choose|j: int|
                            0 <= j < i && #[trigger] sealed_id(entries@[j]) == Some(id);
                        assert(log_id(entries@[j]) == Some(id));
                    } else {
                        let a = active->Some_0 as int;
                        assert(log_id(entries@[a]) == Some(writer_id));
                    }
                    assert(clashes(entries@, i as int));
                    assert(first_bad(entries@, i as int));
                }
                return Err(Error::InvalidLogFileName { filename: slice_to_vec(entry.name.as_slice()) });
            }
            let late = if is_active(file) {
                sealed.len() > 0 && sealed[sealed.len() - 1].id > file_id(file)
            } else {
                active.is_some() && file_id(file) > writer_id
            };
            if late {
                proof {
                    let id = file_id(file);
                    if file is Active {
                        let top = listed[sealed@.len() - 1].0;
                        assert(has_sealed(listed, top));
                        let j = choose|j: int|
                            0 <= j < i && #[trigger] sealed_id(entries@[j]) == Some(top);
                        assert(log_id(entries@[j]) == Some(top));
                    } else {
                        let a = active->Some_0 as int;
                        assert(log_id(entries@[a]) == Some(writer_id));
                    }
                    assert(misplaced(entries@, i as int));
                    assert(first_bad(entries@, i as int));
                }
                return Err(Error::InvalidLogFileName { filename: slice_to_vec(entry.name.as_slice()) });
            }
            proof {
                let id = file_id(file);
                if file is Active {
                    assert forall|x: u64| #[trigger] has_sealed(listed, x) implies x < id by {
                        let k = sealed_index(listed, x);
                        let top = sealed@.len() - 1;
                        assert(listed[k].0 == x);
                        if k < top {
                            assert(listed[k].0 < listed[top].0);
                        }
                        assert(listed[top].0 != id) by {
                            assert(listed[top].0 == listed[top].0);
                        }
                    }
                }
                assert(!misplaced(entries@, i as int)) by {
                    if misplaced(entries@, i as int) {
                        let j = choose|j: int|
                            0 <= j < i && (#[trigger] log_id(entries@[j])) is Some && ((active_id(
                                entries@[j],
                            ) is Some && sealed_id(entries@[i as int]) is Some && sealed_id(
                                entries@[i as int],
                            )->Some_0 > active_id(entries@[j])->Some_0) || (sealed_id(entries@[j])
                                is Some && active_id(entries@[i as int]) is Some && sealed_id(
                                entries@[j],
                            )->Some_0 > active_id(entries@[i as int])->Some_0));
                        if sealed_id(entries@[j]) is Some {
                            assert(has_sealed(listed, sealed_id(entries@[j])->Some_0));
                        }
                    }
                }
            }
            match file {
                LogFile::Active(id) => {
                    active = Some(i);
                    writer_id = id;
                },
                LogFile::Sealed(id) => {
                    let data = slice_to_vec(entry.data.as_slice());
                    proof {
                        lemma_insert(listed, id, data@);
                    }
                    insert_segment(&mut sealed, Segment { id, data });
                    proof {
                        let after = segments_view(sealed@);
                        assert forall|x: u64| #[trigger] has_sealed(after, x) implies exists|j: int|
                            0 <= j < i + 1 && #[trigger] sealed_id(entries@[j]) == Some(x) by {
                            if x == id {
                                assert(sealed_id(entries@[i as int]) == Some(x));
                            } else {
                                assert(has_sealed(listed, x));
                                let j = choose|j: int|
                                    0 <= j < i && #[trigger] sealed_id(entries@[j]) == Some(x);
                                assert(sealed_id(entries@[j]) == Some(x));
                            }
                        }
                        assert forall|j: int|
                            0 <= j < i + 1 && (#[trigger] sealed_id(entries@[j]))
                                is Some implies has_sealed(after, sealed_id(entries@[j])->Some_0)
                            && sealed_data(after, sealed_id(entries@[j])->Some_0)
                            == entries@[j].data@ by {
                            if j < i {
                                assert(has_sealed(listed, sealed_id(entries@[j])->Some_0));
                            }
                        }
                    }
                },
            }
            proof {
                let id = file_id(file);
                assert(log_id(entries@[i as int]) == Some(id));
                assert forall|j: int|
                    0 <= j < i && (#[trigger] log_id(entries@[j])) is Some implies log_id(
                    entries@[j],
                ) != Some(id) by {
                    if active_id(entries@[j]) is Some {
                    } else {
                        assert(sealed_id(entries@[j]) is Some);
                        assert(has_sealed(listed, sealed_id(entries@[j])->Some_0));
                    }
                }
                assert(!clashes(entries@, i as int));
                assert(!bad(entries@, i as int));
            }
            i += 1;
        }
        let place = match active {
            Some(place) => place,
            None => { return Err(Error::ActiveFileNotFound); },
        };
        let ghost listed = segments_view(sealed@);
        let mut keydir = KeyDir::new();
        let mut n: usize = 0;
        while n < sealed.len()
            invariant
                n <= sealed@.len(),
                listed == segments_view(sealed@),
                keydir.wf(),
                keydir@ == replay_sealed(listed, n as int),
                forall|k: Seq<u8>| #[trigger]
                    keydir@.contains_key(k) ==> placed(listed, n as int, k, keydir@[k]),
            decreases sealed@.len() - n,
        {
            let ghost before = keydir@;
            let data = sealed[n].data.as_slice();
            let end = rebuild_keydir(data, sealed[n].id, &mut keydir);
            proof {
                assert(listed[n as int] == (sealed@[n as int].id, sealed@[n as int].data@));
                assert forall|k: Seq<u8>| #[trigger] keydir@.contains_key(k) implies placed(
                    listed,
                    n + 1,
                    k,
                    keydir@[k],
                ) by {
                    if before.contains_key(k) && keydir@[k] == before[k] {
                        let j = choose|j: int|
                            0 <= j < n && (#[trigger] listed[j]).0 == before[k].file_id && entry_in(
                                listed[j].1,
                                k,
                                before[k],
                            );
                        assert(listed[j].0 == keydir@[k].file_id);
                    } else {
                        lemma_longer(
                            data@.subrange(0, end as int),
                            data@.subrange(end as int, data@.len() as int),
                            k,
                            keydir@[k],
                        );
                        assert(data@.subrange(0, end as int) + data@.subrange(
                            end as int,
                            data@.len() as int,
                        ) =~= data@);
                        assert(listed[n as int].0 == keydir@[k].file_id);
                    }
                }
            }
            n += 1;
        }
        let ghost sealed_keys = keydir@;
        let mut data = slice_to_vec(entries[place].data.as_slice());
        let end = rebuild_keydir(data.as_slice(), writer_id, &mut keydir);
        data.truncate(end);
        let db = Bitask { writer_id, active: data, sealed, keydir, merges: 0 };
        proof {
            let img = db.image();
            assert(img.sealed == listed);
            assert(img.active =~= entries@[place as int].data@.subrange(0, end as int));
            assert(img == recovered(writer_id, entries@[place as int].data@, listed));
            lemma_recovered_recoverable(writer_id, entries@[place as int].data@, listed);
            assert forall|k: Seq<u8>| #[trigger] img.keydir.contains_key(k) implies img.has_segment(
                img.keydir[k].file_id,
            ) && entry_in(img.data_of(img.keydir[k].file_id), k, img.keydir[k]) by {
                if sealed_keys.contains_key(k) && img.keydir[k] == sealed_keys[k] {
                    let j = choose|j: int|
                        0 <= j < listed.len() && (#[trigger] listed[j]).0
                            == sealed_keys[k].file_id && entry_in(listed[j].1, k, sealed_keys[k]);
                    lemma_sealed_at(listed, j);
                }
            }
            assert(active_id(entries@[place as int]) == Some(writer_id));
            assert(ordered(img)) by {
                assert forall|i: int| 0 <= i < img.sealed.len() implies (#[trigger] img.sealed[i]).0
                    < img.writer_id by {
                    assert(has_sealed(listed, listed[i].0));
                }
            }
            assert(listing_ok(entries@)) by {
                assert forall|j: int, k: int|
                    0 <= j < k < entries@.len() && (#[trigger] log_id(entries@[j])) is Some && (
                    #[trigger] log_id(entries@[k])) is Some implies log_id(entries@[j]) != log_id(
                    entries@[k],
                ) && !(active_id(entries@[j]) is Some && active_id(entries@[k]) is Some) by {}
                assert forall|j: int, k: int|
                    0 <= j < entries@.len() && 0 <= k < entries@.len() && (#[trigger] active_id(
                        entries@[j],
                    )) is Some && (#[trigger] sealed_id(entries@[k])) is Some implies sealed_id(
                    entries@[k],
                )->Some_0 < active_id(entries@[j])->Some_0 by {
                    assert(j == place);
                    assert(has_sealed(listed, sealed_id(entries@[k])->Some_0));
                }
            }
        }
        Ok(db)
    }

    /// Opens a database at time `timestamp`.
    ///
    /// See `open`; this is `open` with the time given by the caller.
    pub fn open_at(lock_acquired: bool, entries: Vec<DirEntry>, timestamp: u64) -> (r: Result<
        Self,
        Error,
    >)
        ensures
            !lock_acquired ==> r is Err && r->Err_0 is WriterLock,
            lock_acquired && only_lock(entries@) ==> r is Ok && r->Ok_0.wf() && r->Ok_0.image()
                == Image::fresh(timestamp) && r->Ok_0@ == Map::<Seq<u8>, Seq<u8>>::empty()
                && r->Ok_0.merges() == 0,
            lock_acquired && !only_lock(entries@) ==> (r is Ok <==> listing_ok(entries@)) && (match r {
                Ok(db) => {
                    &&& db.wf()
                    &&& recovers(entries@, db.image())
                    &&& recoverable(db.image())
                    &&& ordered(db.image())
                    &&& db.merges() == 0
                },
                Err(e) => open_error(entries@, e),
            }),
    {
        if !lock_acquired {
            return Err(Error::WriterLock);
        }
        if is_empty_listing(&entries) {
            Ok(Bitask::open_new(timestamp))
        } else {
            Bitask::open_existing(entries)
        }
    }

    /// Opens a database from the entries of its directory.
    ///
    /// The caller says whether it holds the exclusive lock of the directory;
    /// without it the call fails with `WriterLock`. A directory that holds
    /// nothing but `db.lock` gives a new, empty database whose active segment
    /// has the current time as its id; any other directory is recovered as
    /// `open_existing` says.
    ///
    /// Beyond the errors of `open_existing`, fails with `TimestampError` or
    /// `TimestampOverflow` when the clock cannot be read for a new database.
    pub fn open(lock_acquired: bool, entries: Vec<DirEntry>) -> (r: Result<Self, Error>)
        ensures
            !lock_acquired ==> r is Err && r->Err_0 is WriterLock,
            r is Ok ==> r->Ok_0.wf() && r->Ok_0.merges() == 0,
            lock_acquired && only_lock(entries@) ==> match r {
                Ok(db) => db@ == Map::<Seq<u8>, Seq<u8>>::empty() && exists|now: u64|
                    db.image() == #[trigger] Image::fresh(now),
                Err(e) => e is TimestampError || e is TimestampOverflow,
            },
            lock_acquired && !only_lock(entries@) ==> (r is Ok <==> listing_ok(entries@)) && (match r {
                Ok(db) => {
                    &&& recovers(entries@, db.image())
                    &&& recoverable(db.image())
                    &&& ordered(db.image())
                    &&& db.merges() == 0
                },
                Err(e) => open_error(entries@, e),
            }),
    {
        if !lock_acquired {
            return Err(Error::WriterLock);
        }
        if is_empty_listing(&entries) {
            match timestamp_as_u64() {
                Ok(timestamp) => Ok(Bitask::open_new(timestamp)),
                Err(e) => Err(e),
            }
        } else {
            Bitask::open_existing(entries)
        }
    }

    /// How many times this handle has merged its sealed segments, counted
    /// round.
    pub fn merge_count(&self) -> (n: u64)
        ensures
            n == self.merges(),
    {
        self.merges
    }

    /// The id of the active segment.
    pub fn writer_id(&self) -> (id: u64)
        ensures
            id == self.image().writer_id,
    {
        self.writer_id
    }

    /// The bytes of the active segment.
    pub fn active_data(&self) -> (data: &Vec<u8>)
        ensures
            data@ == self.image().active,
    {
        &self.active
    }

    /// The number of sealed segments.
    pub fn sealed_count(&self) -> (n: usize)
        ensures
            n == self.image().sealed.len(),
    {
        self.sealed.len()
    }

    /// The sealed segment at place `i`, in ascending order of the ids.
    pub fn sealed_segment(&self, i: usize) -> (segment: &Segment)
        requires
            i < self.image().sealed.len(),
        ensures
            (segment.id, segment.data@) == self.image().sealed[i as int],
    {
        &self.sealed[i]
    }

    /// Closes the database and gives its directory: every sealed segment
    /// under its name, in ascending order of the ids, then the active segment
    /// under its name.
    pub fn close(self) -> (entries: Vec<DirEntry>)
        requires
            self.wf(),
        ensures
            entries@.len() == self.image().sealed.len() + 1,
            forall|i: int|
                0 <= i < self.image().sealed.len() ==> (#[trigger] entries@[i]).name@ == log_name(
                    self.image().sealed[i].0,
                ) && entries@[i].data@ == self.image().sealed[i].1,
            entries@.last().name@ == active_log_name(self.image().writer_id),
            entries@.last().data@ == self.image().active,
    {
        let ghost img = self.image();
        let mut entries: Vec<DirEntry> = Vec::new();
        let mut i: usize = 0;
        while i < self.sealed.len()
            invariant
                i <= self.sealed@.len(),
                img == self.image(),
                entries@.len() == i,
                forall|j: int|
                    0 <= j < i ==> (#[trigger] entries@[j]).name@ == log_name(img.sealed[j].0)
                        && entries@[j].data@ == img.sealed[j].1,
            decreases self.sealed@.len() - i,
        {
            let name = log_file_name(self.sealed[i].id);
            let data = slice_to_vec(self.sealed[i].data.as_slice());
            entries.push(DirEntry { name, data });
            i += 1;
        }
        let name = active_log_file_name(self.writer_id);
        entries.push(DirEntry { name, data: self.active });
        entries
    }

    /// Closes the database and opens it again from its directory.
    ///
    /// The call succeeds, and recovery from the segments gives the database
    /// back: the same segments and the same key directory, so that every key
    /// reads as before.
    pub fn reopen(self) -> (r: Result<Self, Error>)
        requires
            self.wf(),
        ensures
            r is Ok,
            r->Ok_0.wf(),
            r->Ok_0.image() == self.image(),
            r->Ok_0@ == self@,
            r->Ok_0.merges() == 0,
    {
        let ghost img = self.image();
        let entries = self.close();
        let ghost last = entries@.len() - 1;
        proof {
            lemma_names_classify(img.writer_id);
            assert(active_id(entries@[last]) == Some(img.writer_id));
            assert forall|i: int| 0 <= i < last implies #[trigger] sealed_id(entries@[i]) == Some(
                img.sealed[i].0,
            ) && active_id(entries@[i]) is None by {
                lemma_names_classify(img.sealed[i].0);
            }
            assert forall|i: int, j: int|
                0 <= i < j < entries@.len() && (#[trigger] log_id(entries@[i])) is Some && (
                #[trigger] log_id(entries@[j])) is Some implies log_id(entries@[i]) != log_id(
                entries@[j],
            ) && !(active_id(entries@[i]) is Some && active_id(entries@[j]) is Some) by {
                assert(sealed_id(entries@[i]) == Some(img.sealed[i].0));
                if j < last {
                    assert(sealed_id(entries@[j]) == Some(img.sealed[j].0));
                } else {
                    assert(img.sealed[i].0 == img.sealed[i].0);
                }
            }
            assert forall|i: int| 0 <= i < entries@.len() implies !#[trigger] unreadable(
                entries@[i],
            ) by {
                if i < last {
                    assert(sealed_id(entries@[i]) == Some(img.sealed[i].0));
                }
            }
            assert forall|i: int, j: int|
                0 <= i < entries@.len() && 0 <= j < entries@.len() && (#[trigger] active_id(
                    entries@[i],
                )) is Some && (#[trigger] sealed_id(entries@[j])) is Some implies sealed_id(
                entries@[j],
            )->Some_0 < active_id(entries@[i])->Some_0 by {
                if i < last {
                    assert(sealed_id(entries@[i]) == Some(img.sealed[i].0));
                }
                if j < last {
                    assert(sealed_id(entries@[j]) == Some(img.sealed[j].0));
                    assert(img.sealed[j].0 < img.writer_id);
                }
            }
            assert(listing_ok(entries@));
        }
        let r = Bitask::open_existing(entries);
        proof {
            let db = r->Ok_0;
            let found = db.image().sealed;
            let a = choose|a: int|
                0 <= a < entries@.len() && #[trigger] active_id(entries@[a]) == Some(
                    db.image().writer_id,
                ) && db.image() == recovered(db.image().writer_id, entries@[a].data@, found);
            assert(recovers(entries@, db.image()));
            if a < last {
                assert(sealed_id(entries@[a]) == Some(img.sealed[a].0));
            }
            assert forall|x: u64| #[trigger] has_sealed(img.sealed, x) implies has_sealed(found, x)
                && sealed_data(found, x) == sealed_data(img.sealed, x) by {
                let i = sealed_index(img.sealed, x);
                lemma_sealed_at(img.sealed, i);
                assert(sealed_id(entries@[i]) == Some(x));
            }
            assert forall|x: u64| #[trigger] has_sealed(found, x) implies has_sealed(
                img.sealed,
                x,
            ) by {
                let j = choose|j: int|
                    0 <= j < entries@.len() && #[trigger] sealed_id(entries@[j]) == Some(x);
                assert(sealed_id(entries@[j]) == Some(img.sealed[j].0));
                assert(img.sealed[j].0 == x);
            }
            lemma_same_ascending(img.sealed, found);
            lemma_reopen(img);
        }
        r
    }

    /// Retrieves the value associated with the given key.
    ///
    /// Fails with `InvalidEmptyKey` for an empty key and with `KeyNotFound` for
    /// a key that is not in the database.
    pub fn ask(&self, key: &[u8]) -> (r: Result<Vec<u8>, Error>)
        requires
            self.wf(),
        ensures
            key@.len() == 0 ==> r is Err && r->Err_0 is InvalidEmptyKey,
            key@.len() > 0 && !self@.contains_key(key@) ==> r is Err && r->Err_0 is KeyNotFound,
            key@.len() > 0 && self@.contains_key(key@) ==> r is Ok && r->Ok_0@ == self@[key@],
    {
        if key.len() == 0 {
            return Err(Error::InvalidEmptyKey);
        }
        let entry = match self.keydir.get(key) {
            Some(e) => e,
            None => { return Err(Error::KeyNotFound); },
        };
        let ghost img = self.image();
        assert(img.keydir.contains_key(key@));
        assert(img.has_segment(entry.file_id));
        let data: &Vec<u8> = if entry.file_id == self.writer_id {
            &self.active
        } else {
            match find_segment(&self.sealed, entry.file_id) {
                Some(i) => {
                    proof {
                        assert(img.sealed[i as int] == (self.sealed@[i as int].id, self.sealed@[i as int].data@));
                        lemma_sealed_at(img.sealed, i as int);
                    }
                    &self.sealed[i].data
                },
                None => { return Err(Error::FileNotFound(entry.file_id)); },
            }
        };
        assert(data@ == img.data_of(entry.file_id));
        assert(entry_in(data@, key@, entry));
        let total: usize = data.len();
        let start: usize = entry.value_position as usize;
        let end: usize = start + entry.value_size as usize;
        let value = slice_to_vec(slice_subrange(data.as_slice(), start, end));
        assert(value@ == value_of(data@, entry));
        Ok(value)
    }

    /// The largest id of a segment.
    fn max_id(&self) -> (id: u64)
        requires
            self.wf(),
        ensures
            id == self.image().max_id(),
    {
        let n = self.sealed.len();
        if n > 0 && self.sealed[n - 1].id > self.writer_id {
            assert(self.image().sealed.last() == (self.sealed@[n - 1].id, self.sealed@[n - 1].data@));
            self.sealed[n - 1].id
        } else {
            if n > 0 {
                assert(self.image().sealed.last() == (self.sealed@[n - 1].id, self.sealed@[n - 1].data@));
            }
            self.writer_id
        }
    }

    /// The id of a segment made at time `now`, if there is one left.
    fn fresh_id(&self, now: u64) -> (id: Option<u64>)
        requires
            self.wf(),
        ensures
            self.image().fresh_id(now) <= u64::MAX ==> id == Some(self.image().fresh_id(now) as u64),
            self.image().fresh_id(now) > u64::MAX ==> id is None,
    {
        let largest = self.max_id();
        if now > largest {
            Some(now)
        } else if largest == u64::MAX {
            None
        } else {
            Some(largest + 1)
        }
    }

    /// Seals the active segment under its id and begins an empty active
    /// segment with a fresh id.
    ///
    /// Fails with `TimestampOverflow`, leaving the database as it was, when no
    /// id above those in use is left.
    pub fn rotate_active_file(&mut self, timestamp: u64) -> (r: Result<(), Error>)
        requires
            old(self).wf(),
        ensures
            final(self).wf(),
            recoverable(final(self).image()),
            ordered(final(self).image()),
            final(self).merges() == old(self).merges(),
            final(self)@ == old(self)@,
            old(self).image().fresh_id(timestamp) <= u64::MAX ==> r is Ok && final(self).image()
                == old(self).image().rotated(timestamp),
            old(self).image().fresh_id(timestamp) > u64::MAX ==> r is Err && r->Err_0
                is TimestampOverflow && final(self).image() == old(self).image(),
    {
        let new_id = match self.fresh_id(timestamp) {
            Some(id) => id,
            None => { return Err(Error::TimestampOverflow); },
        };
        let ghost before = self.image();
        let mut data: Vec<u8> = Vec::new();
        std::mem::swap(&mut data, &mut self.active);
        let segment = Segment { id: self.writer_id, data };
        insert_segment(&mut self.sealed, segment);
        self.writer_id = new_id;
        proof {
            assert(self.image().sealed =~= before.rotated(timestamp).sealed);
            assert(self.image().active =~= before.rotated(timestamp).active);
            lemma_rotated(before, timestamp);
            lemma_rotated_ordered(before, timestamp);
            lemma_rotated_recoverable(before, timestamp);
        }
        Ok(())
    }

    /// Stores a key-value pair at time `timestamp`.
    ///
    /// See `put`; this is `put` with the time given by the caller. The record
    /// is stamped with that time, or with the timestamp of the key's current
    /// record where that is later.
    pub fn put_at(&mut self, key: Vec<u8>, value: Vec<u8>, timestamp: u64) -> (r: Result<
        (),
        Error,
    >)
        requires
            old(self).wf(),
        ensures
            final(self).wf(),
            recoverable(final(self).image()),
            ordered(final(self).image()),
            final(self).merges() == old(self).merges(),
            r is Ok <==> put_accepts(old(self).image(), timestamp, key@, value@),
            r is Ok ==> final(self).image() == old(self).image().put(timestamp, key@, value@)
                && final(self)@ == old(self)@.insert(key@, value@),
            r is Err ==> final(self).image() == old(self).image() && final(self)@ == old(self)@
                && put_error(old(self).image(), timestamp, key@, value@, r->Err_0),
    {
        if key.len() == 0 {
            return Err(Error::InvalidEmptyKey);
        }
        if value.len() == 0 {
            return Err(Error::InvalidEmptyValue);
        }
        let stamp: u64 = match self.keydir.get(key.as_slice()) {
            Some(current) => if current.timestamp > timestamp {
                current.timestamp
            } else {
                timestamp
            },
            None => timestamp,
        };
        let record = match encode_record(stamp, key.as_slice(), value.as_slice()) {
            Ok(bytes) => bytes,
            Err(_) => { return Err(Error::RecordTooLarge); },
        };
        if self.active.len() as u64 > MAX_ACTIVE_FILE_SIZE {
            match self.rotate_active_file(timestamp) {
                Ok(()) => {},
                Err(_) => { return Err(Error::TimestampOverflow); },
            }
        }
        let ghost start = old(self).image();
        let ghost before = self.image();
        let position: u64 = self.active.len() as u64;
        let value_position: u64 = position + 20 + key.len() as u64;
        let entry = KeyDirEntry {
            file_id: self.writer_id,
            value_size: value.len() as u32,
            value_position,
            timestamp: stamp,
        };
        self.active.extend_from_slice(record.as_slice());
        self.keydir.insert(key, entry);
        proof {
            assert(stamp == start.stamp(timestamp, key@));
            assert(self.image().active =~= before.with_put(stamp, key@, value@).active);
            lemma_with_put(before, stamp, key@, value@);
            lemma_put_recoverable(start, timestamp, key@, value@);
            lemma_put_ordered(start, timestamp, key@, value@);
        }
        Ok(())
    }

    /// Stores a key-value pair in the database, stamped with the current time,
    /// or with the timestamp of the key's current record where that is later.
    ///
    /// If the key already exists, it gets the new value. When the active
    /// segment has outgrown four mebibytes it is rotated first.
    ///
    /// Fails, leaving the database as it was, with `InvalidEmptyKey` or
    /// `InvalidEmptyValue` for an empty key or value, with `RecordTooLarge` when
    /// key or value is longer than a 32-bit length, with `TimestampOverflow` when
    /// rotation is due and no segment id is left, and with `TimestampError` or
    /// `TimestampOverflow` when the clock cannot be read.
    pub fn put(&mut self, key: Vec<u8>, value: Vec<u8>) -> (r: Result<(), Error>)
        requires
            old(self).wf(),
        ensures
            final(self).wf(),
            recoverable(final(self).image()),
            ordered(final(self).image()),
            final(self).merges() == old(self).merges(),
            r is Ok ==> final(self)@ == old(self)@.insert(key@, value@) && exists|now: u64|
                put_accepts(old(self).image(), now, key@, value@) && final(self).image()
                    == #[trigger] old(self).image().put(now, key@, value@),
            r is Err ==> final(self).image() == old(self).image() && final(self)@ == old(self)@,
            key@.len() == 0 ==> r is Err && r->Err_0 is InvalidEmptyKey,
            key@.len() > 0 && value@.len() == 0 ==> r is Err && r->Err_0 is InvalidEmptyValue,
            key@.len() > 0 && value@.len() > 0 && r is Err ==> r->Err_0 is TimestampError
                || r->Err_0 is TimestampOverflow || (r->Err_0 is RecordTooLarge && !(fits(
                key@,
                value@,
            ) && 20 + key@.len() + value@.len() <= usize::MAX)),
            !fits(key@, value@) ==> r is Err,
    {
        if key.len() == 0 {
            return Err(Error::InvalidEmptyKey);
        }
        if value.len() == 0 {
            return Err(Error::InvalidEmptyValue);
        }
        match timestamp_as_u64() {
            Ok(timestamp) => self.put_at(key, value, timestamp),
            Err(e) => Err(e),
        }
    }

    /// Removes a key at time `timestamp`.
    ///
    /// See `remove`; this is `remove` with the time given by the caller.
    pub fn remove_at(&mut self, key: Vec<u8>, timestamp: u64) -> (r: Result<(), Error>)
        requires
            old(self).wf(),
        ensures
            final(self).wf(),
            recoverable(final(self).image()),
            ordered(final(self).image()),
            final(self).merges() == old(self).merges(),
            r is Ok <==> remove_accepts(key@),
            key@.len() == 0 ==> r is Err && r->Err_0 is InvalidEmptyKey,
            key@.len() > 0 && !remove_accepts(key@) ==> r is Err && r->Err_0 is RecordTooLarge,
            r is Ok ==> final(self).image() == old(self).image().remove(timestamp, key@)
                && final(self)@ == old(self)@.remove(key@),
            r is Err ==> final(self).image() == old(self).image() && final(self)@ == old(self)@,
    {
        if key.len() == 0 {
            return Err(Error::InvalidEmptyKey);
        }
        let value: Vec<u8> = Vec::new();
        let record = match encode_record(timestamp, key.as_slice(), value.as_slice()) {
            Ok(bytes) => bytes,
            Err(_) => { return Err(Error::RecordTooLarge); },
        };
        let ghost before = self.image();
        self.active.extend_from_slice(record.as_slice());
        self.keydir.remove(key.as_slice());
        proof {
            assert(value@ =~= Seq::<u8>::empty());
            assert(self.image().active =~= before.remove(timestamp, key@).active);
            lemma_remove(before, timestamp, key@);
            lemma_remove_recoverable(before, timestamp, key@);
        }
        Ok(())
    }

    /// Removes a key from the database, stamped with the current time.
    ///
    /// A tombstone is appended whether or not the key is in the database.
    ///
    /// Fails, leaving the database as it was, with `InvalidEmptyKey` for an
    /// empty key, with `RecordTooLarge` when the key is longer than a 32-bit
    /// length, and with `TimestampError` or `TimestampOverflow` when the clock
    /// cannot be read.
    pub fn remove(&mut self, key: Vec<u8>) -> (r: Result<(), Error>)
        requires
            old(self).wf(),
        ensures
            final(self).wf(),
            recoverable(final(self).image()),
            ordered(final(self).image()),
            final(self).merges() == old(self).merges(),
            r is Ok ==> final(self)@ == old(self)@.remove(key@) && exists|now: u64|
                final(self).image() == #[trigger] old(self).image().remove(now, key@),
            r is Err ==> final(self).image() == old(self).image() && final(self)@ == old(self)@,
            key@.len() == 0 ==> r is Err && r->Err_0 is InvalidEmptyKey,
            key@.len() > 0 && r is Err ==> r->Err_0 is TimestampError || r->Err_0
                is TimestampOverflow || (r->Err_0 is RecordTooLarge && !remove_accepts(key@)),
            !remove_accepts(key@) ==> r is Err,
    {
        if key.len() == 0 {
            return Err(Error::InvalidEmptyKey);
        }
        match timestamp_as_u64() {
            Ok(timestamp) => self.remove_at(key, timestamp),
            Err(e) => Err(e),
        }
    }

    /// Compacts the database: the live records of all sealed segments are
    /// written to one sealed segment, the key directory is pointed at them,
    /// and the other sealed segments are dropped. Superseded records and
    /// tombstones are not written again. The active segment and the entries
    /// that point into it stay as they are.
    ///
    /// The merged segment takes the place and the id of the last sealed
    /// segment, so that it is replayed before the active segment and before
    /// every segment made later. The count of merges goes up by one.
    ///
    /// The merged segment is as long as the live records of the sealed
    /// segments, so that the segments together never grow, and shrink where
    /// a sealed segment held a superseded put or a tombstone.
    ///
    /// With fewer than two sealed segments nothing is done. The call always
    /// succeeds.
    pub fn compact(&mut self) -> (r: Result<(), Error>)
        requires
            old(self).wf(),
        ensures
            r is Ok,
            final(self).wf(),
            recoverable(final(self).image()),
            ordered(final(self).image()),
            final(self)@ == old(self)@,
            final(self).key_order() == old(self).key_order(),
            old(self).image().sealed.len() < 2 ==> final(self).image() == old(self).image()
                && final(self).merges() == old(self).merges(),
            old(self).image().sealed.len() >= 2 ==> compacts_to(
                old(self).image(),
                old(self).key_order(),
                final(self).image(),
            ) && final(self).image().sealed[0].1.len() == live_sealed(
                old(self).image().sealed,
                old(self).image().sealed.len() as int,
                old(self).image().keydir,
            ) && final(self).merges() == next_count(old(self).merges()),
            total_bytes(final(self).image()) <= total_bytes(old(self).image()),
            old(self).image().sealed.len() >= 2 && has_dead_record(old(self).image())
                ==> total_bytes(final(self).image()) < total_bytes(old(self).image()),
    {
        if self.sealed.len() < 2 {
            return Ok(());
        }
        let new_id: u64 = self.sealed[self.sealed.len() - 1].id;
        proof {
            let img = self.image();
            let top = img.sealed.len() - 1;
            assert(img.sealed[top].0 == new_id);
            assert(img.sealed.last() == img.sealed[top]);
            assert(new_id < img.writer_id);
        }
        let ghost before = self.image();
        let ghost old_keydir = self.keydir;
        let mut merged: Vec<u8> = Vec::new();
        let mut entries: Vec<KeyDirEntry> = Vec::new();
        let count: usize = self.keydir.len();
        let mut i: usize = 0;
        while i < count
            invariant
                self.wf(),
                before == self.image(),
                old_keydir == self.keydir,
                count == self.keydir.keys@.len(),
                i <= count,
                entries@.len() == i,
                merged@ == merged_records(before, self.key_order(), i as int),
                forall|j: int|
                    0 <= j < i ==> moved_to(before, self.key_order(), j, #[trigger] entries@[j]),
                forall|j: int|
                    0 <= j < i ==> relocated(
                        before,
                        self.keydir.keys@[j]@,
                        #[trigger] self.keydir.entries@[j],
                        entries@[j],
                        merged@,
                        new_id,
                    ),
            decreases count - i,
        {
            let entry = self.keydir.entries[i];
            proof {
                self.keydir.lemma_at(i as int);
                assert(before.keydir.contains_key(self.keydir.keys@[i as int]@));
                assert(before.has_segment(entry.file_id));
                assert(self.key_order()[i as int] == self.keydir.keys@[i as int]@);
                assert(before.keydir[self.key_order()[i as int]] == entry);
            }
            if entry.file_id == self.writer_id {
                entries.push(entry);
            } else {
                let place = match find_segment(&self.sealed, entry.file_id) {
                    Some(place) => place,
                    None => { return Err(Error::FileNotFound(entry.file_id)); },
                };
                let key_len: usize = self.keydir.keys[i].len();
                let data: &Vec<u8> = &self.sealed[place].data;
                let total: usize = data.len();
                let ghost key = self.keydir.keys@[i as int]@;
                let ghost merged_before = merged@;
                proof {
                    assert(before.sealed[place as int] == (
                        self.sealed@[place as int].id,
                        self.sealed@[place as int].data@,
                    ));
                    lemma_sealed_at(before.sealed, place as int);
                    assert(data@ == before.data_of(entry.file_id));
                    assert(entry_in(data@, key, entry));
                }
                let value_end: usize = entry.value_position as usize + entry.value_size as usize;
                let start: usize = entry.value_position as usize - key_len - 20;
                merged.extend_from_slice(slice_subrange(data.as_slice(), start, value_end));
                let position: usize = merged.len() - entry.value_size as usize;
                let moved = KeyDirEntry {
                    file_id: new_id,
                    value_size: entry.value_size,
                    value_position: position as u64,
                    timestamp: entry.timestamp,
                };
                entries.push(moved);
                proof {
                    let record = data@.subrange(start as int, value_end as int);
                    let value = value_of(data@, entry);
                    assert(merged@ =~= merged_before + record);
                    lemma_record_round_trip(entry.timestamp, key, value);
                    assert(merged@.subrange(merged_before.len() as int, merged@.len() as int)
                        =~= record);
                    assert(value_of(merged@, moved) =~= record.subrange(
                        20 + key.len() as int,
                        20 + key.len() as int + value.len() as int,
                    ));
                    assert(merged@.subrange(
                        moved.value_position - 20 - key.len(),
                        moved.value_position + moved.value_size,
                    ) =~= record);
                    assert forall|j: int| 0 <= j < i implies relocated(
                        before,
                        self.keydir.keys@[j]@,
                        #[trigger] self.keydir.entries@[j],
                        entries@[j],
                        merged@,
                        new_id,
                    ) by {
                        if self.keydir.entries@[j].file_id != before.writer_id {
                            lemma_longer(
                                merged_before,
                                record,
                                self.keydir.keys@[j]@,
                                entries@[j],
                            );
                        }
                    }
                }
            }
            i += 1;
        }
        let ghost order = self.key_order();
        proof {
            self.lemma_key_order();
        }
        self.keydir.entries = entries;
        assert(self.key_order() =~= order);
        let mut sealed: Vec<Segment> = Vec::new();
        sealed.push(Segment { id: new_id, data: merged });
        self.sealed = sealed;
        self.merges = if self.merges == u64::MAX {
            0
        } else {
            self.merges + 1
        };
        proof {
            let after = self.image();
            assert(after.sealed =~= seq![(new_id, merged@)]);
            assert(after.sealed[0] == (new_id, merged@));
            lemma_sealed_at(after.sealed, 0);
            if before.sealed.len() > 0 {
                assert(before.sealed.last() == before.sealed[before.sealed.len() - 1]);
            }
            assert(!has_sealed(after.sealed, after.writer_id));
            assert forall|k: Seq<u8>| #[trigger]
                after.keydir.contains_key(k) == before.keydir.contains_key(k) by {
                if old_keydir.has(k) {
                    let j = old_keydir.index_of(k);
                    assert(self.keydir.keys@[j]@ == k);
                }
                if self.keydir.has(k) {
                    let j = self.keydir.index_of(k);
                    assert(old_keydir.keys@[j]@ == k);
                }
            }
            assert forall|k: Seq<u8>| #[trigger] before.keydir.contains_key(k) implies relocated(
                before,
                k,
                before.keydir[k],
                after.keydir[k],
                merged@,
                new_id,
            ) by {
                let j = old_keydir.index_of(k);
                assert(old_keydir.keys@[j]@ == k);
                old_keydir.lemma_at(j);
                self.keydir.lemma_at(j);
                assert(old_keydir.entries@[j] == before.keydir[k]);
            }
            assert(after.keydir.dom() =~= before.keydir.dom());
            assert forall|i: int| 0 <= i < order.len() implies moved_to(
                before,
                order,
                i,
                #[trigger] after.keydir[order[i]],
            ) by {
                assert(self.keydir.keys@[i]@ == order[i]);
                self.keydir.lemma_at(i);
            }
            assert(after.wf()) by {
                assert forall|k: Seq<u8>| #[trigger]
                    after.keydir.contains_key(k) implies after.has_segment(
                    after.keydir[k].file_id,
                ) && entry_in(after.data_of(after.keydir[k].file_id), k, after.keydir[k]) by {
                    assert(before.keydir.contains_key(k));
                }
            }
            assert(after.view() =~= before.view()) by {
                assert forall|k: Seq<u8>| #[trigger]
                    after.keydir.contains_key(k) implies after.view()[k] == before.view()[k] by {
                    assert(before.keydir.contains_key(k));
                }
            }
            assert(compacted(before, after, new_id));
            assert(compaction_of(before, after, order, new_id));
            lemma_compacted_recoverable(before, after, order, new_id);
            assert(ordered(after));
            assert(compacts_to(before, order, after));
            assert(bounded(before.sealed)) by {
                assert forall|j: int| 0 <= j < before.sealed.len() implies (
                #[trigger] before.sealed[j]).1.len() <= u64::MAX by {
                    assert(before.sealed[j].1 == old(self).sealed@[j].data@);
                    assert(old(self).sealed@[j].data.len() == old(self).sealed@[j].data@.len());
                }
            }
            assert(old(self).active.len() == before.active.len());
            assert(keys_in(before, order));
            lemma_compaction_size(before, order);
            assert(sealed_bytes(after.sealed, 1) == after.sealed[0].1.len()) by {
                assert(sealed_bytes(after.sealed, 0) == 0);
            }
            if has_dead_record(before) {
                let (j, p) = choose|j: int, p: int|
                    0 <= j < before.sealed.len() && #[trigger] scanned(before.sealed[j].1, 0, p)
                        && !live_at(before.sealed[j].1, p, before.sealed[j].0, before.keydir);
                lemma_compaction_shrinks(before, order, after, j, p);
            }
        }
        Ok(())
    }
}

/// The count of merges after one more: it goes round after the largest.
pub open spec fn next_count(count: u64) -> u64 {
    if count == u64::MAX {
        0
    } else {
        (count + 1) as u64
    }
}

/// What compaction makes of a database whose keys stand in `order`: one
/// sealed segment takes the place of all others, under the id of the last of
/// them; it holds the records of the keys whose entries pointed into sealed
/// segments, in that order, and nothing else; every such entry points at its
/// record there; the active segment and the entries that point into it are
/// as they were.
pub open spec fn compacts_to(before: Image, order: Seq<Seq<u8>>, after: Image) -> bool {
    &&& before.sealed.len() >= 1
    &&& after.sealed.len() == 1
    &&& after.sealed[0].0 == before.sealed.last().0
    &&& compacted(before, after, after.sealed[0].0)
    &&& after.sealed[0].1 == merged_records(before, order, order.len() as int)
    &&& forall|i: int|
        0 <= i < order.len() ==> moved_to(before, order, i, #[trigger] after.keydir[order[i]])
}

/// What holds of an entry after compaction. An entry that points into the
/// active segment is as it was. Any other entry points into the merged
/// segment, at the value of a whole record for its key with the value, the
/// size and the timestamp that it had.
pub open spec fn relocated(
    before: Image,
    key: Seq<u8>,
    old_entry: KeyDirEntry,
    new_entry: KeyDirEntry,
    merged: Seq<u8>,
    new_id: u64,
) -> bool {
    if old_entry.file_id == before.writer_id {
        new_entry == old_entry
    } else {
        &&& new_entry.file_id == new_id
        &&& new_entry.value_size == old_entry.value_size
        &&& new_entry.timestamp == old_entry.timestamp
        &&& entry_in(merged, key, new_entry)
        &&& value_of(merged, new_entry) == value_of(before.data_of(old_entry.file_id), old_entry)
    }
}

/// The bytes of the record that the entry of `key` points into.
pub open spec fn record_of(img: Image, key: Seq<u8>) -> Seq<u8> {
    let e = img.keydir[key];
    img.data_of(e.file_id).subrange(
        e.value_position - 20 - key.len(),
        e.value_position + e.value_size,
    )
}

/// The bytes that compaction writes for the first `n` keys of `order`: the
/// record of every key whose entry points into a sealed segment, one after
/// the other, and nothing else.
pub open spec fn merged_records(img: Image, order: Seq<Seq<u8>>, n: int) -> Seq<u8>
    decreases n,
{
    if n <= 0 {
        Seq::empty()
    } else {
        let rest = merged_records(img, order, n - 1);
        if img.keydir[order[n - 1]].file_id == img.writer_id {
            rest
        } else {
            rest + record_of(img, order[n - 1])
        }
    }
}

/// Where compaction puts the record of the key at place `i` of `order`: an
/// entry that points into a sealed segment points, afterwards, at the value
/// of the record that follows the records of the keys before it.
pub open spec fn moved_to(img: Image, order: Seq<Seq<u8>>, i: int, entry: KeyDirEntry) -> bool {
    img.keydir[order[i]].file_id != img.writer_id ==> entry.value_position == merged_records(
        img,
        order,
        i,
    ).len() + 20 + order[i].len()
}

/// What compaction does to a database: the active segment stays, one sealed
/// segment with the id `new_id` takes the place of all others, and the key
/// directory holds the same keys, each relocated.
pub open spec fn compacted(before: Image, after: Image, new_id: u64) -> bool {
    &&& after.writer_id == before.writer_id
    &&& after.active == before.active
    &&& after.sealed.len() == 1
    &&& after.sealed[0].0 == new_id
    &&& after.keydir.dom() == before.keydir.dom()
    &&& forall|k: Seq<u8>| #[trigger]
        before.keydir.contains_key(k) ==> relocated(
            before,
            k,
            before.keydir[k],
            after.keydir[k],
            after.sealed[0].1,
            new_id,
        )
}

/// The place of the segment with this id, if there is one.
fn find_segment(sealed: &Vec<Segment>, id: u64) -> (r: Option<usize>)
    ensures
        match r {
            Some(i) => i < sealed@.len() && sealed@[i as int].id == id,
            None => !has_sealed(segments_view(sealed@), id),
        },
{
    let mut i: usize = 0;
    while i < sealed.len()
        invariant
            i <= sealed@.len(),
            forall|j: int| 0 <= j < i ==> sealed@[j].id != id,
        decreases sealed@.len() - i,
    {
        if sealed[i].id == id {
            return Some(i);
        }
        i += 1;
    }
    assert forall|j: int| 0 <= j < segments_view(sealed@).len() implies (#[trigger] segments_view(
        sealed@,
    )[j]).0 != id by {}
    None
}

/// Puts a segment into an ascending vector of segments, at its rank.
fn insert_segment(sealed: &mut Vec<Segment>, segment: Segment)
    requires
        ascending(segments_view(old(sealed)@)),
    ensures
        segments_view(final(sealed)@) == segments_view(old(sealed)@).insert(
            rank(segments_view(old(sealed)@), segment.id),
            (segment.id, segment.data@),
        ),
        0 <= rank(segments_view(old(sealed)@), segment.id) <= old(sealed)@.len(),
{
    let ghost before = segments_view(sealed@);
    let mut place: usize = sealed.len();
    assert(before.subrange(0, place as int) =~= before);
    while place > 0 && sealed[place - 1].id >= segment.id
        invariant
            place <= sealed@.len(),
            rank(before, segment.id) == rank(before.subrange(0, place as int), segment.id),
            before == segments_view(sealed@),
        decreases place,
    {
        assert(before.subrange(0, place as int).last() == before[place - 1]);
        assert(before.subrange(0, place as int).drop_last() =~= before.subrange(0, place - 1));
        place -= 1;
    }
    proof {
        if place > 0 {
            assert(before.subrange(0, place as int).last() == before[place - 1]);
        }
        assert(place == rank(before, segment.id));
    }
    let ghost pair = (segment.id, segment.data@);
    sealed.insert(place, segment);
    assert(segments_view(sealed@) =~= before.insert(place as int, pair));
}

/// One entry of the database directory: a file name and the bytes of the
/// file.
#[derive(Debug)]
pub struct DirEntry {
    /// Name of the file, without the directory
    pub name: Vec<u8>,
    /// Contents of the file
    pub data: Vec<u8>,
}

/// Whether the entry is anything but the lock file.
pub open spec fn is_log(e: DirEntry) -> bool {
    e.name@ != lock_name()
}

/// The id of the sealed segment that the entry is, if it is one.
pub open spec fn sealed_id(e: DirEntry) -> Option<u64> {
    match classified(e.name@) {
        Classified::Log(LogFile::Sealed(id)) => if is_log(e) {
            Some(id)
        } else {
            None
        },
        _ => None,
    }
}

/// The id of the active segment that the entry is, if it is one.
pub open spec fn active_id(e: DirEntry) -> Option<u64> {
    match classified(e.name@) {
        Classified::Log(LogFile::Active(id)) => if is_log(e) {
            Some(id)
        } else {
            None
        },
        _ => None,
    }
}

/// The id of the segment, active or sealed, that the entry is, if it is one.
pub open spec fn log_id(e: DirEntry) -> Option<u64> {
    if active_id(e) is Some {
        active_id(e)
    } else {
        sealed_id(e)
    }
}

/// Whether the entry is neither the lock file nor a segment.
pub open spec fn unreadable(e: DirEntry) -> bool {
    is_log(e) && !(classified(e.name@) is Log)
}

/// The sealed segments among the first `n` entries are those of `sealed`,
/// which ascends.
pub open spec fn lists_sealed(entries: Seq<DirEntry>, n: int, sealed: Seq<(u64, Seq<u8>)>) -> bool {
    &&& ascending(sealed)
    &&& forall|j: int|
        0 <= j < n && (#[trigger] sealed_id(entries[j])) is Some ==> has_sealed(
            sealed,
            sealed_id(entries[j])->Some_0,
        ) && sealed_data(sealed, sealed_id(entries[j])->Some_0) == entries[j].data@
    &&& forall|x: u64| #[trigger]
        has_sealed(sealed, x) ==> exists|j: int|
            0 <= j < n && #[trigger] sealed_id(entries[j]) == Some(x)
}

/// Whether `img` is what recovery builds from the directory: its sealed
/// segments are those of the listing, its active segment is the one of the
/// listing, cut after the last whole record, and its key directory is what
/// replaying them gives.
pub open spec fn recovers(entries: Seq<DirEntry>, img: Image) -> bool {
    &&& lists_sealed(entries, entries.len() as int, img.sealed)
    &&& exists|a: int|
        0 <= a < entries.len() && #[trigger] active_id(entries[a]) == Some(img.writer_id) && img
            == recovered(img.writer_id, entries[a].data@, img.sealed)
}

/// Whether a directory can be opened: every entry but the lock file is a
/// segment, exactly one of them is active, no two have the same id, and the
/// active segment has the largest id.
pub open spec fn listing_ok(entries: Seq<DirEntry>) -> bool {
    &&& forall|i: int, j: int|
        0 <= i < entries.len() && 0 <= j < entries.len() && (#[trigger] active_id(entries[i]))
            is Some && (#[trigger] sealed_id(entries[j])) is Some ==> sealed_id(
            entries[j],
        )->Some_0 < active_id(entries[i])->Some_0
    &&& forall|i: int| 0 <= i < entries.len() ==> !#[trigger] unreadable(entries[i])
    &&& exists|i: int| 0 <= i < entries.len() && (#[trigger] active_id(entries[i])) is Some
    &&& forall|i: int, j: int|
        0 <= i < j < entries.len() && (#[trigger] log_id(entries[i])) is Some && (#[trigger] log_id(
            entries[j],
        )) is Some ==> log_id(entries[i]) != log_id(entries[j]) && !(active_id(entries[i]) is Some
            && active_id(entries[j]) is Some)
}

/// Whether entry `i` is a segment whose id an earlier entry has, or a second
/// active segment.
pub open spec fn clashes(entries: Seq<DirEntry>, i: int) -> bool {
    exists|j: int|
        0 <= j < i && (#[trigger] log_id(entries[j])) is Some && log_id(entries[i]) is Some && (
        log_id(entries[j]) == log_id(entries[i]) || (active_id(entries[j]) is Some && active_id(
            entries[i],
        ) is Some))
}

/// Whether entry `i` is a sealed segment with an id above that of an earlier
/// active segment, or an active segment with an id below that of an earlier
/// sealed segment.
pub open spec fn misplaced(entries: Seq<DirEntry>, i: int) -> bool {
    exists|j: int|
        0 <= j < i && (#[trigger] log_id(entries[j])) is Some && ((active_id(entries[j]) is Some
            && sealed_id(entries[i]) is Some && sealed_id(entries[i])->Some_0 > active_id(
            entries[j],
        )->Some_0) || (sealed_id(entries[j]) is Some && active_id(entries[i]) is Some
            && sealed_id(entries[j])->Some_0 > active_id(entries[i])->Some_0))
}

/// Whether entry `i` stops the directory from being opened.
pub open spec fn bad(entries: Seq<DirEntry>, i: int) -> bool {
    unreadable(entries[i]) || clashes(entries, i) || misplaced(entries, i)
}

/// Whether entry `i` is the first that stops the directory from being
/// opened.
pub open spec fn first_bad(entries: Seq<DirEntry>, i: int) -> bool {
    &&& 0 <= i < entries.len()
    &&& bad(entries, i)
    &&& forall|j: int| 0 <= j < i ==> !#[trigger] bad(entries, j)
}

/// Whether `e` is the error of opening this directory. The first entry, in
/// the order of the listing, that stops the directory from being opened
/// decides: `TimestampParse` with its name where its id cannot be read, else
/// `InvalidLogFileName` with its name (an unknown suffix, a second active
/// segment, an id that an earlier entry has, or a sealed segment with an id
/// above the active one's). Where no entry stops it, the error is
/// `ActiveFileNotFound`: no entry is an active segment.
pub open spec fn open_error(entries: Seq<DirEntry>, e: Error) -> bool {
    match e {
        Error::TimestampParse { value } => exists|i: int|
            #[trigger] first_bad(entries, i) && classified(entries[i].name@) is BadId && value@
                == entries[i].name@,
        Error::InvalidLogFileName { filename } => exists|i: int|
            #[trigger] first_bad(entries, i) && !(classified(entries[i].name@) is BadId)
                && filename@ == entries[i].name@,
        Error::ActiveFileNotFound => {
            &&& forall|i: int| 0 <= i < entries.len() ==> !#[trigger] bad(entries, i)
            &&& forall|i: int| 0 <= i < entries.len() ==> (#[trigger] active_id(entries[i])) is None
        },
        _ => false,
    }
}

/// Whether an entry of the key directory points at the value of a whole
/// record for `key` in one of the first `n` segments.
pub open spec fn placed(sealed: Seq<(u64, Seq<u8>)>, n: int, key: Seq<u8>, e: KeyDirEntry) -> bool {
    exists|j: int| 0 <= j < n && (#[trigger] sealed[j]).0 == e.file_id && entry_in(sealed[j].1, key, e)
}

/// The id in a classification.
pub open spec fn spec_file_id(file: LogFile) -> u64 {
    match file {
        LogFile::Active(id) => id,
        LogFile::Sealed(id) => id,
    }
}

/// The id of a log file.
#[verifier::when_used_as_spec(spec_file_id)]
fn file_id(file: LogFile) -> (id: u64)
    ensures
        id == spec_file_id(file),
{
    match file {
        LogFile::Active(id) => id,
        LogFile::Sealed(id) => id,
    }
}

/// Whether a classification is that of an active segment.
pub open spec fn spec_is_active(file: LogFile) -> bool {
    file is Active
}

/// Whether a log file is an active segment.
#[verifier::when_used_as_spec(spec_is_active)]
fn is_active(file: LogFile) -> (r: bool)
    ensures
        r == spec_is_active(file),
{
    match file {
        LogFile::Active(_) => true,
        LogFile::Sealed(_) => false,
    }
}

/// Whether the directory holds nothing but the lock file.
pub open spec fn only_lock(entries: Seq<DirEntry>) -> bool {
    forall|i: int| 0 <= i < entries.len() ==> !is_log(#[trigger] entries[i])
}

/// Whether the directory holds nothing but the lock file.
fn is_empty_listing(entries: &Vec<DirEntry>) -> (r: bool)
    ensures
        r == only_lock(entries@),
{
    let lock = lock_file_name();
    let mut i: usize = 0;
    while i < entries.len()
        invariant
            i <= entries@.len(),
            lock@ == lock_name(),
            forall|j: int| 0 <= j < i ==> !is_log(#[trigger] entries@[j]),
        decreases entries@.len() - i,
    {
        if !bytes_eq(entries[i].name.as_slice(), lock.as_slice()) {
            assert(is_log(entries@[i as int]));
            return false;
        }
        i += 1;
    }
    true
}

} // verus!
