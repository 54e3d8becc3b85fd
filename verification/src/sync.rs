//! Keeping a directory of files in step with the database: which files to
//! cut, seal, create, extend, write and remove so that the files hold the
//! segments of the database.

use vstd::prelude::*;
use crate::db::{compacts_to, Bitask};
use crate::image::{
    has_sealed, lemma_insert, lemma_sealed_at, put_accepts, rank, recovered, sealed_data, Image,
};
use crate::recovery::lemma_replay_prefix;

verus! {

/// What the caller knows of the files in the directory.
#[derive(Debug)]
pub struct Disk {
    /// Id of the active segment file
    pub writer_id: u64,
    /// Length of the active segment file
    pub active_len: usize,
    /// Ids of the sealed segment files
    pub sealed: Vec<u64>,
    /// The count of merges of the database when the files were last in step
    /// with it
    pub merges: u64,
}

/// One change to the files of the directory.
#[derive(Debug, Clone, Copy, PartialEq, Eq, Structural)]
pub enum Action {
    /// Cut the active segment file `<id>.active.log` to `len` bytes
    Truncate { id: u64, len: usize },
    /// Rename the active segment file `<id>.active.log` to `<id>.log`
    Seal { id: u64 },
    /// Create the empty active segment file `<id>.active.log`
    Create { id: u64 },
    /// Append the bytes of the active segment from `from` on to
    /// `<id>.active.log`
    Append { id: u64, from: usize },
    /// Write the sealed segment `id` to the file `<id>.log`, in place of what
    /// the file held
    Write { id: u64 },
    /// Remove the sealed segment file `<id>.log`
    Remove { id: u64 },
}

/// The segment files of a directory.
pub struct Files {
    /// Id of the active segment file
    pub writer_id: u64,
    /// Bytes of the active segment file
    pub active: Seq<u8>,
    /// Bytes of every sealed segment file, by id
    pub sealed: Map<u64, Seq<u8>>,
}

/// The files after one change, made for the database `target`.
pub open spec fn perform(files: Files, action: Action, target: Image) -> Files {
    match action {
        Action::Truncate { len, .. } => Files {
            active: files.active.subrange(0, len as int),
            ..files
        },
        Action::Seal { id } => Files {
            active: Seq::empty(),
            sealed: files.sealed.insert(id, files.active),
            ..files
        },
        Action::Create { id } => Files { writer_id: id, active: Seq::empty(), ..files },
        Action::Append { from, .. } => Files {
            active: files.active + target.active.skip(from as int),
            ..files
        },
        Action::Write { id } => Files {
            sealed: files.sealed.insert(id, sealed_data(target.sealed, id)),
            ..files
        },
        Action::Remove { id } => Files { sealed: files.sealed.remove(id), ..files },
    }
}

/// The files after a sequence of changes, made in order.
pub open spec fn perform_all(files: Files, actions: Seq<Action>, target: Image) -> Files
    decreases actions.len(),
{
    if actions.len() == 0 {
        files
    } else {
        perform(perform_all(files, actions.drop_last(), target), actions.last(), target)
    }
}

/// The files hold the segments of the database, and nothing else.
pub open spec fn mirrors(files: Files, img: Image) -> bool {
    &&& files.writer_id == img.writer_id
    &&& files.active == img.active
    &&& forall|id: u64| files.sealed.contains_key(id) <==> has_sealed(img.sealed, id)
    &&& forall|id: u64|
        has_sealed(img.sealed, id) ==> #[trigger] files.sealed[id] == sealed_data(img.sealed, id)
}

/// What the caller knows of the files is right.
pub open spec fn known(files: Files, disk: Disk) -> bool {
    &&& files.writer_id == disk.writer_id
    &&& files.active.len() == disk.active_len
    &&& forall|id: u64| files.sealed.contains_key(id) <==> disk.sealed@.contains(id)
}

/// The database can have come from a database that the files mirrored. The
/// active segment file, if it is still the active segment, agrees with the
/// active segment as far as both go. Where no merge was made since (`kept`),
/// a sealed segment that is in both has the same bytes, and the active
/// segment file, if it has been sealed since, holds the bytes of that sealed
/// segment.
pub open spec fn follows(files: Files, img: Image, kept: bool) -> bool {
    &&& files.writer_id == img.writer_id ==> if files.active.len() <= img.active.len() {
        img.active.subrange(0, files.active.len() as int) == files.active
    } else {
        files.active.subrange(0, img.active.len() as int) == img.active
    }
    &&& kept && files.writer_id != img.writer_id && has_sealed(img.sealed, files.writer_id)
        ==> sealed_data(img.sealed, files.writer_id) == files.active
    &&& kept ==> forall|id: u64|
        files.sealed.contains_key(id) && has_sealed(img.sealed, id) ==> #[trigger] files.sealed[id]
            == sealed_data(img.sealed, id)
}

/// How far the files have come: the active segment is done, the first
/// `written` sealed segments of the database are there with their bytes, and
/// what is there beyond the segments of the database is still to be removed.
pub open spec fn staged(
    files: Files,
    img: Image,
    kept: bool,
    written: int,
    disk_ids: Seq<u64>,
    removed: int,
    old_writer: Option<u64>,
) -> bool {
    &&& files.writer_id == img.writer_id
    &&& files.active == img.active
    &&& kept ==> forall|id: u64|
        files.sealed.contains_key(id) && has_sealed(img.sealed, id) ==> #[trigger] files.sealed[id]
            == sealed_data(img.sealed, id)
    &&& forall|k: int|
        0 <= k < written ==> files.sealed.contains_key((#[trigger] img.sealed[k]).0)
            && files.sealed[img.sealed[k].0] == img.sealed[k].1
    &&& forall|id: u64| #[trigger]
        files.sealed.contains_key(id) ==> has_sealed(img.sealed, id) || old_writer == Some(id)
            || exists|k: int| removed <= k < disk_ids.len() && #[trigger] disk_ids[k] == id
    &&& removed == 0 ==> forall|id: u64|
        disk_ids.contains(id) || old_writer == Some(id) ==> #[trigger] files.sealed.contains_key(id)
}

/// Whether the database has a sealed segment with this id.
fn is_sealed(db: &Bitask, id: u64) -> (r: bool)
    ensures
        r == has_sealed(db.image().sealed, id),
{
    let count: usize = db.sealed_count();
    let mut i: usize = 0;
    while i < count
        invariant
            i <= count,
            count == db.image().sealed.len(),
            forall|j: int| 0 <= j < i ==> (#[trigger] db.image().sealed[j]).0 != id,
        decreases count - i,
    {
        if db.sealed_segment(i).id == id {
            assert(db.image().sealed[i as int].0 == id);
            return true;
        }
        i += 1;
    }
    false
}

/// Whether the id is among those given.
fn is_among(ids: &Vec<u64>, id: u64) -> (r: bool)
    ensures
        r == ids@.contains(id),
{
    let mut i: usize = 0;
    while i < ids.len()
        invariant
            i <= ids@.len(),
            forall|j: int| 0 <= j < i ==> ids@[j] != id,
        decreases ids@.len() - i,
    {
        if ids[i] == id {
            return true;
        }
        i += 1;
    }
    false
}

/// One more change is made after the others.
proof fn lemma_one_more(files: Files, actions: Seq<Action>, action: Action, target: Image)
    ensures
        perform_all(files, actions.push(action), target) == perform(
            perform_all(files, actions, target),
            action,
            target,
        ),
{
    assert(actions.push(action).drop_last() =~= actions);
}

/// The changes that bring the files of the directory in step with the
/// database: first the active segment file is cut, or sealed and begun anew,
/// and extended; then the sealed segments that have no file are written, or
/// all of them where a merge was made since the files were last in step; and
/// only then the files of sealed segments that the database no longer has are
/// removed.
///
/// Whatever files the directory holds, if the caller knows them rightly and
/// the database can have come from them, then after the changes the files
/// hold the segments of the database and nothing else. No file is written
/// after a file was removed.
pub fn plan(db: &Bitask, disk: &Disk) -> (actions: Vec<Action>)
    requires
        db.wf(),
    ensures
        forall|files: Files|
            known(files, *disk) && follows(files, db.image(), disk.merges == db.merges()) ==> mirrors(
                #[trigger] perform_all(files, actions@, db.image()),
                db.image(),
            ),
        forall|i: int, j: int|
            0 <= i < j < actions@.len() && (#[trigger] actions@[i]) is Remove ==> (
            #[trigger] actions@[j]) is Remove,
{
    let ghost img = db.image();
    let ghost ids = disk.sealed@;
    let mut actions: Vec<Action> = Vec::new();
    let writer_id = db.writer_id();
    let kept = disk.merges == db.merge_count();
    let length: usize = db.active_data().len();
    proof {
        db.lemma_wf();
    }
    let rotated = disk.writer_id != writer_id;
    let ghost old_writer = if rotated { Some(disk.writer_id) } else { None::<u64> };
    if rotated {
        actions.push(Action::Seal { id: disk.writer_id });
        actions.push(Action::Create { id: writer_id });
        actions.push(Action::Append { id: writer_id, from: 0 });
        proof {
            assert forall|files: Files| known(files, *disk) && follows(files, img, kept) implies staged(
                #[trigger] perform_all(files, actions@, img),
                img, kept,
                0,
                ids,
                0,
                old_writer,
            ) by {
                let a0 = Seq::<Action>::empty();
                let a1 = a0.push(Action::Seal { id: disk.writer_id });
                let a2 = a1.push(Action::Create { id: writer_id });
                lemma_one_more(files, a0, Action::Seal { id: disk.writer_id }, img);
                lemma_one_more(files, a1, Action::Create { id: writer_id }, img);
                lemma_one_more(files, a2, Action::Append { id: writer_id, from: 0 }, img);
                assert(actions@ =~= a2.push(Action::Append { id: writer_id, from: 0 }));
                let now = perform_all(files, actions@, img);
                assert(now.active =~= img.active);
                assert forall|id: u64| #[trigger] now.sealed.contains_key(id) implies has_sealed(
                    img.sealed,
                    id,
                ) || old_writer == Some(id) || exists|k: int|
                    0 <= k < ids.len() && #[trigger] ids[k] == id by {
                    if id != disk.writer_id {
                        assert(files.sealed.contains_key(id));
                        assert(ids.contains(id));
                    }
                }
            }
        }
    } else {
        if disk.active_len > length {
            actions.push(Action::Truncate { id: writer_id, len: length });
        } else if disk.active_len < length {
            actions.push(Action::Append { id: writer_id, from: disk.active_len });
        }
        proof {
            assert forall|files: Files| known(files, *disk) && follows(files, img, kept) implies staged(
                #[trigger] perform_all(files, actions@, img),
                img, kept,
                0,
                ids,
                0,
                old_writer,
            ) by {
                let a0 = Seq::<Action>::empty();
                if disk.active_len > length {
                    lemma_one_more(files, a0, Action::Truncate { id: writer_id, len: length }, img);
                    assert(actions@ =~= a0.push(Action::Truncate { id: writer_id, len: length }));
                } else if disk.active_len < length {
                    lemma_one_more(
                        files,
                        a0,
                        Action::Append { id: writer_id, from: disk.active_len },
                        img,
                    );
                    assert(actions@ =~= a0.push(
                        Action::Append { id: writer_id, from: disk.active_len },
                    ));
                    assert(img.active.subrange(0, disk.active_len as int) + img.active.skip(
                        disk.active_len as int,
                    ) =~= img.active);
                } else {
                    assert(actions@ =~= a0);
                    assert(img.active.subrange(0, length as int) =~= img.active);
                }
                let now = perform_all(files, actions@, img);
                assert(now.sealed == files.sealed);
                assert forall|id: u64| #[trigger] now.sealed.contains_key(id) implies has_sealed(
                    img.sealed,
                    id,
                ) || old_writer == Some(id) || exists|k: int|
                    0 <= k < ids.len() && #[trigger] ids[k] == id by {
                    assert(ids.contains(id));
                }
            }
        }
    }
    let count: usize = db.sealed_count();
    let mut i: usize = 0;
    while i < count
        invariant
            i <= count,
            forall|k: int| 0 <= k < actions@.len() ==> !((#[trigger] actions@[k]) is Remove),
            count == img.sealed.len(),
            img == db.image(),
            ids == disk.sealed@,
            rotated == (disk.writer_id != writer_id),
            kept == (disk.merges == db.merges()),
            img.wf(),
            old_writer == (if rotated { Some(disk.writer_id) } else { None::<u64> }),
            forall|files: Files|
                known(files, *disk) && follows(files, img, kept) ==> staged(
                    #[trigger] perform_all(files, actions@, img),
                    img, kept,
                    i as int,
                    ids,
                    0,
                    old_writer,
                ),
        decreases count - i,
    {
        let id = db.sealed_segment(i).id;
        let there = kept && (is_among(&disk.sealed, id) || (rotated && id == disk.writer_id));
        let ghost before = actions@;
        if !there {
            actions.push(Action::Write { id });
        }
        proof {
            assert(img.sealed[i as int].0 == id);
            assert(has_sealed(img.sealed, id));
            assert forall|files: Files| known(files, *disk) && follows(files, img, kept) implies staged(
                #[trigger] perform_all(files, actions@, img),
                img, kept,
                i + 1,
                ids,
                0,
                old_writer,
            ) by {
                let earlier = perform_all(files, before, img);
                assert(staged(earlier, img, kept, i as int, ids, 0, old_writer));
                lemma_sealed_at(img.sealed, i as int);
                if !there {
                    lemma_one_more(files, before, Action::Write { id }, img);
                } else {
                    assert(actions@ == before);
                    assert(earlier.sealed.contains_key(id));
                }
                let now = perform_all(files, actions@, img);
                assert forall|k: int| 0 <= k < i + 1 implies now.sealed.contains_key(
                    (#[trigger] img.sealed[k]).0,
                ) && now.sealed[img.sealed[k].0] == img.sealed[k].1 by {
                    if k < i {
                        assert(earlier.sealed.contains_key(img.sealed[k].0));
                        assert(img.sealed[k].0 < img.sealed[i as int].0);
                    }
                }
            }
        }
        i += 1;
    }
    let mut j: usize = 0;
    while j < disk.sealed.len()
        invariant
            j <= disk.sealed@.len(),
            forall|a: int, b: int|
                0 <= a < b < actions@.len() && (#[trigger] actions@[a]) is Remove ==> (
                #[trigger] actions@[b]) is Remove,
            count == img.sealed.len(),
            img == db.image(),
            img.wf(),
            ids == disk.sealed@,
            forall|files: Files|
                known(files, *disk) && follows(files, img, kept) ==> staged(
                    #[trigger] perform_all(files, actions@, img),
                    img, kept,
                    count as int,
                    ids,
                    j as int,
                    old_writer,
                ),
        decreases disk.sealed@.len() - j,
    {
        let id = disk.sealed[j];
        let keep = is_sealed(db, id);
        let ghost before = actions@;
        if !keep {
            actions.push(Action::Remove { id });
        }
        proof {
            assert forall|files: Files| known(files, *disk) && follows(files, img, kept) implies staged(
                #[trigger] perform_all(files, actions@, img),
                img, kept,
                count as int,
                ids,
                j + 1,
                old_writer,
            ) by {
                let earlier = perform_all(files, before, img);
                assert(staged(earlier, img, kept, count as int, ids, j as int, old_writer));
                if !keep {
                    lemma_one_more(files, before, Action::Remove { id }, img);
                }
                let now = perform_all(files, actions@, img);
                assert forall|k: int| 0 <= k < count implies now.sealed.contains_key(
                    (#[trigger] img.sealed[k]).0,
                ) && now.sealed[img.sealed[k].0] == img.sealed[k].1 by {
                    assert(earlier.sealed.contains_key(img.sealed[k].0));
                    assert(has_sealed(img.sealed, img.sealed[k].0));
                }
                assert forall|x: u64| #[trigger] now.sealed.contains_key(x) implies has_sealed(
                    img.sealed,
                    x,
                ) || old_writer == Some(x) || exists|k: int|
                    j + 1 <= k < ids.len() && #[trigger] ids[k] == x by {
                    assert(earlier.sealed.contains_key(x));
                    if !(has_sealed(img.sealed, x) || old_writer == Some(x)) {
                        let k = choose|k: int| j <= k < ids.len() && #[trigger] ids[k] == x;
                        assert(k != j);
                    }
                }
            }
        }
        j += 1;
    }
    let ghost before = actions@;
    let stale = rotated && !is_sealed(db, disk.writer_id);
    if stale {
        actions.push(Action::Remove { id: disk.writer_id });
    }
    proof {
        assert forall|files: Files| known(files, *disk) && follows(files, img, kept) implies mirrors(
            #[trigger] perform_all(files, actions@, img),
            img,
        ) by {
            let earlier = perform_all(files, before, img);
            assert(staged(earlier, img, kept, count as int, ids, ids.len() as int, old_writer));
            if stale {
                lemma_one_more(files, before, Action::Remove { id: disk.writer_id }, img);
            }
            let now = perform_all(files, actions@, img);
            assert forall|id: u64| has_sealed(img.sealed, id) implies now.sealed.contains_key(
                id,
            ) && #[trigger] now.sealed[id] == sealed_data(img.sealed, id) by {
                let k = choose|k: int| 0 <= k < img.sealed.len() && (#[trigger] img.sealed[k]).0 == id;
                assert(earlier.sealed.contains_key(img.sealed[k].0));
            }
            assert forall|id: u64| now.sealed.contains_key(id) implies has_sealed(
                img.sealed,
                id,
            ) by {
                assert(earlier.sealed.contains_key(id));
            }
        }
    }
    actions
}

/// Files that mirror a database can be brought in step with it by no change
/// at all, and the database follows from them.
pub proof fn lemma_mirrors_follows(files: Files, img: Image)
    requires
        mirrors(files, img),
    ensures
        follows(files, img, true),
{
    assert(img.active.subrange(0, files.active.len() as int) =~= files.active);
}

/// After a put, the database follows from the files that mirrored it before.
pub proof fn lemma_follows_put(files: Files, img: Image, now: u64, key: Seq<u8>, value: Seq<u8>)
    requires
        img.wf(),
        mirrors(files, img),
        put_accepts(img, now, key, value),
    ensures
        follows(files, img.put(now, key, value), true),
{
    let after = img.put(now, key, value);
    if img.rotation_due() {
        lemma_insert(img.sealed, img.writer_id, img.active);
        assert(after.sealed == img.sealed.insert(
            rank(img.sealed, img.writer_id),
            (img.writer_id, img.active),
        ));
        assert(after.writer_id != img.writer_id) by {
            if img.sealed.len() > 0 {
                assert(img.sealed.last() == img.sealed[img.sealed.len() - 1]);
            }
        }
        assert forall|id: u64|
            files.sealed.contains_key(id) && has_sealed(after.sealed, id) implies #[trigger] files.sealed[id]
            == sealed_data(after.sealed, id) by {
            assert(has_sealed(img.sealed, id));
        }
    } else {
        assert(after.active.subrange(0, files.active.len() as int) =~= files.active);
    }
}

/// After a delete, the database follows from the files that mirrored it
/// before.
pub proof fn lemma_follows_remove(files: Files, img: Image, now: u64, key: Seq<u8>)
    requires
        mirrors(files, img),
    ensures
        follows(files, img.remove(now, key), true),
{
    let after = img.remove(now, key);
    assert(after.active.subrange(0, files.active.len() as int) =~= files.active);
}

/// After compaction, the database follows from the files that mirrored it
/// before, as one in which a merge was made: the file of the merged
/// segment's id is out of date.
pub proof fn lemma_follows_compacted(files: Files, before: Image, order: Seq<Seq<u8>>, after: Image)
    requires
        mirrors(files, before),
        compacts_to(before, order, after),
    ensures
        follows(files, after, false),
{
    assert(after.active.subrange(0, files.active.len() as int) =~= files.active);
}

/// What recovery builds from the segment files of a directory follows from
/// those files: at most the torn tail of the active segment file is to be cut.
pub proof fn lemma_follows_recovered(files: Files, sealed: Seq<(u64, Seq<u8>)>)
    requires
        forall|id: u64|
            files.sealed.contains_key(id) && has_sealed(sealed, id) ==> #[trigger] files.sealed[id]
                == sealed_data(sealed, id),
    ensures
        follows(files, recovered(files.writer_id, files.active, sealed), true),
{
    lemma_replay_prefix(files.active, 0, files.writer_id, Map::empty());
    let img = recovered(files.writer_id, files.active, sealed);
    assert(files.active.subrange(0, img.active.len() as int) =~= img.active);
    if files.active.len() <= img.active.len() {
        assert(img.active.subrange(0, files.active.len() as int) =~= files.active);
    }
}

} // verus!
