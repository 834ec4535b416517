//! Deleting files and getting them back.
//!
//! A deleted file's row survives as a tombstone and keeps its chunk references,
//! so the content stays restorable. Only when garbage collection expires the
//! tombstone are those references released.

use vstd::prelude::*;

use super::chunker::ContentHash;
use super::db;
use super::db::{has_hash, Db, File, FileRow, Index};
use super::error::{Error, Fault};
use super::lifecycle;
use super::promises;
use super::store;
use super::store::{Disk, Stamp};
use crate::sync::clock::Counts;

verus! {

/// Thirty-two zero bytes.
pub open spec fn no_hash() -> Seq<u8> {
    Seq::new(32, |i: int| 0u8)
}

/// A file that was deleted.
pub open spec fn deleted_file(
    before: Option<File>,
    id: i64,
    path: Seq<char>,
    h: store::History,
    now: i64,
) -> File {
    match before {
        Some(f) => File {
            deleted_at: Some(h.at),
            updated_at: h.at,
            vector: h.vector,
            modified_by: Some(h.by),
            ..f
        },
        None => File {
            id,
            path,
            scope: None,
            size: 0,
            content_hash: no_hash(),
            mtime_ns: 0,
            created_at: now,
            updated_at: h.at,
            deleted_at: Some(h.at),
            vector: h.vector,
            modified_by: Some(h.by),
            materialised: true,
            touched_at: 0,
            wanted: false,
            chunks: Seq::empty(),
        },
    }
}

/// The index once a path has been deleted. A path this device never held gets a
/// row too: without it, the next comparison would look like the peer inventing a
/// file we had deleted.
pub open spec fn tombstoned(ix: Index, path: Seq<char>, stamp: Stamp, now: i64) -> Index {
    let h = store::history(ix, path, stamp, now);
    let next = store::allotted(ix, stamp);
    let i = db::shared(ix, path);
    let id = store::next_id(ix.files) as i64;
    if i >= 0 {
        Index {
            files: next.files.update(i, deleted_file(Some(ix.files[i]), id, path, h, now)),
            ..next
        }
    } else {
        Index { files: next.files.push(deleted_file(None, id, path, h, now)), ..next }
    }
}

/// Those of a list that are held.
pub open spec fn kept(list: Seq<Seq<u8>>, held: Seq<Seq<u8>>) -> Seq<Seq<u8>>
    decreases list.len(),
{
    if list.len() == 0 {
        Seq::empty()
    } else if held.contains(list.last()) {
        kept(list.drop_last(), held).push(list.last())
    } else {
        kept(list.drop_last(), held)
    }
}

/// Those of a list that are not held.
pub open spec fn gone(list: Seq<Seq<u8>>, held: Seq<Seq<u8>>) -> Seq<Seq<u8>>
    decreases list.len(),
{
    if list.len() == 0 {
        Seq::empty()
    } else if held.contains(list.last()) {
        gone(list.drop_last(), held)
    } else {
        gone(list.drop_last(), held).push(list.last())
    }
}

/// The index once a path has let go of payloads that nothing holds any more.
pub open spec fn released(
    ix: Index,
    path: Seq<char>,
    has_tree: bool,
    held: Seq<Seq<u8>>,
    now: i64,
) -> Index {
    let i = db::shared(ix, path);
    if !has_tree || i < 0 {
        ix
    } else {
        let f = ix.files[i];
        Index {
            files: ix.files.update(i, File { chunks: kept(f.chunks, held), ..f }),
            chunks: db::all_unlinked(ix.chunks, gone(f.chunks, held), now),
            ..ix
        }
    }
}

/// Whether a path holds a live file in the shared area.
pub open spec fn live(ix: Index, path: Seq<char>) -> bool {
    let i = db::shared(ix, path);
    i >= 0 && ix.files[i].deleted_at is None
}

/// Files with a path that were deleted, brought back.
pub open spec fn brought_back(
    files: Seq<File>,
    path: Seq<char>,
    vector: Counts,
    by: Seq<u8>,
    now: i64,
) -> Seq<File> {
    Seq::new(
        files.len(),
        |i: int|
            if files[i].path == path && files[i].deleted_at is Some {
                File {
                    deleted_at: None,
                    updated_at: now,
                    vector,
                    modified_by: Some(by),
                    ..files[i]
                }
            } else {
                files[i]
            },
    )
}

/// Whether any file with the path is deleted.
pub open spec fn restorable(files: Seq<File>, path: Seq<char>) -> bool {
    exists|i: int|
        0 <= i < files.len() && (#[trigger] files[i]).path == path && files[i].deleted_at is Some
}

impl Db {
    /// Write a tombstone, creating the row if this device never held the file.
    pub fn tombstone(&mut self, path: &str, stamp: &Stamp<'_>, now: i64)
        requires
            old(self).wf(),
            old(self).counter < u64::MAX,
            store::next_id(old(self)@.files) <= i64::MAX,
        ensures
            final(self).wf(),
            final(self)@ == tombstoned(old(self)@, path@, *stamp, now),
    {
        let (vector, modified_by, modified_at) = self.allot(path, stamp, now);
        proof {
            db::find_finds(self@.files, path@, None);
        }
        match self.position(path, &None) {
            Some(i) => {
                let mut row: FileRow = self.copy_row(i);
                row.deleted_at = Some(modified_at);
                row.updated_at = modified_at;
                row.vector = vector;
                row.modified_by = Some(modified_by);
                self.retouch(i, row);
            },
            None => {
                let id: i64 = self.new_id();
                let zero: ContentHash = [0u8; 32];
                let row: FileRow = FileRow {
                    id,
                    path: path.to_owned(),
                    scope: None,
                    size: 0,
                    content_hash: zero,
                    mtime_ns: 0,
                    created_at: now,
                    updated_at: modified_at,
                    deleted_at: Some(modified_at),
                    vector,
                    modified_by: Some(modified_by),
                    materialised: true,
                    touched_at: 0,
                    wanted: false,
                    chunks: Vec::new(),
                };
                proof {
                    assert(zero@ =~= no_hash());
                    assert(db::hashes(row.chunks@) =~= Seq::<Seq<u8>>::empty());
                }
                self.add_row(row);
            },
        }
    }

    /// Mark a file deleted.
    ///
    /// Content the *folder* was holding leaves with the file, so the tombstone
    /// cannot keep it restorable however long it is held, and a reference to a
    /// payload that no longer exists is the index claiming content it cannot
    /// produce. Those references are released here.
    pub fn delete_file(&mut self, path: &str, disk: &Disk, now: i64) -> (result: Result<(), Error>)
        requires
            old(self).wf(),
            old(self).counter < u64::MAX,
            store::next_id(old(self)@.files) <= i64::MAX,
        ensures
            final(self).wf(),
            match result {
                Ok(_) => {
                    &&& live(old(self)@, path@)
                    &&& promises::is_deleted_since(final(self)@.files, path@, now)
                    &&& final(self)@ == lifecycle::deleted(old(self)@, path@, *disk, now)
                },
                Err(e) => {
                    &&& !live(old(self)@, path@)
                    &&& e@ == (Fault::NotFound { path: path@ })
                    &&& final(self)@ == old(self)@
                },
            },
    {
        let there: bool = match self.position(path, &None) {
            Some(i) => self.files[i].deleted_at.is_none(),
            None => false,
        };
        if !there {
            return Err(Error::NotFound { path: path.to_owned() });
        }
        let ghost before = self@;
        self.tombstone(path, &Stamp::Local, now);
        self.release_unbacked(path, disk, now);
        proof {
            promises::found_is_standing(before.files, path@);
            promises::law_a_deletion_is_recorded_as_it_was_made(before, path@, *disk, now);
        }
        Ok(())
    }

    /// Drop a tombstone's references to payloads nothing holds any more.
    ///
    /// Only the ones with no payload: a chunk the chunk store really has is
    /// still restorable and keeps its reference for the retention window.
    fn release_unbacked(&mut self, path: &str, disk: &Disk, now: i64)
        requires
            old(self).wf(),
        ensures
            final(self).wf(),
            final(self)@ == released(
                old(self)@,
                path@,
                disk.has_tree,
                db::hashes(disk.held@),
                now,
            ),
    {
        if !disk.has_tree {
            return;
        }
        proof {
            db::find_finds(self@.files, path@, None);
        }
        match self.position(path, &None) {
            None => {},
            Some(i) => {
                let mut row: FileRow = self.copy_row(i);
                let (keep, drop) = split(&row.chunks, &disk.held);
                row.chunks = keep;
                self.unlink_all(&drop, now);
                self.retouch(i, row);
            },
        }
    }

    /// Undo a deletion, provided garbage collection has not yet expired it.
    pub fn restore_file(&mut self, path: &str, now: i64) -> (result: Result<(), Error>)
        requires
            old(self).wf(),
            old(self).counter < u64::MAX,
        ensures
            final(self).wf(),
            final(self)@ == lifecycle::restored(old(self)@, path@, now),
            match result {
                Ok(_) => restorable(old(self)@.files, path@),
                Err(e) => !restorable(old(self)@.files, path@) && e@ == (Fault::NotFound {
                    path: path@,
                }),
            },
    {
        let ghost before = self@;
        let ghost vector_view = store::local_vector(before, path@);
        let (vector, device) = self.next_local_vector(path);
        let mut found: bool = false;
        let mut i: usize = 0;
        let ghost done = brought_back(before.files, path@, vector_view, before.device, now);
        while i < self.files.len()
            invariant
                i <= self.files@.len() == before.files.len(),
                self.wf(),
                self@ == (Index { files: self@.files, counter: (before.counter + 1) as u64, ..before }),
                vector@ == vector_view,
                device@ == before.device,
                done == brought_back(before.files, path@, vector_view, before.device, now),
                forall|j: int|
                    #![trigger self@.files[j]]
                    0 <= j < i ==> self@.files[j] == done[j],
                forall|j: int|
                    #![trigger self@.files[j]]
                    i <= j < before.files.len() ==> self@.files[j] == before.files[j],
                found == exists|j: int|
                    0 <= j < i && (#[trigger] before.files[j]).path == path@
                        && before.files[j].deleted_at is Some,
            decreases self.files@.len() - i,
        {
            assert(self@.files[i as int] == before.files[i as int]);
            if crate::text::same_text(&self.files[i].path, path)
                && self.files[i].deleted_at.is_some() {
                let mut row: FileRow = self.copy_row(i);
                row.deleted_at = None;
                row.updated_at = now;
                row.vector = vector.clone();
                row.modified_by = Some(device);
                self.retouch(i, row);
                found = true;
                assert(before.files[i as int].path == path@);
            }
            assert(self@.files.len() == before.files.len());
            i += 1;
        }
        assert(self@.files =~= done);
        if found {
            Ok(())
        } else {
            Err(Error::NotFound { path: path.to_owned() })
        }
    }
}

/// Parts a list into what is held and what is not.
fn split(list: &Vec<ContentHash>, held: &Vec<ContentHash>) -> (parts: (
    Vec<ContentHash>,
    Vec<ContentHash>,
))
    ensures
        db::hashes(parts.0@) == kept(db::hashes(list@), db::hashes(held@)),
        db::hashes(parts.1@) == gone(db::hashes(list@), db::hashes(held@)),
{
    let ghost all = db::hashes(list@);
    let ghost h = db::hashes(held@);
    let mut keep: Vec<ContentHash> = Vec::new();
    let mut drop: Vec<ContentHash> = Vec::new();
    let mut i: usize = 0;
    assert(db::hashes(keep@) =~= kept(all.take(0), h));
    assert(db::hashes(drop@) =~= gone(all.take(0), h));
    while i < list.len()
        invariant
            i <= list@.len(),
            all == db::hashes(list@),
            h == db::hashes(held@),
            db::hashes(keep@) == kept(all.take(i as int), h),
            db::hashes(drop@) == gone(all.take(i as int), h),
        decreases list@.len() - i,
    {
        let ghost k = db::hashes(keep@);
        let ghost g = db::hashes(drop@);
        proof {
            assert(all.take(i + 1).drop_last() =~= all.take(i as int));
            assert(all.take(i + 1).last() == list@[i as int]@);
        }
        if has_hash(held, &list[i]) {
            keep.push(list[i]);
            assert(db::hashes(keep@) =~= k.push(list@[i as int]@));
        } else {
            drop.push(list[i]);
            assert(db::hashes(drop@) =~= g.push(list@[i as int]@));
        }
        i += 1;
    }
    assert(all.take(i as int) =~= all);
    (keep, drop)
}

} // verus!
