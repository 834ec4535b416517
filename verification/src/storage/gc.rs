//! Garbage collection.
//!
//! Deduplication is what makes deletion hard. A chunk may be referenced by many
//! files and by many versions of the same file, so "delete the file" cannot mean
//! "delete its chunks". Getting this wrong destroys data belonging to a file
//! nobody touched, and does it silently.
//!
//! Collection runs in two stages, separated because they answer different
//! questions.
//!
//! **Stage 1: expire tombstones.** A deleted file keeps its row and its chunk
//! references for the retention window, which is what makes undelete possible.
//! Past that window the row and its links are removed.
//!
//! **Stage 2: reclaim chunks.** Any chunk now referenced by nothing, and
//! unreferenced for longer than the retention window, is removed from disk. The
//! second condition matters for chunks orphaned by an *edit* rather than a
//! deletion: the window is what keeps the previous version recoverable.
//!
//! The two windows compose rather than overlap: the worst case before space is
//! reclaimed is twice the configured window. That costs disk, where the other
//! direction would cost data.

use vstd::prelude::*;

use super::chunker::ContentHash;
use super::db;
use super::db::{ChunkFacts, ChunkRow, Db, File, FileRow, Index};
use super::refcount;
use crate::keyed;

verus! {

#[derive(Debug, Clone, Copy, PartialEq, Eq, Structural)]
pub struct GcStats {
    /// Deleted files whose retention window expired and are now gone for good.
    pub tombstones_expired: usize,
    pub chunks_removed: usize,
    /// On-disk bytes freed.
    pub bytes_reclaimed: u64,
}

impl Default for GcStats {
    fn default() -> (stats: Self)
        ensures
            stats == (GcStats { tombstones_expired: 0, chunks_removed: 0, bytes_reclaimed: 0 }),
    {
        GcStats { tombstones_expired: 0, chunks_removed: 0, bytes_reclaimed: 0 }
    }
}

/// Whether a file is a tombstone that has outlived the window.
pub open spec fn outlived(f: File, cutoff: i64) -> bool {
    f.deleted_at matches Some(at) && at <= cutoff
}

/// The files that stay.
pub open spec fn survivors(files: Seq<File>, cutoff: i64) -> Seq<File>
    decreases files.len(),
{
    if files.len() == 0 {
        Seq::empty()
    } else if outlived(files.last(), cutoff) {
        survivors(files.drop_last(), cutoff)
    } else {
        survivors(files.drop_last(), cutoff).push(files.last())
    }
}

/// The chunks once the files that do not stay have let go of them.
pub open spec fn let_go(
    chunks: Map<Seq<u8>, ChunkFacts>,
    files: Seq<File>,
    cutoff: i64,
    now: i64,
) -> Map<Seq<u8>, ChunkFacts>
    decreases files.len(),
{
    if files.len() == 0 {
        chunks
    } else {
        let before = let_go(chunks, files.drop_last(), cutoff, now);
        if outlived(files.last(), cutoff) {
            db::all_unlinked(before, files.last().chunks, now)
        } else {
            before
        }
    }
}

/// The index without the tombstones that have outlived the window.
pub open spec fn expired(ix: Index, cutoff: i64, now: i64) -> Index {
    Index {
        files: survivors(ix.files, cutoff),
        chunks: let_go(ix.chunks, ix.files, cutoff, now),
        ..ix
    }
}

/// Whether a chunk is past recovery.
pub open spec fn past_recovery(c: ChunkFacts, cutoff: i64) -> bool {
    c.refcount == 0 && (c.unreferenced_at matches Some(at) && at <= cutoff)
}

/// The chunks that stay.
pub open spec fn remaining(chunks: Map<Seq<u8>, ChunkFacts>, cutoff: i64) -> Map<
    Seq<u8>,
    ChunkFacts,
> {
    chunks.restrict(chunks.dom().filter(|h: Seq<u8>| !past_recovery(chunks[h], cutoff)))
}

/// The index after a collection.
pub open spec fn collected(ix: Index, cutoff: i64, now: i64) -> Index {
    let left = expired(ix, cutoff, now);
    Index { chunks: remaining(left.chunks, cutoff), ..left }
}

/// What the chunks of a list take on disk.
pub open spec fn taken_by(list: Seq<Seq<u8>>, chunks: Map<Seq<u8>, ChunkFacts>) -> nat
    decreases list.len(),
{
    if list.len() == 0 {
        0
    } else {
        taken_by(list.drop_last(), chunks) + chunks[list.last()].stored_size as nat
    }
}

/// The list names each chunk that is removed once.
pub open spec fn names_the_removed(
    list: Seq<Seq<u8>>,
    chunks: Map<Seq<u8>, ChunkFacts>,
    cutoff: i64,
) -> bool {
    &&& list.no_duplicates()
    &&& forall|h: Seq<u8>| #[trigger]
        list.contains(h) <==> chunks.contains_key(h) && past_recovery(chunks[h], cutoff)
}

impl Db {
    /// Stage 1.
    fn expire(&mut self, cutoff: i64, now: i64) -> (count: usize)
        requires
            old(self).wf(),
        ensures
            final(self).wf(),
            final(self)@ == expired(old(self)@, cutoff, now),
            count == old(self)@.files.len() - final(self)@.files.len(),
            db::row_total(final(self).chunks@) == db::row_total(old(self).chunks@),
    {
        let ghost before = self@;
        let ghost all = before.files;
        let len: usize = self.files.len();
        let mut count: usize = 0;
        let mut i: usize = 0;
        let ghost mut k: int = 0;
        proof {
            assert(survivors(all.take(0), cutoff) + all.skip(0) =~= all);
            assert(let_go(before.chunks, all.take(0), cutoff, now) == before.chunks);
        }
        while i < self.files.len()
            invariant
                0 <= k <= all.len(),
                i == survivors(all.take(k), cutoff).len(),
                i + count == k,
                i <= self.files@.len(),
                self.files@.len() + count == all.len() <= usize::MAX,
                self.wf(),
                all == before.files,
                self@ == (Index {
                    files: survivors(all.take(k), cutoff) + all.skip(k),
                    chunks: let_go(before.chunks, all.take(k), cutoff, now),
                    ..before
                }),
                db::row_total(self.chunks@) == db::row_total(old(self).chunks@),
            decreases all.len() - k,
        {
            proof {
                assert(self@.files[i as int] == all[k]);
                assert(all.take(k + 1).drop_last() =~= all.take(k));
                assert(all.take(k + 1).last() == all[k]);
            }
            let gone: bool = match self.files[i].deleted_at {
                Some(at) => at <= cutoff,
                None => false,
            };
            if gone {
                let ghost files = self@.files;
                let row: FileRow = self.files.remove(i);
                proof {
                    assert(row@ == all[k]);
                    assert(self@.files =~= files.remove(i as int));
                    distinct_after_remove(files, i as int);
                    assert(files.remove(i as int) =~= survivors(all.take(k + 1), cutoff)
                        + all.skip(k + 1));
                }
                self.unlink_all(&row.chunks, now);
                count += 1;
            } else {
                assert(survivors(all.take(k), cutoff) + all.skip(k) =~= survivors(
                    all.take(k + 1),
                    cutoff,
                ) + all.skip(k + 1));
                i += 1;
            }
            proof {
                k = k + 1;
            }
        }
        proof {
            assert(all.take(k) =~= all);
            assert(survivors(all.take(k), cutoff) + all.skip(k) =~= survivors(all, cutoff));
        }
        count
    }
}

/// Reclaim space, keeping anything deleted or superseded within `retention`
/// seconds. Names the payloads to remove from disk before the changed index
/// is kept.
pub fn collect(db: &mut Db, retention: u64, now: i64) -> (result: (GcStats, Vec<ContentHash>))
    requires
        old(db).wf(),
        retention <= i64::MAX,
        now - retention >= i64::MIN,
        db::row_total(old(db).chunks@) <= u64::MAX,
    ensures
        final(db).wf(),
        forall|f: File| #[trigger]
            final(db)@.files.contains(f) <==> old(db)@.files.contains(f) && !(
            f.deleted_at matches Some(at) && at <= now - retention),
        ({
            let cutoff = (now - retention) as i64;
            let left = expired(old(db)@, cutoff, now);
            let removed = db::hashes(result.1@);
            &&& final(db)@ == collected(old(db)@, cutoff, now)
            &&& names_the_removed(removed, left.chunks, cutoff)
            &&& result.0.tombstones_expired == old(db)@.files.len() - left.files.len()
            &&& result.0.chunks_removed == removed.len()
            &&& result.0.bytes_reclaimed == taken_by(removed, left.chunks)
        }),
{
    let cutoff: i64 = now - retention as i64;
    let tombstones_expired: usize = db.expire(cutoff, now);
    let ghost left = db@;
    let ghost rows = db.chunks@;
    let mut removed: Vec<ContentHash> = Vec::new();
    let mut bytes: u64 = 0;
    let mut i: usize = 0;
    proof {
        assert(db@.chunks =~= left.chunks.remove_keys(Set::empty()));
    }
    while i < db.chunks.len()
        invariant
            i <= db.chunks@.len(),
            db.wf(),
            db@ == (Index { chunks: db@.chunks, ..left }),
            db::hashes(removed@).no_duplicates(),
            forall|h: Seq<u8>| #[trigger]
                db::hashes(removed@).contains(h) ==> left.chunks.contains_key(h)
                    && past_recovery(left.chunks[h], cutoff) && !db@.chunks.contains_key(h),
            forall|h: Seq<u8>| #[trigger]
                db@.chunks.contains_key(h) ==> left.chunks.contains_key(h) && db@.chunks[h]
                    == left.chunks[h],
            forall|h: Seq<u8>| #[trigger]
                left.chunks.contains_key(h) ==> db@.chunks.contains_key(h) || db::hashes(
                    removed@,
                ).contains(h),
            forall|j: int|
                #![trigger db.chunks@[j]]
                0 <= j < i ==> !past_recovery(db.chunks@[j].facts(), cutoff),
            bytes == taken_by(db::hashes(removed@), left.chunks),
            bytes + db::row_total(db.chunks@) <= u64::MAX,
        decreases db.chunks@.len() - i,
    {
        let row: ChunkRow = db.chunks[i];
        let gone: bool = row.refcount == 0 && match row.unreferenced_at {
            Some(at) => at <= cutoff,
            None => false,
        };
        if gone {
            let ghost s = db::chunk_pairs(db.chunks@);
            let ghost list = db::hashes(removed@);
            let ghost here = db@.chunks;
            proof {
                keyed::entry_in_map(s, i as int);
                keyed::removed(s, i as int);
                total_of_remove(db.chunks@, i as int);
                assert(here.contains_key(row.hash@));
            }
            let dropped: ChunkRow = db.chunks.remove(i);
            removed.push(row.hash);
            bytes = bytes + row.stored_size;
            proof {
                let h = row.hash@;
                assert(db::chunk_pairs(db.chunks@) =~= s.remove(i as int));
                assert(db::hashes(removed@) =~= list.push(h));
                assert(list.push(h).drop_last() =~= list);
                assert forall|g: Seq<u8>| #[trigger] list.push(h).contains(g) <==> list.contains(
                    g,
                ) || g == h by {
                    if list.contains(g) {
                        let n = choose|n: int| 0 <= n < list.len() && list[n] == g;
                        assert(list.push(h)[n] == g);
                    }
                    if g == h {
                        assert(list.push(h)[list.len() as int] == g);
                    }
                }
                assert(!list.contains(h));
            }
        } else {
            i += 1;
        }
    }
    proof {
        let list = db::hashes(removed@);
        let s = db::chunk_pairs(db.chunks@);
        assert forall|h: Seq<u8>| #[trigger] db@.chunks.contains_key(h) implies !past_recovery(
            left.chunks[h],
            cutoff,
        ) by {
            keyed::key_in_map(s, h);
            let n = keyed::position(s, h);
            keyed::entry_in_map(s, n);
            assert(db.chunks@[n].facts() == db@.chunks[h]);
        }
        assert(db@.chunks =~= remaining(left.chunks, cutoff));
        assert forall|h: Seq<u8>| #[trigger] list.contains(h) <==> left.chunks.contains_key(h)
            && past_recovery(left.chunks[h], cutoff) by {
            if left.chunks.contains_key(h) && past_recovery(left.chunks[h], cutoff) {
                assert(!db@.chunks.contains_key(h));
            }
        }
    }
    let chunks_removed: usize = removed.len();
    proof {
        law_a_collection_takes_only_old_tombstones(old(db)@, cutoff, now);
    }
    (GcStats { tombstones_expired, chunks_removed, bytes_reclaimed: bytes }, removed)
}

proof fn distinct_after_remove(files: Seq<File>, i: int)
    requires
        db::files_distinct(files),
        0 <= i < files.len(),
    ensures
        db::files_distinct(files.remove(i)),
{
    let next = files.remove(i);
    assert forall|a: int, b: int| #![trigger next[a], next[b]] 0 <= a < b < next.len() implies next[a].id
        < next[b].id && !(next[a].path == next[b].path && next[a].scope == next[b].scope) by {
        let x = if a < i { a } else { a + 1 };
        let y = if b < i { b } else { b + 1 };
        assert(next[a] == files[x] && next[b] == files[y]);
    }
}

proof fn total_of_remove(rows: Seq<ChunkRow>, i: int)
    requires
        0 <= i < rows.len(),
    ensures
        db::row_total(rows) == db::row_total(rows.remove(i)) + rows[i].stored_size,
    decreases rows.len(),
{
    if i == rows.len() - 1 {
        assert(rows.remove(i) =~= rows.drop_last());
    } else {
        total_of_remove(rows.drop_last(), i);
        assert(rows.remove(i).drop_last() =~= rows.drop_last().remove(i));
        assert(rows.remove(i).last() == rows.last());
    }
}

/// A payload that lies in the chunk store.
#[derive(Debug, Clone, Copy)]
pub struct OnDisk {
    pub hash: ContentHash,
    pub size: u64,
}

/// The payloads that the index does not know.
pub open spec fn strays(found: Seq<OnDisk>, chunks: Map<Seq<u8>, ChunkFacts>) -> Seq<OnDisk>
    decreases found.len(),
{
    if found.len() == 0 {
        Seq::empty()
    } else if chunks.contains_key(found.last().hash@) {
        strays(found.drop_last(), chunks)
    } else {
        strays(found.drop_last(), chunks).push(found.last())
    }
}

/// What payloads take on disk.
pub open spec fn disk_total(found: Seq<OnDisk>) -> nat
    decreases found.len(),
{
    if found.len() == 0 {
        0
    } else {
        disk_total(found.drop_last()) + found.last().size as nat
    }
}

proof fn strays_are_some(found: Seq<OnDisk>, chunks: Map<Seq<u8>, ChunkFacts>)
    ensures
        disk_total(strays(found, chunks)) <= disk_total(found),
        strays(found, chunks).len() <= found.len(),
    decreases found.len(),
{
    if found.len() > 0 {
        strays_are_some(found.drop_last(), chunks);
        let before = strays(found.drop_last(), chunks);
        assert(before.push(found.last()).drop_last() =~= before);
    }
}

proof fn total_grows(found: Seq<OnDisk>, n: int)
    requires
        0 <= n <= found.len(),
    ensures
        disk_total(found.take(n)) <= disk_total(found),
    decreases found.len() - n,
{
    if n < found.len() {
        total_grows(found, n + 1);
        assert(found.take(n + 1).drop_last() =~= found.take(n));
    } else {
        assert(found.take(n) =~= found);
    }
}

/// Remove payloads on disk that the index does not know about.
///
/// These are the residue of writes interrupted between storing a payload and
/// recording it, and of collections interrupted before they were kept. Wasted
/// space rather than corruption. Names the payloads to remove.
pub fn sweep_orphans(db: &Db, found: &Vec<OnDisk>) -> (result: (GcStats, Vec<ContentHash>))
    requires
        db.wf(),
        disk_total(found@) <= u64::MAX,
    ensures
        ({
            let gone = strays(found@, db@.chunks);
            &&& result.0 == (GcStats {
                tombstones_expired: 0,
                chunks_removed: gone.len() as usize,
                bytes_reclaimed: disk_total(gone) as u64,
            })
            &&& db::hashes(result.1@) == gone.map_values(|p: OnDisk| p.hash@)
        }),
{
    let mut stats: GcStats = GcStats::default();
    let mut gone: Vec<ContentHash> = Vec::new();
    let mut i: usize = 0;
    assert(strays(found@.take(0), db@.chunks) =~= Seq::<OnDisk>::empty());
    while i < found.len()
        invariant
            i <= found@.len(),
            db.wf(),
            disk_total(found@) <= u64::MAX,
            gone@.len() == strays(found@.take(i as int), db@.chunks).len(),
            forall|k: int|
                #![trigger gone@[k]]
                0 <= k < gone@.len() ==> gone@[k]@ == strays(
                    found@.take(i as int),
                    db@.chunks,
                )[k].hash@,
            stats.tombstones_expired == 0,
            stats.chunks_removed == gone@.len(),
            stats.bytes_reclaimed == disk_total(strays(found@.take(i as int), db@.chunks)),
        decreases found@.len() - i,
    {
        let payload: OnDisk = found[i];
        proof {
            let next = found@.take(i + 1);
            assert(next.drop_last() =~= found@.take(i as int));
            assert(next.last() == payload);
            total_grows(found@, i + 1);
            strays_are_some(next, db@.chunks);
            let before = strays(found@.take(i as int), db@.chunks);
            assert(before.push(payload).drop_last() =~= before);
        }
        if !db.has_chunk(&payload.hash) {
            stats.bytes_reclaimed = stats.bytes_reclaimed + payload.size;
            stats.chunks_removed = stats.chunks_removed + 1;
            gone.push(payload.hash);
        }
        i += 1;
    }
    proof {
        assert(found@.take(i as int) =~= found@);
        assert(db::hashes(gone@) =~= strays(found@, db@.chunks).map_values(|p: OnDisk| p.hash@));
    }
    (stats, gone)
}

/// One by one, a collection takes files out.
proof fn expiring_keeps_the_counts(ix: Index, cutoff: i64, now: i64, k: int)
    requires
        db::counted(ix),
        db::all_known(ix),
        0 <= k <= ix.files.len(),
    ensures
        ({
            let left = Index {
                files: survivors(ix.files.take(k), cutoff) + ix.files.skip(k),
                chunks: let_go(ix.chunks, ix.files.take(k), cutoff, now),
                ..ix
            };
            db::counted(left) && db::all_known(left)
        }),
    decreases k,
{
    let all = ix.files;
    if k == 0 {
        assert(survivors(all.take(0), cutoff) + all.skip(0) =~= all);
        assert(let_go(ix.chunks, all.take(0), cutoff, now) == ix.chunks);
    } else {
        expiring_keeps_the_counts(ix, cutoff, now, k - 1);
        let before = Index {
            files: survivors(all.take(k - 1), cutoff) + all.skip(k - 1),
            chunks: let_go(ix.chunks, all.take(k - 1), cutoff, now),
            ..ix
        };
        let after = Index {
            files: survivors(all.take(k), cutoff) + all.skip(k),
            chunks: let_go(ix.chunks, all.take(k), cutoff, now),
            ..ix
        };
        assert(all.take(k).drop_last() =~= all.take(k - 1));
        assert(all.take(k).last() == all[k - 1]);
        let n = survivors(all.take(k - 1), cutoff).len() as int;
        assert(before.files[n] == all[k - 1]);
        if outlived(all[k - 1], cutoff) {
            refcount::law_removing_a_file_keeps_the_counts(before, n, now);
            assert(after.files =~= before.files.remove(n));
            assert(after == refcount::without_file(before, n, now));
            assert forall|i: int, j: int|
                #![trigger after.files[i].chunks[j]]
                0 <= i < after.files.len() && 0 <= j < after.files[i].chunks.len() implies after.chunks.contains_key(
                after.files[i].chunks[j],
            ) by {
                let x = if i < n {
                    i
                } else {
                    i + 1
                };
                assert(after.files[i] == before.files[x]);
                assert(before.chunks.contains_key(before.files[x].chunks[j]));
            }
        } else {
            assert(after.files =~= before.files);
        }
    }
}

/// A file that stays is one of the files that were there, and did not outlive
/// the window.
proof fn survivors_are_some(files: Seq<File>, cutoff: i64)
    ensures
        forall|i: int|
            #![trigger survivors(files, cutoff)[i]]
            0 <= i < survivors(files, cutoff).len() ==> files.contains(survivors(files, cutoff)[i])
                && !outlived(survivors(files, cutoff)[i], cutoff),
        forall|j: int|
            #![trigger files[j]]
            0 <= j < files.len() && !outlived(files[j], cutoff) ==> survivors(
                files,
                cutoff,
            ).contains(files[j]),
    decreases files.len(),
{
    if files.len() > 0 {
        let rest = files.drop_last();
        survivors_are_some(rest, cutoff);
        let some = survivors(rest, cutoff);
        let all = survivors(files, cutoff);
        assert forall|i: int| #![trigger all[i]] 0 <= i < all.len() implies files.contains(all[i])
            && !outlived(all[i], cutoff) by {
            if i < some.len() {
                assert(all[i] == some[i]);
                let j = choose|j: int| 0 <= j < rest.len() && rest[j] == some[i];
                assert(files[j] == all[i]);
            } else {
                assert(files[files.len() - 1] == all[i]);
            }
        }
        assert forall|j: int|
            #![trigger files[j]]
            0 <= j < files.len() && !outlived(files[j], cutoff) implies all.contains(files[j]) by {
            if j < rest.len() {
                assert(rest[j] == files[j]);
                let i = choose|i: int| 0 <= i < some.len() && some[i] == rest[j];
                assert(all[i] == files[j]);
            } else {
                assert(all[some.len() as int] == files[j]);
            }
        }
    }
}

/// A collection never removes a chunk that some file still references, and it
/// leaves every count right: whatever file remains, all of its chunks remain.
pub proof fn law_collection_keeps_what_is_referenced(ix: Index, cutoff: i64, now: i64)
    requires
        db::counted(ix),
        db::all_known(ix),
    ensures
        db::counted(collected(ix, cutoff, now)),
        db::all_known(collected(ix, cutoff, now)),
{
    let left = expired(ix, cutoff, now);
    let after = collected(ix, cutoff, now);
    let n = ix.files.len() as int;
    expiring_keeps_the_counts(ix, cutoff, now, n);
    assert(ix.files.take(n) =~= ix.files);
    assert(survivors(ix.files, cutoff) + ix.files.skip(n) =~= survivors(ix.files, cutoff));
    assert(db::counted(left) && db::all_known(left));
    assert forall|i: int, j: int|
        #![trigger after.files[i].chunks[j]]
        0 <= i < after.files.len() && 0 <= j < after.files[i].chunks.len() implies after.chunks.contains_key(
        after.files[i].chunks[j],
    ) by {
        let h = left.files[i].chunks[j];
        assert(left.chunks.contains_key(h));
        refcount::link_means_use(left.files, h);
        assert(left.files[i].chunks.contains(h));
    }
    assert forall|h: Seq<u8>| #[trigger] after.chunks.contains_key(h) implies {
        &&& after.chunks[h].refcount == db::links(after.files, h)
        &&& after.chunks[h].refcount == 0 <==> after.chunks[h].unreferenced_at is Some
    } by {
        assert(left.chunks.contains_key(h));
    }
}

/// Every chunk that came out of use after the cutoff is kept, and so is one that
/// comes out of use with the collection itself.
pub proof fn law_collection_keeps_chunks_within_the_window(
    ix: Index,
    cutoff: i64,
    now: i64,
    h: Seq<u8>,
)
    requires
        cutoff < now,
        ix.chunks.contains_key(h),
        !past_recovery(ix.chunks[h], cutoff),
    ensures
        collected(ix, cutoff, now).chunks.contains_key(h),
{
    letting_go_restarts_the_clock(ix.chunks, ix.files, cutoff, now, h);
}

/// What files let go of is either untouched or came out of use just now.
proof fn letting_go_restarts_the_clock(
    chunks: Map<Seq<u8>, ChunkFacts>,
    files: Seq<File>,
    cutoff: i64,
    now: i64,
    h: Seq<u8>,
)
    ensures
        let_go(chunks, files, cutoff, now).contains_key(h) == chunks.contains_key(h),
        chunks.contains_key(h) ==> {
            let c = let_go(chunks, files, cutoff, now)[h];
            c == chunks[h] || c.unreferenced_at == Some(now) || c.unreferenced_at is None
        },
    decreases files.len(),
{
    if files.len() > 0 {
        letting_go_restarts_the_clock(chunks, files.drop_last(), cutoff, now, h);
        let before = let_go(chunks, files.drop_last(), cutoff, now);
        if outlived(files.last(), cutoff) {
            unlinking_restarts_the_clock(before, files.last().chunks, now, h);
        }
    }
}

proof fn unlinking_restarts_the_clock(
    chunks: Map<Seq<u8>, ChunkFacts>,
    list: Seq<Seq<u8>>,
    now: i64,
    h: Seq<u8>,
)
    ensures
        db::all_unlinked(chunks, list, now).contains_key(h) == chunks.contains_key(h),
        chunks.contains_key(h) ==> {
            let c = db::all_unlinked(chunks, list, now)[h];
            c == chunks[h] || c.unreferenced_at == Some(now) || c.unreferenced_at is None
        },
    decreases list.len(),
{
    if list.len() > 0 {
        unlinking_restarts_the_clock(chunks, list.drop_last(), now, h);
    }
}

/// A live file, and one deleted after the cutoff, is kept as it is.
pub proof fn law_collection_keeps_files_within_the_window(
    ix: Index,
    cutoff: i64,
    now: i64,
    i: int,
)
    requires
        0 <= i < ix.files.len(),
        !outlived(ix.files[i], cutoff),
    ensures
        collected(ix, cutoff, now).files.contains(ix.files[i]),
{
    survivors_are_some(ix.files, cutoff);
}

/// A collection takes exactly the tombstones that are as old as the window or
/// older: every file but those is there afterwards, as it was, and nothing else.
/// What it knows besides files and chunks stays.
pub proof fn law_a_collection_takes_only_old_tombstones(ix: Index, cutoff: i64, now: i64)
    ensures
        forall|f: File| #[trigger]
            collected(ix, cutoff, now).files.contains(f) <==> ix.files.contains(f) && !(
            f.deleted_at matches Some(at) && at <= cutoff),
        collected(ix, cutoff, now).counter == ix.counter,
        collected(ix, cutoff, now).device == ix.device,
        collected(ix, cutoff, now).replicas == ix.replicas,
        collected(ix, cutoff, now).reported == ix.reported,
        collected(ix, cutoff, now).history == ix.history,
        collected(ix, cutoff, now).peers == ix.peers,
{
    survivors_are_some(ix.files, cutoff);
    let all = survivors(ix.files, cutoff);
    assert forall|f: File| #[trigger] all.contains(f) <==> ix.files.contains(f) && !(
    f.deleted_at matches Some(at) && at <= cutoff) by {
        if all.contains(f) {
            let i = choose|i: int| 0 <= i < all.len() && all[i] == f;
            assert(ix.files.contains(all[i]));
        }
        if ix.files.contains(f) && !outlived(f, cutoff) {
            let j = choose|j: int| 0 <= j < ix.files.len() && ix.files[j] == f;
            assert(all.contains(ix.files[j]));
        }
    }
}

/// A chunk that no expired tombstone is made of stays as it is, unless nothing
/// has linked to it since the cutoff or longer; then it goes.
pub proof fn law_a_collection_takes_only_old_chunks(
    ix: Index,
    cutoff: i64,
    now: i64,
    h: Seq<u8>,
)
    requires
        ix.chunks.contains_key(h),
        forall|i: int|
            #![trigger ix.files[i]]
            0 <= i < ix.files.len() && ix.files[i].chunks.contains(h) ==> !(
            ix.files[i].deleted_at matches Some(at) && at <= cutoff),
    ensures
        collected(ix, cutoff, now).chunks.contains_key(h) <==> !(ix.chunks[h].refcount == 0 && (
        ix.chunks[h].unreferenced_at matches Some(at) && at <= cutoff)),
        collected(ix, cutoff, now).chunks.contains_key(h) ==> collected(
            ix,
            cutoff,
            now,
        ).chunks[h] == ix.chunks[h],
{
    untouched_by_expiry(ix.chunks, ix.files, cutoff, now, h);
}

proof fn untouched_by_expiry(
    chunks: Map<Seq<u8>, ChunkFacts>,
    files: Seq<File>,
    cutoff: i64,
    now: i64,
    h: Seq<u8>,
)
    requires
        forall|i: int|
            #![trigger files[i]]
            0 <= i < files.len() && files[i].chunks.contains(h) ==> !outlived(files[i], cutoff),
    ensures
        let_go(chunks, files, cutoff, now).contains_key(h) == chunks.contains_key(h),
        chunks.contains_key(h) ==> let_go(chunks, files, cutoff, now)[h] == chunks[h],
    decreases files.len(),
{
    if files.len() > 0 {
        let rest = files.drop_last();
        assert forall|i: int|
            #![trigger rest[i]]
            0 <= i < rest.len() && rest[i].chunks.contains(h) implies !outlived(
            rest[i],
            cutoff,
        ) by {
            assert(rest[i] == files[i]);
        }
        untouched_by_expiry(chunks, rest, cutoff, now, h);
        if outlived(files.last(), cutoff) {
            assert(files[files.len() - 1] == files.last());
            untouched_by_unlinking(let_go(chunks, rest, cutoff, now), files.last().chunks, now, h);
        }
    }
}

proof fn untouched_by_unlinking(
    chunks: Map<Seq<u8>, ChunkFacts>,
    list: Seq<Seq<u8>>,
    now: i64,
    h: Seq<u8>,
)
    requires
        !list.contains(h),
    ensures
        db::all_unlinked(chunks, list, now).contains_key(h) == chunks.contains_key(h),
        chunks.contains_key(h) ==> db::all_unlinked(chunks, list, now)[h] == chunks[h],
    decreases list.len(),
{
    if list.len() > 0 {
        let rest = list.drop_last();
        assert(list[list.len() - 1] == list.last());
        assert(!rest.contains(h)) by {
            if rest.contains(h) {
                let k = choose|k: int| 0 <= k < rest.len() && rest[k] == h;
                assert(list[k] == h);
            }
        }
        untouched_by_unlinking(chunks, rest, now, h);
    }
}

/// A sweep names exactly the payloads on disk that the index does not know.
pub proof fn law_a_sweep_takes_only_what_is_unknown(
    found: Seq<OnDisk>,
    chunks: Map<Seq<u8>, ChunkFacts>,
)
    ensures
        forall|p: OnDisk| #[trigger]
            strays(found, chunks).contains(p) <==> found.contains(p) && !chunks.contains_key(
                p.hash@,
            ),
    decreases found.len(),
{
    if found.len() > 0 {
        let rest = found.drop_last();
        law_a_sweep_takes_only_what_is_unknown(rest, chunks);
        let some = strays(rest, chunks);
        let all = strays(found, chunks);
        let last = found.last();
        assert forall|p: OnDisk| #[trigger] all.contains(p) <==> found.contains(p)
            && !chunks.contains_key(p.hash@) by {
            if found.contains(p) {
                let k = choose|k: int| 0 <= k < found.len() && found[k] == p;
                if k < rest.len() {
                    assert(rest[k] == p);
                }
            }
            if rest.contains(p) {
                let k = choose|k: int| 0 <= k < rest.len() && rest[k] == p;
                assert(found[k] == p);
            }
            assert(found[found.len() - 1] == last);
            if some.contains(p) {
                let k = choose|k: int| 0 <= k < some.len() && some[k] == p;
                assert(all[k] == p);
            }
            if all.contains(p) {
                let k = choose|k: int| 0 <= k < all.len() && all[k] == p;
                if k < some.len() {
                    assert(some[k] == p);
                }
            }
            if !chunks.contains_key(last.hash@) {
                assert(all[some.len() as int] == last);
            }
        }
    }
}

/// The payloads that a collection names are those of the chunks that the index knew
/// before it and does not know after it, and what they took is freed.
pub proof fn law_a_collection_names_what_it_removes(
    ix: Index,
    cutoff: i64,
    now: i64,
    list: Seq<Seq<u8>>,
    h: Seq<u8>,
)
    requires
        names_the_removed(list, expired(ix, cutoff, now).chunks, cutoff),
    ensures
        list.contains(h) <==> ix.chunks.contains_key(h) && !collected(
            ix,
            cutoff,
            now,
        ).chunks.contains_key(h),
        list.no_duplicates(),
{
    letting_go_restarts_the_clock(ix.chunks, ix.files, cutoff, now, h);
}

/// What chunks take on disk is the sum of what each takes.
pub proof fn law_what_is_freed_adds_up(
    list: Seq<Seq<u8>>,
    chunks: Map<Seq<u8>, ChunkFacts>,
    h: Seq<u8>,
)
    ensures
        taken_by(Seq::empty(), chunks) == 0,
        taken_by(list.push(h), chunks) == taken_by(list, chunks) + chunks[h].stored_size,
{
    assert(list.push(h).drop_last() =~= list);
}

/// What a sweep frees is the sum of what the payloads take.
pub proof fn law_what_is_swept_adds_up(found: Seq<OnDisk>, p: OnDisk)
    ensures
        disk_total(Seq::empty()) == 0,
        disk_total(found.push(p)) == disk_total(found) + p.size,
{
    assert(found.push(p).drop_last() =~= found);
}

} // verus!
