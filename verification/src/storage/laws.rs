//! What holds of storage as a whole, whatever is done to it.

use vstd::prelude::*;

use super::chunker;
use super::chunker::{ChunkRef, Manifest};
use super::db;
use super::db::{File, Index};
use super::gc;
use super::reading;
use super::reading::Evidence;
use super::refcount;
use super::removal;
use super::sealing;
use super::sealing::Opened;
use super::store;
use super::store::{Circumstances, Disk, Fate, Payload, Payloads, PutStats, Stamp};
use crate::sync::clock;
use crate::sync::clock::{Causality, Counts};

verus! {

/// The index is sound: every count is right, and every chunk that a file is made
/// of is known.
pub open spec fn sound(ix: Index) -> bool {
    db::counted(ix) && db::all_known(ix)
}

pub proof fn recording_all(ix: Index, list: Seq<(Seq<u8>, u64, u64)>, now: i64)
    requires
        sound(ix),
    ensures
        sound(Index { chunks: store::recorded(ix.chunks, list, now), ..ix }),
        forall|h: Seq<u8>| #[trigger]
            ix.chunks.contains_key(h) ==> store::recorded(ix.chunks, list, now).contains_key(h),
        forall|i: int|
            #![trigger list[i]]
            0 <= i < list.len() ==> store::recorded(ix.chunks, list, now).contains_key(list[i].0),
    decreases list.len(),
{
    if list.len() > 0 {
        let rest = list.drop_last();
        recording_all(ix, rest, now);
        let r = list.last();
        let middle = Index { chunks: store::recorded(ix.chunks, rest, now), ..ix };
        refcount::law_recording_a_chunk_keeps_the_counts(middle, r.0, r.1, r.2, now);
        assert forall|i: int| #![trigger list[i]] 0 <= i < list.len() implies store::recorded(
            ix.chunks,
            list,
            now,
        ).contains_key(list[i].0) by {
            if i < rest.len() {
                assert(rest[i] == list[i]);
            }
        }
    }
}

/// Each chunk of a file that is being written is known already, or recorded.
pub proof fn all_recorded(
    list: Seq<ChunkRef>,
    n: int,
    data: Seq<u8>,
    at: Circumstances,
    i: int,
)
    requires
        0 <= i < n <= list.len(),
    ensures
        at.known.contains(list[i].hash@) || exists|k: int|
            0 <= k < store::records(list, n, data, at).len() && (#[trigger] store::records(
                list,
                n,
                data,
                at,
            )[k]).0 == list[i].hash@,
    decreases n, i,
{
    let all = store::records(list, n, data, at);
    let before = store::records(list, n - 1, data, at);
    if i < n - 1 {
        all_recorded(list, n - 1, data, at, i);
        if !at.known.contains(list[i].hash@) {
            let k = choose|k: int|
                0 <= k < before.len() && (#[trigger] before[k]).0 == list[i].hash@;
            assert(all[k] == before[k]);
        }
    } else {
        match store::fate(list, i, at) {
            Fate::Repeated => {
                let j = choose|j: int| 0 <= j < i && (#[trigger] list[j]).hash@ == list[i].hash@;
                all_recorded(list, n, data, at, j);
            },
            Fate::Held => {},
            Fate::InTree => {
                assert(all[before.len() as int].0 == list[i].hash@);
            },
            Fate::Written => {
                assert(all[before.len() as int].0 == list[i].hash@);
            },
        }
    }
}

pub proof fn known_with_file(ix: Index, i: int, f: File, now: i64)
    requires
        db::counted(ix),
        db::all_known(ix),
        0 <= i < ix.files.len(),
        refcount::countable(ix.files.update(i, f)),
        forall|k: int|
            #![trigger f.chunks[k]]
            0 <= k < f.chunks.len() ==> ix.chunks.contains_key(f.chunks[k]),
    ensures
        sound(refcount::with_file(ix, i, f, now)),
{
    refcount::law_replacing_a_file_keeps_the_counts(ix, i, f, now);
    let after = refcount::with_file(ix, i, f, now);
    assert forall|j: int, k: int|
        #![trigger after.files[j].chunks[k]]
        0 <= j < after.files.len() && 0 <= k < after.files[j].chunks.len() implies after.chunks.contains_key(
        after.files[j].chunks[k],
    ) by {
        if j == i {
            assert(after.files[j] == f);
            assert(ix.chunks.contains_key(f.chunks[k]));
        } else {
            assert(after.files[j] == ix.files[j]);
            assert(ix.chunks.contains_key(ix.files[j].chunks[k]));
        }
    }
}

pub proof fn known_with_new_file(ix: Index, f: File)
    requires
        db::counted(ix),
        db::all_known(ix),
        refcount::countable(ix.files.push(f)),
        forall|k: int|
            #![trigger f.chunks[k]]
            0 <= k < f.chunks.len() ==> ix.chunks.contains_key(f.chunks[k]),
    ensures
        sound(refcount::with_new_file(ix, f)),
{
    refcount::law_adding_a_file_keeps_the_counts(ix, f);
    let after = refcount::with_new_file(ix, f);
    assert forall|j: int, k: int|
        #![trigger after.files[j].chunks[k]]
        0 <= j < after.files.len() && 0 <= k < after.files[j].chunks.len() implies after.chunks.contains_key(
        after.files[j].chunks[k],
    ) by {
        if j == ix.files.len() {
            assert(after.files[j] == f);
            assert(ix.chunks.contains_key(f.chunks[k]));
        } else {
            assert(after.files[j] == ix.files[j]);
            assert(ix.chunks.contains_key(ix.files[j].chunks[k]));
        }
    }
}

/// Changing what is recorded of a file besides its chunks keeps the index sound.
proof fn sound_when_retouched(ix: Index, i: int, f: File)
    requires
        sound(ix),
        0 <= i < ix.files.len(),
        f.chunks == ix.files[i].chunks,
    ensures
        sound(Index { files: ix.files.update(i, f), ..ix }),
{
    refcount::links_of_retouched(ix.files, i, f);
    let after = Index { files: ix.files.update(i, f), ..ix };
    assert forall|h: Seq<u8>| #[trigger] after.chunks.contains_key(h) implies {
        &&& after.chunks[h].refcount == db::links(after.files, h)
        &&& after.chunks[h].refcount == 0 <==> after.chunks[h].unreferenced_at is Some
    } by {
        assert(ix.chunks.contains_key(h));
    }
    assert forall|j: int, k: int|
        #![trigger after.files[j].chunks[k]]
        0 <= j < after.files.len() && 0 <= k < after.files[j].chunks.len() implies after.chunks.contains_key(
        after.files[j].chunks[k],
    ) by {
        assert(after.files[j].chunks == ix.files[j].chunks);
        assert(ix.chunks.contains_key(ix.files[j].chunks[k]));
    }
}

/// Writing a file keeps the index sound: no count drifts, and no file is made of
/// a chunk that the index does not know.
pub proof fn law_a_write_keeps_the_index_sound(
    before: Index,
    key: Seq<u8>,
    path: Seq<char>,
    m: Manifest,
    data: Seq<u8>,
    mtime_ns: i64,
    stamp: Stamp,
    payloads: Payloads,
    disk: Disk,
    now: i64,
    after: Index,
    stats: PutStats,
    sealed: Seq<Payload>,
)
    requires
        sound(before),
        refcount::countable(after.files),
        store::put_done(
            before,
            key,
            path,
            m,
            data,
            mtime_ns,
            stamp,
            payloads,
            disk,
            now,
            after,
            stats,
            sealed,
        ),
    ensures
        sound(after),
{
    let i = db::shared(before, path);
    db::find_finds(before.files, path, None);
    if payloads == Payloads::TrustIndex && store::already_stored(before, path, m) {
        sound_when_retouched(before, i, after.files[i]);
        assert(after == (Index { files: before.files.update(i, after.files[i]), ..before }));
    } else {
        let n = m.chunks@.len() as int;
        let at = store::circumstances(before, payloads, disk);
        let list = store::records(m.chunks@, n, data, at);
        let counted = store::allotted(before, stamp);
        assert(sound(counted)) by {
            assert forall|h: Seq<u8>| #[trigger] counted.chunks.contains_key(h) implies {
                &&& counted.chunks[h].refcount == db::links(counted.files, h)
                &&& counted.chunks[h].refcount == 0 <==> counted.chunks[h].unreferenced_at is Some
            } by {
                assert(before.chunks.contains_key(h));
            }
            assert forall|j: int, k: int|
                #![trigger counted.files[j].chunks[k]]
                0 <= j < counted.files.len() && 0 <= k
                    < counted.files[j].chunks.len() implies counted.chunks.contains_key(
                counted.files[j].chunks[k],
            ) by {
                assert(before.chunks.contains_key(before.files[j].chunks[k]));
            }
        }
        recording_all(counted, list, now);
        let known = Index { chunks: store::recorded(before.chunks, list, now), ..counted };
        let h = store::history(before, path, stamp, now);
        let id = store::next_id(before.files) as i64;
        let holding = disk.in_tree || !disk.has_tree;
        let f = store::written_file(
            if i >= 0 {
                Some(before.files[i])
            } else {
                None
            },
            id,
            path,
            m,
            mtime_ns,
            h,
            holding,
            now,
        );
        assert forall|k: int| #![trigger f.chunks[k]] 0 <= k < f.chunks.len() implies known.chunks.contains_key(
            f.chunks[k],
        ) by {
            all_recorded(m.chunks@, n, data, at, k);
            if at.known.contains(m.chunks@[k].hash@) {
                assert(before.chunks.contains_key(m.chunks@[k].hash@));
            } else {
                let r = choose|r: int|
                    0 <= r < list.len() && (#[trigger] list[r]).0 == m.chunks@[k].hash@;
                assert(known.chunks.contains_key(list[r].0));
            }
        }
        if i >= 0 {
            assert(after == refcount::with_file(known, i, f, now));
            known_with_file(known, i, f, now);
        } else {
            assert(after == refcount::with_new_file(known, f));
            known_with_new_file(known, f);
        }
    }
}

/// What is held and what is gone make up the whole list.
proof fn parts_of_a_list(list: Seq<Seq<u8>>, held: Seq<Seq<u8>>, h: Seq<u8>)
    ensures
        db::uses(removal::kept(list, held), h) + db::uses(removal::gone(list, held), h)
            == db::uses(list, h),
        forall|k: int|
            #![trigger removal::kept(list, held)[k]]
            0 <= k < removal::kept(list, held).len() ==> list.contains(
                removal::kept(list, held)[k],
            ),
    decreases list.len(),
{
    if list.len() > 0 {
        let rest = list.drop_last();
        parts_of_a_list(rest, held, h);
        let a = removal::kept(rest, held);
        let b = removal::gone(rest, held);
        assert(a.push(list.last()).drop_last() =~= a);
        assert(b.push(list.last()).drop_last() =~= b);
        let all = removal::kept(list, held);
        assert forall|k: int| #![trigger all[k]] 0 <= k < all.len() implies list.contains(all[k]) by {
            if k < a.len() {
                assert(all[k] == a[k]);
                let j = choose|j: int| 0 <= j < rest.len() && rest[j] == a[k];
                assert(list[j] == all[k]);
            } else {
                assert(list[list.len() - 1] == all[k]);
            }
        }
    }
}

/// Where everything is held, all of a list is kept.
proof fn all_kept(list: Seq<Seq<u8>>, held: Seq<Seq<u8>>)
    requires
        forall|k: int| #![trigger list[k]] 0 <= k < list.len() ==> held.contains(list[k]),
    ensures
        removal::kept(list, held) == list,
        removal::gone(list, held) == Seq::<Seq<u8>>::empty(),
    decreases list.len(),
{
    if list.len() > 0 {
        let rest = list.drop_last();
        assert forall|k: int| #![trigger rest[k]] 0 <= k < rest.len() implies held.contains(
            rest[k],
        ) by {
            assert(rest[k] == list[k]);
        }
        assert(held.contains(list[list.len() - 1]));
        all_kept(rest, held);
        assert(removal::kept(list, held) =~= list);
    } else {
        assert(removal::kept(list, held) =~= list);
    }
}

/// Recording a deletion keeps the index sound.
pub proof fn law_a_tombstone_keeps_the_index_sound(
    ix: Index,
    path: Seq<char>,
    stamp: Stamp,
    now: i64,
)
    requires
        sound(ix),
    ensures
        sound(removal::tombstoned(ix, path, stamp, now)),
{
    db::find_finds(ix.files, path, None);
    let i = db::shared(ix, path);
    let after = removal::tombstoned(ix, path, stamp, now);
    if i >= 0 {
        sound_when_retouched(ix, i, after.files[i]);
        let same = Index { files: ix.files.update(i, after.files[i]), ..ix };
        assert(after == (Index { counter: after.counter, ..same }));
        sound_whatever_the_counter(same, after);
    } else {
        let f = after.files.last();
        assert(f.chunks.len() == 0);
        assert forall|h: Seq<u8>| #[trigger] db::links(ix.files.push(f), h) == db::links(
            ix.files,
            h,
        ) by {
            refcount::links_of_push(ix.files, f, h);
        }
        let more = Index { files: ix.files.push(f), ..ix };
        assert forall|h: Seq<u8>| #[trigger] more.chunks.contains_key(h) implies {
            &&& more.chunks[h].refcount == db::links(more.files, h)
            &&& more.chunks[h].refcount == 0 <==> more.chunks[h].unreferenced_at is Some
        } by {
            assert(ix.chunks.contains_key(h));
        }
        assert forall|j: int, k: int|
            #![trigger more.files[j].chunks[k]]
            0 <= j < more.files.len() && 0 <= k < more.files[j].chunks.len() implies more.chunks.contains_key(
            more.files[j].chunks[k],
        ) by {
            assert(more.files[j] == ix.files[j]);
            assert(ix.chunks.contains_key(ix.files[j].chunks[k]));
        }
        sound_whatever_the_counter(more, after);
    }
}

pub proof fn sound_whatever_the_counter(a: Index, b: Index)
    requires
        sound(a),
        a.files == b.files,
        a.chunks == b.chunks,
    ensures
        sound(b),
{
    assert forall|h: Seq<u8>| #[trigger] b.chunks.contains_key(h) implies {
        &&& b.chunks[h].refcount == db::links(b.files, h)
        &&& b.chunks[h].refcount == 0 <==> b.chunks[h].unreferenced_at is Some
    } by {
        assert(a.chunks.contains_key(h));
    }
    assert forall|j: int, k: int|
        #![trigger b.files[j].chunks[k]]
        0 <= j < b.files.len() && 0 <= k < b.files[j].chunks.len() implies b.chunks.contains_key(
        b.files[j].chunks[k],
    ) by {
        assert(a.chunks.contains_key(a.files[j].chunks[k]));
    }
}

/// Letting go of payloads that nothing holds keeps the index sound.
pub proof fn law_releasing_keeps_the_index_sound(
    ix: Index,
    path: Seq<char>,
    has_tree: bool,
    held: Seq<Seq<u8>>,
    now: i64,
)
    requires
        sound(ix),
    ensures
        sound(removal::released(ix, path, has_tree, held, now)),
{
    db::find_finds(ix.files, path, None);
    let i = db::shared(ix, path);
    if has_tree && i >= 0 {
        let after = removal::released(ix, path, has_tree, held, now);
        let list = ix.files[i].chunks;
        let lost = removal::gone(list, held);
        let f = after.files[i];
        assert forall|h: Seq<u8>| #[trigger] after.chunks.contains_key(h) implies {
            &&& after.chunks[h].refcount == db::links(after.files, h)
            &&& after.chunks[h].refcount == 0 <==> after.chunks[h].unreferenced_at is Some
        } by {
            refcount::relinking_keeps_domain(ix.chunks, lost, lost, now, h);
            assert(ix.chunks.contains_key(h));
            parts_of_a_list(list, held, h);
            refcount::links_of_update(ix.files, i, f, h);
            refcount::unlinking_one(ix.chunks, lost, now, h);
        }
        assert forall|j: int, k: int|
            #![trigger after.files[j].chunks[k]]
            0 <= j < after.files.len() && 0 <= k < after.files[j].chunks.len() implies after.chunks.contains_key(
            after.files[j].chunks[k],
        ) by {
            let h = after.files[j].chunks[k];
            refcount::relinking_keeps_domain(ix.chunks, lost, lost, now, h);
            if j == i {
                parts_of_a_list(list, held, h);
                assert(removal::kept(list, held)[k] == h);
                let l = choose|l: int| 0 <= l < list.len() && list[l] == h;
                assert(ix.chunks.contains_key(ix.files[i].chunks[l]));
            } else {
                assert(after.files[j] == ix.files[j]);
                assert(ix.chunks.contains_key(ix.files[j].chunks[k]));
            }
        }
    }
}

/// Bringing files back keeps the index sound.
pub proof fn law_restoring_keeps_the_index_sound(
    ix: Index,
    path: Seq<char>,
    vector: Counts,
    by: Seq<u8>,
    now: i64,
)
    requires
        sound(ix),
    ensures
        sound(
            Index { files: removal::brought_back(ix.files, path, vector, by, now), ..ix },
        ),
{
    let files = removal::brought_back(ix.files, path, vector, by, now);
    let after = Index { files, ..ix };
    assert forall|h: Seq<u8>| #[trigger] after.chunks.contains_key(h) implies {
        &&& after.chunks[h].refcount == db::links(after.files, h)
        &&& after.chunks[h].refcount == 0 <==> after.chunks[h].unreferenced_at is Some
    } by {
        assert(ix.chunks.contains_key(h));
        same_links(ix.files, files, h);
    }
    assert forall|j: int, k: int|
        #![trigger after.files[j].chunks[k]]
        0 <= j < after.files.len() && 0 <= k < after.files[j].chunks.len() implies after.chunks.contains_key(
        after.files[j].chunks[k],
    ) by {
        assert(after.files[j].chunks == ix.files[j].chunks);
        assert(ix.chunks.contains_key(ix.files[j].chunks[k]));
    }
}

proof fn same_links(a: Seq<File>, b: Seq<File>, h: Seq<u8>)
    requires
        a.len() == b.len(),
        forall|i: int| #![trigger a[i]] 0 <= i < a.len() ==> a[i].chunks == b[i].chunks,
    ensures
        db::links(a, h) == db::links(b, h),
    decreases a.len(),
{
    if a.len() > 0 {
        assert(a[a.len() - 1].chunks == b[a.len() - 1].chunks);
        assert forall|i: int| #![trigger a.drop_last()[i]] 0 <= i < a.len() - 1 implies a.drop_last()[i].chunks
            == b.drop_last()[i].chunks by {
            assert(a[i].chunks == b[i].chunks);
        }
        same_links(a.drop_last(), b.drop_last(), h);
    }
}

/// A deletion can be undone: where the payloads are still held, a file that is
/// deleted and then restored is the file that it was, with a newer history, and
/// it reads as it did.
pub proof fn law_a_deletion_can_be_undone(
    ix: Index,
    key: Seq<u8>,
    path: Seq<char>,
    disk: Disk,
    deleted_at: i64,
    restored_at: i64,
    from: Seq<Evidence>,
)
    requires
        db::files_distinct(ix.files),
        removal::live(ix, path),
        disk.has_tree ==> forall|k: int|
            #![trigger ix.files[db::shared(ix, path)].chunks[k]]
            0 <= k < ix.files[db::shared(ix, path)].chunks.len() ==> db::hashes(
                disk.held@,
            ).contains(ix.files[db::shared(ix, path)].chunks[k]),
    ensures
        ({
            let deleted = removal::released(
                removal::tombstoned(ix, path, Stamp::Local, deleted_at),
                path,
                disk.has_tree,
                db::hashes(disk.held@),
                deleted_at,
            );
            let vector = store::local_vector(deleted, path);
            let back = Index {
                counter: (deleted.counter + 1) as u64,
                files: removal::brought_back(
                    deleted.files,
                    path,
                    vector,
                    deleted.device,
                    restored_at,
                ),
                ..deleted
            };
            let i = db::shared(ix, path);
            &&& !removal::live(deleted, path)
            &&& removal::restorable(deleted.files, path)
            &&& db::shared(back, path) == i
            &&& back.files[i] == (File {
                vector,
                modified_by: Some(ix.device),
                updated_at: restored_at,
                ..ix.files[i]
            })
            &&& reading::file_read(back, key, path, from) == reading::file_read(
                ix,
                key,
                path,
                from,
            )
        }),
{
    let i = db::shared(ix, path);
    db::find_finds(ix.files, path, None);
    let held = db::hashes(disk.held@);
    let dead = removal::tombstoned(ix, path, Stamp::Local, deleted_at);
    super::store::distinct_after_update(ix.files, i, dead.files[i]);
    assert(dead.files == ix.files.update(i, dead.files[i]));
    db::found_is_unique(dead.files, i);
    if disk.has_tree {
        all_kept(ix.files[i].chunks, held);
    }
    let deleted = removal::released(dead, path, disk.has_tree, held, deleted_at);
    assert(deleted.files =~= dead.files);
    assert(deleted.files[i].deleted_at is Some);
    let vector = store::local_vector(deleted, path);
    let files = removal::brought_back(
        deleted.files,
        path,
        vector,
        deleted.device,
        restored_at,
    );
    assert(db::files_distinct(files)) by {
        assert forall|a: int, b: int|
            #![trigger files[a], files[b]]
            0 <= a < b < files.len() implies files[a].id < files[b].id && !(files[a].path
            == files[b].path && files[a].scope == files[b].scope) by {
            assert(dead.files[a].id < dead.files[b].id && !(dead.files[a].path
                == dead.files[b].path && dead.files[a].scope == dead.files[b].scope));
        }
    }
    db::found_is_unique(files, i);
}

/// A write of identical bytes is not a change: it takes no count, and the
/// history of the file stays as it is.
pub proof fn law_an_unchanged_write_is_no_change(
    before: Index,
    key: Seq<u8>,
    path: Seq<char>,
    m: Manifest,
    data: Seq<u8>,
    mtime_ns: i64,
    disk: Disk,
    now: i64,
    after: Index,
    stats: PutStats,
    sealed: Seq<Payload>,
)
    requires
        store::already_stored(before, path, m),
        store::put_done(
            before,
            key,
            path,
            m,
            data,
            mtime_ns,
            Stamp::Local,
            Payloads::TrustIndex,
            disk,
            now,
            after,
            stats,
            sealed,
        ),
    ensures
        after.counter == before.counter,
        after.chunks == before.chunks,
        after.files[db::shared(before, path)].vector == before.files[db::shared(
            before,
            path,
        )].vector,
        after.files[db::shared(before, path)].chunks == before.files[db::shared(
            before,
            path,
        )].chunks,
        sealed.len() == 0,
{
    db::find_finds(before.files, path, None);
}

/// No vector claims more changes of this device than it has made.
pub open spec fn in_step(ix: Index) -> bool {
    forall|i: int|
        #![trigger ix.files[i]]
        0 <= i < ix.files.len() ==> clock::count(ix.files[i].vector, ix.device) <= ix.counter
}

/// The vector of a path claims no more changes of this device than it has made.
pub open spec fn path_in_step(ix: Index, path: Seq<char>) -> bool {
    db::shared(ix, path) >= 0 ==> clock::count(
        ix.files[db::shared(ix, path)].vector,
        ix.device,
    ) <= ix.counter
}

/// A change made here comes strictly after what the path was before.
pub proof fn law_a_local_change_comes_after(ix: Index, path: Seq<char>)
    requires
        path_in_step(ix, path),
        ix.counter < u64::MAX,
    ensures
        ({
            let i = db::shared(ix, path);
            let base: Counts = if i >= 0 {
                ix.files[i].vector
            } else {
                Map::empty()
            };
            clock::causality(store::local_vector(ix, path), base) == Causality::After
        }),
{
    db::find_finds(ix.files, path, None);
    let i = db::shared(ix, path);
    let base: Counts = if i >= 0 {
        ix.files[i].vector
    } else {
        Map::empty()
    };
    let next = store::local_vector(ix, path);
    assert(clock::count(base, ix.device) <= ix.counter);
    assert forall|d: Seq<u8>| #[trigger] clock::count(base, d) <= clock::count(next, d) by {}
    assert(clock::count(next, ix.device) > clock::count(base, ix.device));
}

/// Writing keeps vectors in step, as long as what is taken on from elsewhere does
/// not claim more changes of this device than it has made.
pub proof fn law_a_write_keeps_vectors_in_step(
    before: Index,
    key: Seq<u8>,
    path: Seq<char>,
    m: Manifest,
    data: Seq<u8>,
    mtime_ns: i64,
    stamp: Stamp,
    payloads: Payloads,
    disk: Disk,
    now: i64,
    after: Index,
    stats: PutStats,
    sealed: Seq<Payload>,
)
    requires
        in_step(before),
        before.counter < u64::MAX,
        stamp matches Stamp::Remote(v) ==> clock::count(v@.vector, before.device)
            <= before.counter,
        store::put_done(
            before,
            key,
            path,
            m,
            data,
            mtime_ns,
            stamp,
            payloads,
            disk,
            now,
            after,
            stats,
            sealed,
        ),
    ensures
        in_step(after),
{
    db::find_finds(before.files, path, None);
    assert forall|i: int| #![trigger after.files[i]] 0 <= i < after.files.len() implies clock::count(
        after.files[i].vector,
        after.device,
    ) <= after.counter by {
        if i < before.files.len() {
            assert(clock::count(before.files[i].vector, before.device) <= before.counter);
        }
    }
}

/// Recording a deletion keeps vectors in step, in the same way.
pub proof fn law_a_tombstone_keeps_vectors_in_step(
    ix: Index,
    path: Seq<char>,
    stamp: Stamp,
    now: i64,
)
    requires
        in_step(ix),
        ix.counter < u64::MAX,
        stamp matches Stamp::Remote(v) ==> clock::count(v@.vector, ix.device) <= ix.counter,
    ensures
        in_step(removal::tombstoned(ix, path, stamp, now)),
{
    db::find_finds(ix.files, path, None);
    let after = removal::tombstoned(ix, path, stamp, now);
    assert forall|i: int| #![trigger after.files[i]] 0 <= i < after.files.len() implies clock::count(
        after.files[i].vector,
        after.device,
    ) <= after.counter by {
        if i < ix.files.len() {
            assert(clock::count(ix.files[i].vector, ix.device) <= ix.counter);
        }
    }
}

/// Restoring keeps vectors in step.
pub proof fn law_restoring_keeps_vectors_in_step(ix: Index, path: Seq<char>, now: i64)
    requires
        in_step(ix),
        ix.counter < u64::MAX,
    ensures
        in_step(
            Index {
                counter: (ix.counter + 1) as u64,
                files: removal::brought_back(
                    ix.files,
                    path,
                    store::local_vector(ix, path),
                    ix.device,
                    now,
                ),
                ..ix
            },
        ),
{
    let files = removal::brought_back(
        ix.files,
        path,
        store::local_vector(ix, path),
        ix.device,
        now,
    );
    assert forall|i: int| #![trigger files[i]] 0 <= i < files.len() implies clock::count(
        files[i].vector,
        ix.device,
    ) <= ix.counter + 1 by {
        assert(clock::count(ix.files[i].vector, ix.device) <= ix.counter);
    }
}

/// No chunk is written twice.
pub proof fn law_a_chunk_is_written_once(
    list: Seq<ChunkRef>,
    n: int,
    data: Seq<u8>,
    at: Circumstances,
)
    requires
        0 <= n <= list.len(),
    ensures
        forall|a: int, b: int|
            #![trigger store::writes(list, n, data, at)[a], store::writes(list, n, data, at)[b]]
            0 <= a < b < store::writes(list, n, data, at).len() ==> store::writes(
                list,
                n,
                data,
                at,
            )[a].0 != store::writes(list, n, data, at)[b].0,
        forall|a: int|
            #![trigger store::writes(list, n, data, at)[a]]
            0 <= a < store::writes(list, n, data, at).len() ==> exists|j: int|
                0 <= j < n && (#[trigger] list[j]).hash@ == store::writes(list, n, data, at)[a].0,
    decreases n,
{
    if n > 0 {
        law_a_chunk_is_written_once(list, n - 1, data, at);
        let before = store::writes(list, n - 1, data, at);
        let all = store::writes(list, n, data, at);
        assert forall|a: int| #![trigger all[a]] 0 <= a < all.len() implies exists|j: int|
            0 <= j < n && (#[trigger] list[j]).hash@ == all[a].0 by {
            if a < before.len() {
                assert(all[a] == before[a]);
                let j = choose|j: int|
                    0 <= j < n - 1 && (#[trigger] list[j]).hash@ == before[a].0;
                assert(list[j].hash@ == all[a].0);
            } else {
                assert(list[n - 1].hash@ == all[a].0);
            }
        }
        assert forall|a: int, b: int|
            #![trigger all[a], all[b]]
            0 <= a < b < all.len() implies all[a].0 != all[b].0 by {
            assert(all[a] == before[a]);
            if b < before.len() {
                assert(all[b] == before[b]);
            } else if all[a].0 == all[b].0 {
                let j = choose|j: int|
                    0 <= j < n - 1 && (#[trigger] list[j]).hash@ == before[a].0;
                assert(list[j].hash@ == list[n - 1].hash@);
            }
        }
    }
}

/// Every chunk of a file that is written is in the chunk store already, supplied
/// by the file in the folder, or among the payloads to be written: no write
/// leaves the index pointing at bytes that are nowhere.
pub proof fn law_a_write_leaves_no_chunk_behind(
    list: Seq<ChunkRef>,
    n: int,
    data: Seq<u8>,
    at: Circumstances,
    i: int,
)
    requires
        0 <= i < n <= list.len(),
    ensures
        at.in_tree || (at.known.contains(list[i].hash@) && at.held.contains(list[i].hash@))
            || exists|k: int|
            0 <= k < store::writes(list, n, data, at).len() && (#[trigger] store::writes(
                list,
                n,
                data,
                at,
            )[k]).0 == list[i].hash@,
    decreases n, i,
{
    let all = store::writes(list, n, data, at);
    let before = store::writes(list, n - 1, data, at);
    if i < n - 1 {
        law_a_write_leaves_no_chunk_behind(list, n - 1, data, at, i);
        if !at.in_tree && !(at.known.contains(list[i].hash@) && at.held.contains(list[i].hash@)) {
            let k = choose|k: int|
                0 <= k < before.len() && (#[trigger] before[k]).0 == list[i].hash@;
            assert(all[k] == before[k]);
        }
    } else {
        match store::fate(list, i, at) {
            Fate::Repeated => {
                let j = choose|j: int| 0 <= j < i && (#[trigger] list[j]).hash@ == list[i].hash@;
                law_a_write_leaves_no_chunk_behind(list, n, data, at, j);
            },
            Fate::Held => {},
            Fate::InTree => {},
            Fate::Written => {
                assert(all[before.len() as int].0 == list[i].hash@);
            },
        }
    }
}

/// No two different chunks of the data have one hash.
pub open spec fn no_collision(m: Manifest, data: Seq<u8>) -> bool {
    forall|i: int, j: int|
        #![trigger m.chunks@[i], m.chunks@[j]]
        0 <= i < m.chunks@.len() && 0 <= j < m.chunks@.len() && m.chunks@[i].hash@
            == m.chunks@[j].hash@ ==> store::chunk_data(m.chunks@, i, data) == store::chunk_data(
            m.chunks@,
            j,
            data,
        )
}

/// There is what a chunk is read from: one of the payloads that were written, or
/// something that reads as the chunk.
pub open spec fn backed(
    key: Seq<u8>,
    m: Manifest,
    data: Seq<u8>,
    sealed: Seq<Payload>,
    from: Seq<Evidence>,
    i: int,
) -> bool {
    ||| exists|k: int|
        0 <= k < sealed.len() && (#[trigger] sealed[k]).hash@ == m.chunks@[i].hash@
            && from[i].stored == Some(sealed[k].bytes@)
    ||| reading::chunk_read(key, m.chunks@[i].hash@, from[i]) == (Opened::Plain {
        bytes: store::chunk_data(m.chunks@, i, data),
    })
}

/// What is written reads back: once the payloads that a write names are in the
/// chunk store, beside the chunks that were readable before, reading the path
/// gives the bytes that were written.
pub proof fn law_what_is_written_reads_back(
    before: Index,
    key: Seq<u8>,
    path: Seq<char>,
    m: Manifest,
    data: Seq<u8>,
    mtime_ns: i64,
    stamp: Stamp,
    payloads: Payloads,
    disk: Disk,
    now: i64,
    after: Index,
    stats: PutStats,
    sealed: Seq<Payload>,
    from: Seq<Evidence>,
)
    requires
        db::files_distinct(before.files),
        store::next_id(before.files) <= i64::MAX,
        chunker::chunked(m, data),
        no_collision(m, data),
        !(payloads == Payloads::TrustIndex && store::already_stored(before, path, m)),
        store::put_done(
            before,
            key,
            path,
            m,
            data,
            mtime_ns,
            stamp,
            payloads,
            disk,
            now,
            after,
            stats,
            sealed,
        ),
        from.len() == m.chunks@.len(),
        forall|i: int|
            0 <= i < m.chunks@.len() ==> #[trigger] backed(key, m, data, sealed, from, i),
    ensures
        removal::live(after, path),
        reading::file_read(after, key, path, from) == (Opened::Plain { bytes: data }),
{
    let n = m.chunks@.len() as int;
    let i = db::shared(before, path);
    let at = store::circumstances(before, payloads, disk);
    db::find_finds(before.files, path, None);
    let f = if i >= 0 {
        after.files[i]
    } else {
        after.files.last()
    };
    if i >= 0 {
        store::distinct_after_update(before.files, i, f);
        assert(after.files == before.files.update(i, f));
        db::found_is_unique(after.files, i);
    } else {
        store::distinct_after_push(before.files, f);
        assert(after.files == before.files.push(f));
        db::found_is_unique(after.files, before.files.len() as int);
    }
    let list = f.chunks;
    assert(list == store::chunk_list(m));
    assert forall|k: int| 0 <= k < n implies #[trigger] reading::chunk_read(key, list[k], from[k])
        == (Opened::Plain { bytes: store::chunk_data(m.chunks@, k, data) }) by {
        assert(backed(key, m, data, sealed, from, k));
        let c = m.chunks@[k];
        if !(reading::chunk_read(key, c.hash@, from[k]) == (Opened::Plain {
            bytes: store::chunk_data(m.chunks@, k, data),
        })) {
            let s = choose|s: int|
                0 <= s < sealed.len() && (#[trigger] sealed[s]).hash@ == c.hash@
                    && from[k].stored == Some(sealed[s].bytes@);
            let planned = store::writes(m.chunks@, n, data, at);
            assert(store::sealed_as(key, sealed[s], planned[s]));
            written_is_a_chunk(m.chunks@, n, data, at, s);
            let j = choose|j: int|
                0 <= j < n && (#[trigger] m.chunks@[j]).hash@ == planned[s].0
                    && store::chunk_data(m.chunks@, j, data) == planned[s].1;
            assert(store::chunk_data(m.chunks@, j, data) == store::chunk_data(
                m.chunks@,
                k,
                data,
            ));
            assert(sealing::opened(key, sealed[s].bytes@, crate::text::hex(c.hash@))
                == (Opened::Plain { bytes: planned[s].1 }));
        }
    }
    chunks_make_the_whole(key, m, data, list, from, n);
}

pub proof fn written_is_a_chunk(
    list: Seq<ChunkRef>,
    n: int,
    data: Seq<u8>,
    at: Circumstances,
    s: int,
)
    requires
        0 <= n <= list.len(),
        0 <= s < store::writes(list, n, data, at).len(),
    ensures
        exists|j: int|
            0 <= j < n && (#[trigger] list[j]).hash@ == store::writes(list, n, data, at)[s].0
                && store::chunk_data(list, j, data) == store::writes(list, n, data, at)[s].1,
    decreases n,
{
    if n > 0 {
        let before = store::writes(list, n - 1, data, at);
        let all = store::writes(list, n, data, at);
        if s < before.len() {
            written_is_a_chunk(list, n - 1, data, at, s);
            assert(all[s] == before[s]);
            let j = choose|j: int|
                0 <= j < n - 1 && (#[trigger] list[j]).hash@ == before[s].0 && store::chunk_data(
                    list,
                    j,
                    data,
                ) == before[s].1;
            assert(list[j].hash@ == all[s].0);
        } else {
            assert(list[n - 1].hash@ == all[s].0);
        }
    }
}

proof fn chunks_make_the_whole(
    key: Seq<u8>,
    m: Manifest,
    data: Seq<u8>,
    list: Seq<Seq<u8>>,
    from: Seq<Evidence>,
    n: int,
)
    requires
        0 <= n <= m.chunks@.len(),
        forall|k: int|
            0 <= k < n ==> #[trigger] reading::chunk_read(key, list[k], from[k]) == (Opened::Plain {
                bytes: store::chunk_data(m.chunks@, k, data),
            }),
    ensures
        reading::assembled(key, list, from, n) == (Opened::Plain {
            bytes: chunker::laid_out(m, data, n),
        }),
    decreases n,
{
    if n > 0 {
        chunks_make_the_whole(key, m, data, list, from, n - 1);
        assert(reading::chunk_read(key, list[n - 1], from[n - 1]) == (Opened::Plain {
            bytes: store::chunk_data(m.chunks@, n - 1, data),
        }));
    }
}

/// Content that is stored already, under whatever name, is not written again.
pub proof fn law_identical_content_is_not_written_again(
    list: Seq<ChunkRef>,
    n: int,
    data: Seq<u8>,
    at: Circumstances,
)
    requires
        0 <= n <= list.len(),
        at.trust,
        forall|i: int|
            #![trigger list[i]]
            0 <= i < list.len() ==> at.known.contains(list[i].hash@) && at.held.contains(
                list[i].hash@,
            ),
    ensures
        store::writes(list, n, data, at) == Seq::<(Seq<u8>, Seq<u8>)>::empty(),
        store::records(list, n, data, at) == Seq::<(Seq<u8>, u64, u64)>::empty(),
        store::cost(list, n, data, at).0 == 0,
        store::cost(list, n, data, at).1 == 0,
    decreases n,
{
    if n > 0 {
        law_identical_content_is_not_written_again(list, n - 1, data, at);
        assert(at.known.contains(list[n - 1].hash@));
    }
}

/// What was deleted within the window can be had back: a collection keeps the
/// tombstone as it is, and every chunk that the file is made of.
pub proof fn law_a_deletion_within_the_window_is_recoverable(
    ix: Index,
    i: int,
    cutoff: i64,
    now: i64,
)
    requires
        sound(ix),
        0 <= i < ix.files.len(),
        ix.files[i].deleted_at matches Some(at) && cutoff < at,
    ensures
        ({
            let after = gc::collected(ix, cutoff, now);
            &&& after.files.contains(ix.files[i])
            &&& forall|k: int|
                #![trigger ix.files[i].chunks[k]]
                0 <= k < ix.files[i].chunks.len() ==> after.chunks.contains_key(
                    ix.files[i].chunks[k],
                )
        }),
{
    let after = gc::collected(ix, cutoff, now);
    gc::law_collection_keeps_what_is_referenced(ix, cutoff, now);
    gc::law_collection_keeps_files_within_the_window(ix, cutoff, now, i);
    let j = choose|j: int| 0 <= j < after.files.len() && after.files[j] == ix.files[i];
    assert forall|k: int|
        #![trigger ix.files[i].chunks[k]]
        0 <= k < ix.files[i].chunks.len() implies after.chunks.contains_key(
        ix.files[i].chunks[k],
    ) by {
        assert(after.files[j].chunks[k] == ix.files[i].chunks[k]);
    }
}

/// Among the first `n` chunks, a hash is written exactly where it has to be: the
/// file in the folder does not supply it, and it is not held already, or what is
/// held is not to be trusted. What is written under it is a chunk with that hash.
pub proof fn law_a_chunk_is_written_where_it_has_to_be(
    list: Seq<ChunkRef>,
    n: int,
    data: Seq<u8>,
    at: Circumstances,
    h: Seq<u8>,
)
    requires
        0 <= n <= list.len(),
    ensures
        is_written(list, n, data, at, h) <==> (exists|i: int|
            0 <= i < n && (#[trigger] list[i]).hash@ == h) && !at.in_tree && !(at.trust
            && at.known.contains(h) && at.held.contains(h)),
    decreases n,
{
    if n > 0 {
        law_a_chunk_is_written_where_it_has_to_be(list, n - 1, data, at, h);
        let before = store::writes(list, n - 1, data, at);
        let all = store::writes(list, n, data, at);
        if is_written(list, n - 1, data, at, h) {
            let k = choose|k: int| 0 <= k < before.len() && (#[trigger] before[k]).0 == h;
            assert(all[k].0 == h);
        }
        if is_written(list, n, data, at, h) {
            let k = choose|k: int| 0 <= k < all.len() && (#[trigger] all[k]).0 == h;
            if k < before.len() {
                assert(before[k].0 == h);
            } else {
                assert(list[n - 1].hash@ == h);
            }
        }
        if list[n - 1].hash@ == h {
            if store::fate(list, n - 1, at) is Written {
                assert(all[before.len() as int].0 == h);
            }
            if store::fate(list, n - 1, at) is Repeated {
                let j = choose|j: int| 0 <= j < n - 1 && (#[trigger] list[j]).hash@ == h;
                assert(list[j].hash@ == h);
            }
        }
        if exists|i: int| 0 <= i < n && (#[trigger] list[i]).hash@ == h {
            let i = choose|i: int| 0 <= i < n && (#[trigger] list[i]).hash@ == h;
            if i < n - 1 {
                assert(list[i].hash@ == h);
            }
        }
        if exists|i: int| 0 <= i < n - 1 && (#[trigger] list[i]).hash@ == h {
            let i = choose|i: int| 0 <= i < n - 1 && (#[trigger] list[i]).hash@ == h;
            assert(list[i].hash@ == h);
        }
    }
}

/// A payload is written under the hash.
pub open spec fn is_written(
    list: Seq<ChunkRef>,
    n: int,
    data: Seq<u8>,
    at: Circumstances,
    h: Seq<u8>,
) -> bool {
    exists|k: int|
        0 <= k < store::writes(list, n, data, at).len() && (#[trigger] store::writes(
            list,
            n,
            data,
            at,
        )[k]).0 == h
}

/// What payloads take together.
pub open spec fn payload_total(sealed: Seq<Payload>) -> nat
    decreases sealed.len(),
{
    if sealed.len() == 0 {
        0
    } else {
        payload_total(sealed.drop_last()) + sealed.last().bytes@.len()
    }
}

/// The bytes that a write says it wrote are those of the payloads that it names.
pub proof fn law_the_bytes_written_are_the_payloads(
    key: Seq<u8>,
    list: Seq<ChunkRef>,
    n: int,
    data: Seq<u8>,
    at: Circumstances,
    sealed: Seq<Payload>,
)
    requires
        0 <= n <= list.len(),
        store::sealed_for(key, sealed, store::writes(list, n, data, at)),
    ensures
        store::cost(list, n, data, at).1 == payload_total(sealed),
        store::cost(list, n, data, at).0 == sealed.len(),
    decreases n,
{
    if n > 0 {
        let before = store::writes(list, n - 1, data, at);
        let all = store::writes(list, n, data, at);
        if store::fate(list, n - 1, at) is Written {
            let rest = sealed.drop_last();
            assert forall|i: int|
                #![trigger rest[i]]
                0 <= i < before.len() implies store::sealed_as(key, rest[i], before[i]) by {
                assert(store::sealed_as(key, sealed[i], all[i]));
                assert(all[i] == before[i]);
            }
            law_the_bytes_written_are_the_payloads(key, list, n - 1, data, at, rest);
            let last = before.len() as int;
            assert(store::sealed_as(key, sealed[last], all[last]));
            assert(sealed.last() == sealed[last]);
        } else {
            assert(all == before);
            law_the_bytes_written_are_the_payloads(key, list, n - 1, data, at, sealed);
        }
    }
}

/// What is recorded of a chunk that was not known: its length, and what its payload
/// takes in the chunk store, which is nothing where the folder supplies it. What
/// was known of a chunk stays.
pub proof fn law_a_new_chunk_is_recorded_as_it_is_kept(
    chunks: Map<Seq<u8>, db::ChunkFacts>,
    list: Seq<ChunkRef>,
    n: int,
    data: Seq<u8>,
    at: Circumstances,
    now: i64,
    h: Seq<u8>,
)
    requires
        0 <= n <= list.len(),
        at.known == chunks.dom(),
    ensures
        ({
            let after = store::recorded(chunks, store::records(list, n, data, at), now);
            &&& after.contains_key(h) <==> chunks.contains_key(h) || exists|i: int|
                0 <= i < n && (#[trigger] list[i]).hash@ == h
            &&& chunks.contains_key(h) ==> after[h] == chunks[h]
            &&& after.contains_key(h) && !chunks.contains_key(h) ==> {
                &&& after[h].refcount == 0
                &&& after[h].unreferenced_at == Some(now)
                &&& exists|i: int|
                    0 <= i < n && (#[trigger] list[i]).hash@ == h && after[h].size == list[i].len
                        && after[h].stored_size == if at.in_tree {
                        0
                    } else {
                        store::stored_len(store::chunk_data(list, i, data)) as u64
                    }
            }
        }),
    decreases n,
{
    if n > 0 {
        law_a_new_chunk_is_recorded_as_it_is_kept(chunks, list, n - 1, data, at, now, h);
        let before = store::records(list, n - 1, data, at);
        let all = store::records(list, n, data, at);
        let was = store::recorded(chunks, before, now);
        let after = store::recorded(chunks, all, now);
        let c = list[n - 1];
        match store::fate(list, n - 1, at) {
            Fate::InTree | Fate::Written => {
                assert(all.drop_last() =~= before);
                assert(after == db::chunk_inserted(was, all.last().0, all.last().1, all.last().2, now));
            },
            Fate::Repeated => {
                assert(after == was);
                let j = choose|j: int| 0 <= j < n - 1 && (#[trigger] list[j]).hash@ == c.hash@;
                assert(list[j].hash@ == c.hash@);
            },
            Fate::Held => {
                assert(after == was);
            },
        }
        if exists|i: int| 0 <= i < n && (#[trigger] list[i]).hash@ == h {
            let i = choose|i: int| 0 <= i < n && (#[trigger] list[i]).hash@ == h;
            if i < n - 1 {
                assert(list[i].hash@ == h);
            } else if store::fate(list, n - 1, at) is Repeated {
                let j = choose|j: int| 0 <= j < n - 1 && (#[trigger] list[j]).hash@ == c.hash@;
                assert(list[j].hash@ == h);
            }
        }
        if exists|i: int| 0 <= i < n - 1 && (#[trigger] list[i]).hash@ == h {
            let i = choose|i: int| 0 <= i < n - 1 && (#[trigger] list[i]).hash@ == h;
            assert(list[i].hash@ == h);
        }
        if was.contains_key(h) && !chunks.contains_key(h) {
            let i = choose|i: int|
                0 <= i < n - 1 && (#[trigger] list[i]).hash@ == h && was[h].size == list[i].len
                    && was[h].stored_size == if at.in_tree {
                    0
                } else {
                    store::stored_len(store::chunk_data(list, i, data)) as u64
                };
            assert(list[i].hash@ == h);
        } else if after.contains_key(h) && !chunks.contains_key(h) {
            assert(list[n - 1].hash@ == h);
        }
    }
}

} // verus!
