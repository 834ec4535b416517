//! What a write, a deletion and a restoration do to what is read.

use vstd::prelude::*;

use super::chunker;
use super::chunker::{ChunkRef, Manifest};
use super::db;
use super::db::{Db, File, Index};
use super::error::Fault;
use super::health;
use super::laws;
use super::listing::Which;
use super::queries;
use super::reading;
use super::reading::Evidence;
use super::refcount;
use super::removal;
use super::sealing::Opened;
use super::store;
use super::store::{Circumstances, Disk, Payload, Payloads, PutStats, Stamp};
use crate::digest;
use crate::sync::clock;
use crate::sync::clock::Causality;

verus! {

/// How many bytes of plaintext a list of payloads stands for.
pub open spec fn plain_len(writes: Seq<(Seq<u8>, Seq<u8>)>) -> nat
    decreases writes.len(),
{
    if writes.len() == 0 {
        0
    } else {
        plain_len(writes.drop_last()) + writes.last().1.len()
    }
}

/// What is written and what is saved of the first `n` chunks is all of them.
proof fn written_and_saved(m: Manifest, data: Seq<u8>, at: Circumstances, n: int)
    requires
        0 <= n <= m.chunks@.len(),
        chunker::chunked(m, data),
    ensures
        plain_len(store::writes(m.chunks@, n, data, at)) + store::cost(m.chunks@, n, data, at).2
            == chunker::laid_out(m, data, n).len(),
        store::writes(m.chunks@, n, data, at).len() == store::cost(m.chunks@, n, data, at).0,
    decreases n,
{
    if n > 0 {
        written_and_saved(m, data, at, n - 1);
        let list: Seq<ChunkRef> = m.chunks@;
        let c = m.chunks@[n - 1];
        let before = store::writes(list, n - 1, data, at);
        let all = store::writes(list, n, data, at);
        assert(store::chunk_data(list, n - 1, data).len() == c.len);
        if all != before {
            assert(all.drop_last() =~= before);
        }
    }
}

/// What a write says of itself is so: it is unchanged exactly where the path was
/// live with the same content, nothing is written then, and what is written and
/// what was saved add up to the data.
pub proof fn law_the_account_of_a_write_adds_up(
    before: Index,
    key: Seq<u8>,
    path: Seq<char>,
    m: Manifest,
    data: Seq<u8>,
    mtime_ns: i64,
    stamp: Stamp,
    payloads: Payloads,
    disk: Disk,
    now: i64,
    after: Index,
    stats: PutStats,
    sealed: Seq<Payload>,
)
    requires
        chunker::chunked(m, data),
        store::put_done(
            before,
            key,
            path,
            m,
            data,
            mtime_ns,
            stamp,
            payloads,
            disk,
            now,
            after,
            stats,
            sealed,
        ),
    ensures
        stats.unchanged <==> payloads == Payloads::TrustIndex && removal::live(before, path)
            && before.files[db::shared(before, path)].content_hash == digest::blake3_digest(data),
        stats.unchanged ==> stats.chunks_written == 0 && stats.bytes_deduplicated == data.len(),
        stats.chunks_written == sealed.len(),
        !stats.unchanged ==> ({
            let writes = store::writes(
                m.chunks@,
                m.chunks@.len() as int,
                data,
                store::circumstances(before, payloads, disk),
            );
            &&& store::sealed_for(key, sealed, writes)
            &&& plain_len(writes) + stats.bytes_deduplicated == data.len()
        }),
{
    written_and_saved(
        m,
        data,
        store::circumstances(before, payloads, disk),
        m.chunks@.len() as int,
    );
}

/// Where one file was put at a path, the other paths are found where they were.
proof fn others_are_found(before: Seq<File>, after: Seq<File>, path: Seq<char>, other: Seq<char>)
    requires
        other != path,
        ({
            let i = db::find(before, path, None);
            &&& i >= 0 ==> exists|f: File|
                f.path == path && after == #[trigger] before.update(i, f)
            &&& i < 0 ==> exists|f: File| f.path == path && after == #[trigger] before.push(f)
        }),
    ensures
        db::find(after, other, None) == db::find(before, other, None),
        db::find(before, other, None) >= 0 ==> after[db::find(before, other, None)]
            == before[db::find(before, other, None)],
{
    let i = db::find(before, path, None);
    db::find_finds(before, path, None);
    db::find_finds(before, other, None);
    if i >= 0 {
        let f = choose|f: File| f.path == path && after == #[trigger] before.update(i, f);
        found_elsewhere(before, i, f, other);
    } else {
        let f = choose|f: File| f.path == path && after == #[trigger] before.push(f);
        assert(after.drop_last() =~= before);
        assert(after.last() == f);
    }
}

/// Changing a file of one path does not move another path.
proof fn found_elsewhere(files: Seq<File>, i: int, f: File, other: Seq<char>)
    requires
        0 <= i < files.len(),
        files[i].path != other,
        f.path != other,
    ensures
        db::find(files.update(i, f), other, None) == db::find(files, other, None),
    decreases files.len(),
{
    let next = files.update(i, f);
    if i == files.len() - 1 {
        assert(next.drop_last() =~= files.drop_last());
    } else {
        assert(next.drop_last() =~= files.drop_last().update(i, f));
        assert(next.last() == files.last());
        if !(files.last().path == other && files.last().scope is None) {
            found_elsewhere(files.drop_last(), i, f, other);
        }
    }
}

/// A write leaves the other paths as they are: live or not as before, and read
/// as before from what there was to read them from.
pub proof fn law_a_write_leaves_other_paths_alone(
    before: Index,
    key: Seq<u8>,
    path: Seq<char>,
    m: Manifest,
    data: Seq<u8>,
    mtime_ns: i64,
    stamp: Stamp,
    payloads: Payloads,
    disk: Disk,
    now: i64,
    after: Index,
    stats: PutStats,
    sealed: Seq<Payload>,
    other: Seq<char>,
    from: Seq<Evidence>,
)
    requires
        other != path,
        store::put_done(
            before,
            key,
            path,
            m,
            data,
            mtime_ns,
            stamp,
            payloads,
            disk,
            now,
            after,
            stats,
            sealed,
        ),
    ensures
        removal::live(after, other) == removal::live(before, other),
        db::shared(after, other) == db::shared(before, other),
        removal::live(before, other) ==> after.files[db::shared(before, other)]
            == before.files[db::shared(before, other)],
        reading::file_read(after, key, other, from) == reading::file_read(
            before,
            key,
            other,
            from,
        ),
{
    let i = db::shared(before, path);
    db::find_finds(before.files, path, None);
    if i >= 0 {
        assert(after.files == before.files.update(i, after.files[i]));
    } else {
        assert(after.files == before.files.push(after.files.last()));
    }
    others_are_found(before.files, after.files, path, other);
}

/// A write of content that is there already leaves the path as it read, and what
/// it reads as hashes to what was written.
pub proof fn law_an_unchanged_write_reads_as_before(
    before: Index,
    key: Seq<u8>,
    path: Seq<char>,
    m: Manifest,
    data: Seq<u8>,
    mtime_ns: i64,
    stamp: Stamp,
    disk: Disk,
    now: i64,
    after: Index,
    stats: PutStats,
    sealed: Seq<Payload>,
    from: Seq<Evidence>,
)
    requires
        db::files_distinct(before.files),
        chunker::chunked(m, data),
        store::already_stored(before, path, m),
        store::put_done(
            before,
            key,
            path,
            m,
            data,
            mtime_ns,
            stamp,
            Payloads::TrustIndex,
            disk,
            now,
            after,
            stats,
            sealed,
        ),
    ensures
        removal::live(after, path),
        reading::file_read(after, key, path, from) == reading::file_read(before, key, path, from),
        reading::file_read(after, key, path, from) matches Opened::Plain { bytes }
            ==> digest::blake3_digest(bytes) == digest::blake3_digest(data),
{
    let i = db::shared(before, path);
    db::find_finds(before.files, path, None);
    store::distinct_after_update(before.files, i, after.files[i]);
    assert(after.files == before.files.update(i, after.files[i]));
    db::found_is_unique(after.files, i);
}

/// What is read at the path once a write is done is there to be read: a path that
/// had the content reads as the data, and every chunk of one that had not is
/// among the payloads that were written, or reads as the chunk.
pub open spec fn at_hand(
    before: Index,
    key: Seq<u8>,
    path: Seq<char>,
    m: Manifest,
    data: Seq<u8>,
    sealed: Seq<Payload>,
    from: Seq<Evidence>,
) -> bool {
    if store::already_stored(before, path, m) {
        reading::file_read(before, key, path, from) == (Opened::Plain { bytes: data })
    } else {
        &&& laws::no_collision(m, data)
        &&& from.len() == m.chunks@.len()
        &&& forall|i: int|
            0 <= i < m.chunks@.len() ==> #[trigger] laws::backed(key, m, data, sealed, from, i)
    }
}

/// All that a write promises, where the index is sound. The path reads as the
/// data that was written. Every other path reads as before. No count is wrong.
/// What is written and what was saved add up to the data. The write is unchanged
/// exactly where the path was live with the same content; nothing is written
/// then, and a change made here leaves the path's vector as it was.
pub proof fn law_a_write_keeps_its_promises(
    before: Index,
    key: Seq<u8>,
    path: Seq<char>,
    m: Manifest,
    data: Seq<u8>,
    mtime_ns: i64,
    stamp: Stamp,
    disk: Disk,
    now: i64,
    after: Db,
    stats: PutStats,
    sealed: Seq<Payload>,
    from: Seq<Evidence>,
)
    requires
        db::files_distinct(before.files),
        store::next_id(before.files) <= i64::MAX,
        laws::sound(before),
        refcount::countable(after@.files),
        chunker::chunked(m, data),
        after.wf(),
        store::put_done(
            before,
            key,
            path,
            m,
            data,
            mtime_ns,
            stamp,
            Payloads::TrustIndex,
            disk,
            now,
            after@,
            stats,
            sealed,
        ),
        at_hand(before, key, path, m, data, sealed, from),
    ensures
        reading::file_read(after@, key, path, from) == (Opened::Plain { bytes: data }),
        forall|other: Seq<char>, there: Seq<Evidence>|
            other != path ==> #[trigger] reading::file_read(after@, key, other, there)
                == reading::file_read(before, key, other, there),
        laws::sound(after@),
        health::drift(after.chunks@, after@.files) == Seq::<(Seq<u8>, i64, i64)>::empty(),
        !stats.unchanged ==> plain_len(
            store::writes(
                m.chunks@,
                m.chunks@.len() as int,
                data,
                store::circumstances(before, Payloads::TrustIndex, disk),
            ),
        ) + stats.bytes_deduplicated == data.len(),
        stats.unchanged ==> stats.bytes_deduplicated == data.len(),
        stats.chunks_written == sealed.len(),
        stats.unchanged <==> removal::live(before, path) && before.files[db::shared(
            before,
            path,
        )].content_hash == digest::blake3_digest(data),
        stats.unchanged ==> stats.chunks_written == 0,
        stats.unchanged && stamp == Stamp::Local ==> after@.files[db::shared(before, path)].vector
            == before.files[db::shared(before, path)].vector,
{
    law_the_account_of_a_write_adds_up(
        before,
        key,
        path,
        m,
        data,
        mtime_ns,
        stamp,
        Payloads::TrustIndex,
        disk,
        now,
        after@,
        stats,
        sealed,
    );
    laws::law_a_write_keeps_the_index_sound(
        before,
        key,
        path,
        m,
        data,
        mtime_ns,
        stamp,
        Payloads::TrustIndex,
        disk,
        now,
        after@,
        stats,
        sealed,
    );
    health::law_right_counts_show_no_drift(after);
    assert forall|other: Seq<char>, there: Seq<Evidence>|
        other != path implies #[trigger] reading::file_read(after@, key, other, there)
        == reading::file_read(before, key, other, there) by {
        law_a_write_leaves_other_paths_alone(
            before,
            key,
            path,
            m,
            data,
            mtime_ns,
            stamp,
            Payloads::TrustIndex,
            disk,
            now,
            after@,
            stats,
            sealed,
            other,
            there,
        );
    }
    if store::already_stored(before, path, m) {
        law_an_unchanged_write_reads_as_before(
            before,
            key,
            path,
            m,
            data,
            mtime_ns,
            stamp,
            disk,
            now,
            after@,
            stats,
            sealed,
            from,
        );
        db::find_finds(before.files, path, None);
    } else {
        laws::law_what_is_written_reads_back(
            before,
            key,
            path,
            m,
            data,
            mtime_ns,
            stamp,
            Payloads::TrustIndex,
            disk,
            now,
            after@,
            stats,
            sealed,
            from,
        );
    }
}

/// The index once a live file has been deleted.
pub open spec fn deleted(ix: Index, path: Seq<char>, disk: Disk, now: i64) -> Index {
    removal::released(
        removal::tombstoned(ix, path, Stamp::Local, now),
        path,
        disk.has_tree,
        db::hashes(disk.held@),
        now,
    )
}

/// The index once a deleted file has been restored.
pub open spec fn restored(ix: Index, path: Seq<char>, now: i64) -> Index {
    Index {
        counter: (ix.counter + 1) as u64,
        files: removal::brought_back(
            ix.files,
            path,
            store::local_vector(ix, path),
            ix.device,
            now,
        ),
        ..ix
    }
}

/// Deleting and restoring, one after the other. In between the file is not read
/// and not listed. Afterwards it is listed and reads as it did, and its history
/// comes strictly after that of the file and that of the deletion. Asked for are
/// a vector in step, and payloads that are still held where there is a folder.
pub proof fn law_a_deleted_file_comes_back(
    ix: Index,
    key: Seq<u8>,
    path: Seq<char>,
    disk: Disk,
    deleted_at: i64,
    restored_at: i64,
    from: Seq<Evidence>,
    between: Seq<Seq<char>>,
    afterwards: Seq<Seq<char>>,
)
    requires
        db::files_distinct(ix.files),
        removal::live(ix, path),
        laws::path_in_step(ix, path),
        ix.counter < u64::MAX - 1,
        disk.has_tree ==> forall|k: int|
            #![trigger ix.files[db::shared(ix, path)].chunks[k]]
            0 <= k < ix.files[db::shared(ix, path)].chunks.len() ==> db::hashes(
                disk.held@,
            ).contains(ix.files[db::shared(ix, path)].chunks[k]),
        queries::are_paths(deleted(ix, path, disk, deleted_at), Which::Live, between),
        queries::are_paths(
            restored(deleted(ix, path, disk, deleted_at), path, restored_at),
            Which::Live,
            afterwards,
        ),
    ensures
        ({
            let dead = deleted(ix, path, disk, deleted_at);
            let back = restored(dead, path, restored_at);
            let i = db::shared(ix, path);
            &&& reading::file_read(dead, key, path, from) == (Opened::Bad {
                fault: Fault::NotFound { path },
            })
            &&& !between.contains(path)
            &&& removal::restorable(dead.files, path)
            &&& removal::live(back, path)
            &&& afterwards.contains(path)
            &&& reading::file_read(back, key, path, from) == reading::file_read(
                ix,
                key,
                path,
                from,
            )
            &&& clock::causality(back.files[i].vector, ix.files[i].vector) == Causality::After
            &&& clock::causality(back.files[i].vector, dead.files[i].vector) == Causality::After
        }),
{
    let i = db::shared(ix, path);
    let dead = deleted(ix, path, disk, deleted_at);
    let back = restored(dead, path, restored_at);
    db::find_finds(ix.files, path, None);
    laws::law_a_deletion_can_be_undone(
        ix,
        key,
        path,
        disk,
        deleted_at,
        restored_at,
        from,
    );
    laws::law_a_local_change_comes_after(ix, path);
    let tomb = removal::tombstoned(ix, path, Stamp::Local, deleted_at);
    db::find_finds(tomb.files, path, None);
    store::distinct_after_update(ix.files, i, tomb.files[i]);
    assert(tomb.files == ix.files.update(i, tomb.files[i]));
    db::found_is_unique(tomb.files, i);
    assert(dead.files.len() == tomb.files.len());
    assert(dead.files[i].vector == store::local_vector(ix, path));
    assert(dead.files[i].path == path && dead.files[i].scope is None);
    assert(db::files_distinct(dead.files)) by {
        store::distinct_after_update(tomb.files, i, dead.files[i]);
        assert(dead.files =~= tomb.files.update(i, dead.files[i]));
    }
    db::found_is_unique(dead.files, i);
    assert(laws::path_in_step(dead, path));
    laws::law_a_local_change_comes_after(dead, path);
    clock::law_comparison_is_transitive(
        ix.files[i].vector,
        dead.files[i].vector,
        back.files[i].vector,
    );
    if clock::known_to(back.files[i].vector, ix.files[i].vector) {
        clock::law_comparison_is_transitive(
            back.files[i].vector,
            ix.files[i].vector,
            dead.files[i].vector,
        );
    }
    if between.contains(path) {
        let j = choose|j: int|
            0 <= j < dead.files.len() && super::listing::meant(
                dead,
                Which::Live,
                #[trigger] dead.files[j],
            ) && dead.files[j].path == path;
        db::found_is_unique(dead.files, j);
    }
    assert(super::listing::meant(back, Which::Live, back.files[i]));
    assert(back.files[i].path == path);
}

/// Restoring what is live, or was never stored, finds nothing to restore and
/// changes no file.
pub proof fn law_restoring_what_was_not_deleted_changes_no_file(
    ix: Index,
    path: Seq<char>,
    now: i64,
)
    requires
        forall|i: int|
            #![trigger ix.files[i]]
            0 <= i < ix.files.len() && ix.files[i].path == path ==> ix.files[i].deleted_at is None,
    ensures
        !removal::restorable(ix.files, path),
        restored(ix, path, now).files == ix.files,
        restored(ix, path, now).chunks == ix.chunks,
{
    assert(restored(ix, path, now).files =~= ix.files);
}

} // verus!
