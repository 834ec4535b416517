//! What a write, an adoption, a deletion, a restoration and a collection record,
//! field by field, and what a peer is then told.

use vstd::prelude::*;

use super::chunker;
use super::chunker::Manifest;
use super::db;
use super::db::{File, Index};
use super::gc;
use super::holding;
use super::laws;
use super::lifecycle;
use super::queries;
use super::refcount;
use super::removal;
use super::sealing;
use super::sealing::Opened;
use super::sending;
use super::store;
use super::store::{Disk, Payload, Payloads, PutStats, Stamp};
use super::writing;
use crate::digest;
use crate::sync::clock;
use crate::sync::clock::{Causality, Counts};
use crate::sync::reconcile;
use crate::sync::version::{FileVersion, Held, Version};

verus! {

/// The file stands at a path of the shared area.
pub open spec fn stands_at(files: Seq<File>, path: Seq<char>, f: File) -> bool {
    files.contains(f) && f.path == path && f.scope is None
}

/// A path of the shared area is in the index.
pub open spec fn is_known(files: Seq<File>, path: Seq<char>) -> bool {
    exists|f: File| #[trigger] stands_at(files, path, f)
}

/// The version is the one held at its path: what stands there has its vector, was
/// made by the same device at the same time, and is deleted exactly where it says
/// so.
pub open spec fn is_taken_on(files: Seq<File>, v: Version) -> bool {
    &&& is_known(files, v.path)
    &&& forall|f: File| #[trigger]
        stands_at(files, v.path, f) ==> {
            &&& f.vector == v.vector
            &&& f.modified_by == Some(v.modified_by)
            &&& f.updated_at == v.modified_at
            &&& f.deleted_at is Some <==> v.content is Deleted
        }
}

/// What stands at a path was deleted at this time.
pub open spec fn is_deleted_since(files: Seq<File>, path: Seq<char>, at: i64) -> bool {
    is_known(files, path) && forall|f: File| #[trigger]
        stands_at(files, path, f) ==> f.deleted_at == Some(at)
}

/// What stands at a path is live and holds bytes with this hash.
pub open spec fn holds_content(files: Seq<File>, path: Seq<char>, content: Seq<u8>) -> bool {
    is_known(files, path) && forall|f: File| #[trigger]
        stands_at(files, path, f) ==> f.deleted_at is None && f.content_hash == content
}

/// What stands at a path is found there.
proof fn standing_is_found(files: Seq<File>, path: Seq<char>, f: File)
    requires
        db::files_distinct(files),
        stands_at(files, path, f),
    ensures
        0 <= db::find(files, path, None) < files.len(),
        files[db::find(files, path, None)] == f,
{
    let i = choose|i: int| 0 <= i < files.len() && files[i] == f;
    db::found_is_unique(files, i);
}

/// What is found at a path stands there.
pub proof fn found_is_standing(files: Seq<File>, path: Seq<char>)
    ensures
        db::find(files, path, None) >= 0 <==> is_known(files, path),
        db::find(files, path, None) >= 0 ==> stands_at(
            files,
            path,
            files[db::find(files, path, None)],
        ),
{
    db::find_finds(files, path, None);
    let i = db::find(files, path, None);
    if i >= 0 {
        assert(files.contains(files[i]));
        assert(stands_at(files, path, files[i]));
    } else if is_known(files, path) {
        let f = choose|f: File| #[trigger] stands_at(files, path, f);
        let k = choose|k: int| 0 <= k < files.len() && files[k] == f;
        assert(files[k].path == path);
    }
}

/// A write puts one file at its path and touches no other.
proof fn a_write_touches_one_file(
    before: Index,
    key: Seq<u8>,
    path: Seq<char>,
    m: Manifest,
    data: Seq<u8>,
    mtime_ns: i64,
    stamp: Stamp,
    payloads: Payloads,
    disk: Disk,
    now: i64,
    after: Index,
    stats: PutStats,
    sealed: Seq<Payload>,
)
    requires
        db::files_distinct(before.files),
        store::next_id(before.files) <= i64::MAX,
        store::put_done(
            before,
            key,
            path,
            m,
            data,
            mtime_ns,
            stamp,
            payloads,
            disk,
            now,
            after,
            stats,
            sealed,
        ),
    ensures
        ({
            let i = db::shared(before, path);
            let k = db::shared(after, path);
            &&& db::files_distinct(after.files)
            &&& 0 <= k < after.files.len()
            &&& after.files[k].path == path
            &&& after.files[k].scope is None
            &&& i >= 0 ==> k == i && after.files == before.files.update(i, after.files[k])
            &&& i < 0 ==> k == before.files.len() && after.files == before.files.push(
                after.files[k],
            )
        }),
{
    let i = db::shared(before, path);
    db::find_finds(before.files, path, None);
    if i >= 0 {
        assert(after.files == before.files.update(i, after.files[i]));
        store::distinct_after_update(before.files, i, after.files[i]);
        db::found_is_unique(after.files, i);
    } else {
        let n = before.files.len() as int;
        assert(after.files == before.files.push(after.files[n]));
        store::distinct_after_push(before.files, after.files[n]);
        db::found_is_unique(after.files, n);
    }
}

/// A version that is taken on is the version that is held: whether or not the
/// path was known before, what stands there afterwards has the vector that the
/// version arrived with, and who made it and when. It holds the bytes that came
/// with the version. Taking it on takes no count of this device. What is then
/// told of the path is the version itself where the bytes are its content, and
/// comparing with the device it came from finds nothing to do.
pub proof fn law_an_adopted_version_is_the_version_held(
    before: Index,
    key: Seq<u8>,
    version: FileVersion,
    data: Seq<u8>,
    mtime_ns: i64,
    payloads: Payloads,
    disk: Disk,
    now: i64,
    after: Index,
    stats: PutStats,
    sealed: Seq<Payload>,
)
    requires
        db::files_distinct(before.files),
        store::next_id(before.files) <= i64::MAX,
        writing::data_put(
            before,
            key,
            version@.path,
            data,
            mtime_ns,
            Stamp::Remote(&version),
            payloads,
            disk,
            now,
            after,
            stats,
            sealed,
        ),
    ensures
        is_known(after.files, version@.path),
        after.counter == before.counter,
        after.device == before.device,
        forall|f: File| #[trigger]
            stands_at(after.files, version@.path, f) ==> {
                &&& f.vector == version@.vector
                &&& f.modified_by == Some(version@.modified_by)
                &&& f.updated_at == version@.modified_at
                &&& f.deleted_at is None
                &&& f.content_hash == digest::blake3_digest(data)
                &&& f.mtime_ns == mtime_ns
                &&& clock::causality(f.vector, version@.vector) == Causality::Equal
                &&& reconcile::step_between(queries::version_of(f), version@) is None
                &&& version@.content == (Held::File {
                    hash: digest::blake3_digest(data),
                    size: f.size,
                }) ==> queries::version_of(f) == version@
            },
{
    let stamp = Stamp::Remote(&version);
    let m = choose|m: Manifest|
        chunker::manifest_for(m, data) && #[trigger] store::put_done(
            before,
            key,
            version@.path,
            m,
            data,
            mtime_ns,
            stamp,
            payloads,
            disk,
            now,
            after,
            stats,
            sealed,
        );
    a_write_touches_one_file(
        before,
        key,
        version@.path,
        m,
        data,
        mtime_ns,
        stamp,
        payloads,
        disk,
        now,
        after,
        stats,
        sealed,
    );
    found_is_standing(after.files, version@.path);
    clock::law_comparison_is_antisymmetric(version@.vector, version@.vector);
    db::find_finds(before.files, version@.path, None);
    assert forall|f: File| #[trigger] stands_at(after.files, version@.path, f) implies {
        &&& f.vector == version@.vector
        &&& f.modified_by == Some(version@.modified_by)
        &&& f.updated_at == version@.modified_at
        &&& f.deleted_at is None
        &&& f.content_hash == digest::blake3_digest(data)
        &&& f.mtime_ns == mtime_ns
    } by {
        standing_is_found(after.files, version@.path, f);
    }
}

/// A deletion that is taken on is the version that is held, in the same way, and
/// it is dated by the time that it was made at: the path is deleted since then,
/// and what is told of it is the deletion that arrived. What the file was is kept
/// with it; of a path that was not known nothing else is. No other file changes.
pub proof fn law_an_adopted_deletion_is_the_version_held(
    ix: Index,
    version: FileVersion,
    now: i64,
)
    requires
        db::files_distinct(ix.files),
        store::next_id(ix.files) <= i64::MAX,
        version@.content is Deleted,
    ensures
        ({
            let after = removal::tombstoned(ix, version@.path, Stamp::Remote(&version), now);
            &&& is_known(after.files, version@.path)
            &&& after.counter == ix.counter
            &&& after.chunks == ix.chunks
            &&& forall|f: File| #[trigger]
                stands_at(after.files, version@.path, f) ==> {
                    &&& f.deleted_at == Some(version@.modified_at)
                    &&& f.vector == version@.vector
                    &&& f.modified_by == Some(version@.modified_by)
                    &&& f.updated_at == version@.modified_at
                    &&& queries::version_of(f) == version@
                    &&& reconcile::step_between(queries::version_of(f), version@) is None
                }
            &&& forall|f: File|
                !(f.path == version@.path && f.scope is None) ==> (
                #[trigger] after.files.contains(f) <==> ix.files.contains(f))
            &&& forall|f: File, g: File| #[trigger]
                stands_at(after.files, version@.path, f) && #[trigger] stands_at(
                    ix.files,
                    version@.path,
                    g,
                ) ==> f == (File {
                    deleted_at: f.deleted_at,
                    updated_at: f.updated_at,
                    modified_by: f.modified_by,
                    vector: f.vector,
                    ..g
                })
            &&& !is_known(ix.files, version@.path) ==> forall|f: File| #[trigger]
                stands_at(after.files, version@.path, f) ==> f.chunks.len() == 0 && f.size == 0
                    && !f.wanted
            &&& after == (Index { files: after.files, ..ix })
        }),
{
    let path = version@.path;
    let after = removal::tombstoned(ix, path, Stamp::Remote(&version), now);
    a_tombstone_touches_one_file(ix, path, Stamp::Remote(&version), now);
    found_is_standing(after.files, path);
    clock::law_comparison_is_antisymmetric(version@.vector, version@.vector);
    db::find_finds(ix.files, path, None);
    assert forall|f: File| #[trigger] stands_at(after.files, path, f) implies {
        &&& f.deleted_at == Some(version@.modified_at)
        &&& f.modified_by == Some(version@.modified_by)
        &&& queries::version_of(f) == version@
    } by {
        standing_is_found(after.files, path, f);
    }
    found_is_standing(ix.files, path);
    assert forall|f: File, g: File| #[trigger]
        stands_at(after.files, path, f) && #[trigger] stands_at(ix.files, path, g) implies f
        == after.files[db::shared(after, path)] && g == ix.files[db::shared(ix, path)] by {
        standing_is_found(after.files, path, f);
        standing_is_found(ix.files, path, g);
    }
    assert forall|f: File| #[trigger] stands_at(after.files, path, f) implies f
        == after.files[db::shared(after, path)] by {
        standing_is_found(after.files, path, f);
    }
    others_are_the_same(ix.files, after.files, path);
}

/// A deletion puts one tombstone at its path and touches no other file.
proof fn a_tombstone_touches_one_file(ix: Index, path: Seq<char>, stamp: Stamp, now: i64)
    requires
        db::files_distinct(ix.files),
        store::next_id(ix.files) <= i64::MAX,
    ensures
        ({
            let after = removal::tombstoned(ix, path, stamp, now);
            let i = db::shared(ix, path);
            let k = db::shared(after, path);
            &&& db::files_distinct(after.files)
            &&& 0 <= k < after.files.len()
            &&& after.files[k].path == path
            &&& after.files[k].scope is None
            &&& i >= 0 ==> k == i && after.files == ix.files.update(i, after.files[k])
            &&& i < 0 ==> k == ix.files.len() && after.files == ix.files.push(after.files[k])
        }),
{
    let after = removal::tombstoned(ix, path, stamp, now);
    let i = db::shared(ix, path);
    db::find_finds(ix.files, path, None);
    if i >= 0 {
        assert(after.files == ix.files.update(i, after.files[i]));
        store::distinct_after_update(ix.files, i, after.files[i]);
        db::found_is_unique(after.files, i);
    } else {
        let n = ix.files.len() as int;
        assert(after.files == ix.files.push(after.files[n]));
        store::distinct_after_push(ix.files, after.files[n]);
        db::found_is_unique(after.files, n);
    }
}

/// Where only the file at one path was put, every other file is still there.
proof fn others_stay(before: Seq<File>, after: Seq<File>, path: Seq<char>)
    requires
        ({
            let i = db::find(before, path, None);
            let k = db::find(after, path, None);
            &&& i >= 0 ==> after == before.update(i, after[k])
            &&& i < 0 ==> after == before.push(after[k])
        }),
    ensures
        forall|f: File| #[trigger]
            before.contains(f) && !(f.path == path && f.scope is None) ==> after.contains(f),
{
    db::find_finds(before, path, None);
    assert forall|f: File| #[trigger] before.contains(f) && !(f.path == path
        && f.scope is None) implies after.contains(f) by {
        let j = choose|j: int| 0 <= j < before.len() && before[j] == f;
        assert(after[j] == f);
    }
}

/// A write is recorded as it was made. The path is live and holds the data: its
/// hash, its length, and the hash of each piece that it is cut into. Whether the
/// bytes are held here follows from where they are kept. A change made here is
/// this device's, made now, and takes the next count of this device and of no
/// other. A path that was known keeps its number and the time it first came, and
/// a standing request for its bytes until they are held. No other file changes,
/// and nothing else that the index knows.
pub proof fn law_a_write_is_recorded_as_it_was_made(
    before: Index,
    key: Seq<u8>,
    path: Seq<char>,
    data: Seq<u8>,
    mtime_ns: i64,
    stamp: Stamp,
    payloads: Payloads,
    disk: Disk,
    now: i64,
    after: Index,
    stats: PutStats,
    sealed: Seq<Payload>,
)
    requires
        db::files_distinct(before.files),
        store::next_id(before.files) <= i64::MAX,
        before.counter < u64::MAX,
        writing::data_put(
            before,
            key,
            path,
            data,
            mtime_ns,
            stamp,
            payloads,
            disk,
            now,
            after,
            stats,
            sealed,
        ),
        !stats.unchanged,
    ensures
        is_known(after.files, path),
        forall|f: File| #[trigger]
            stands_at(after.files, path, f) ==> {
                let cuts = chunker::fastcdc_cuts(data, 131_072, 524_288, 2_097_152);
                &&& f.deleted_at is None
                &&& f.content_hash == digest::blake3_digest(data)
                &&& f.size == data.len()
                &&& f.mtime_ns == mtime_ns
                &&& f.touched_at == now
                &&& f.materialised <==> (disk.in_tree || !disk.has_tree)
                &&& f.chunks.len() == cuts.len()
                &&& forall|k: int|
                    #![trigger f.chunks[k]]
                    0 <= k < cuts.len() ==> f.chunks[k] == digest::blake3_digest(
                        data.subrange(cuts[k].0 as int, cuts[k].0 + cuts[k].1),
                    )
                &&& stamp is Local ==> {
                    &&& f.updated_at == now
                    &&& f.modified_by == Some(before.device)
                    &&& clock::count(f.vector, before.device) == before.counter + 1
                }
                &&& !is_known(before.files, path) ==> {
                    &&& f.created_at == now
                    &&& !f.wanted
                    &&& forall|g: File| #[trigger] before.files.contains(g) ==> g.id < f.id
                    &&& stamp is Local ==> forall|d: Seq<u8>|
                        d != before.device ==> #[trigger] clock::count(f.vector, d) == 0
                }
                &&& forall|g: File| #[trigger]
                    stands_at(before.files, path, g) ==> {
                        &&& f.id == g.id
                        &&& f.created_at == g.created_at
                        &&& f.wanted <==> g.wanted && !f.materialised
                        &&& stamp is Local ==> forall|d: Seq<u8>|
                            d != before.device ==> #[trigger] clock::count(f.vector, d)
                                == clock::count(g.vector, d)
                    }
            },
        after.counter == before.counter + if stamp is Local {
            1int
        } else {
            0
        },
        forall|f: File|
            !(f.path == path && f.scope is None) ==> (#[trigger] after.files.contains(f)
                <==> before.files.contains(f)),
        after.device == before.device,
        after.replicas == before.replicas,
        after.reported == before.reported,
        after.history == before.history,
        after.peers == before.peers,
{
    let m = choose|m: Manifest|
        chunker::manifest_for(m, data) && #[trigger] store::put_done(
            before,
            key,
            path,
            m,
            data,
            mtime_ns,
            stamp,
            payloads,
            disk,
            now,
            after,
            stats,
            sealed,
        );
    a_write_touches_one_file(
        before,
        key,
        path,
        m,
        data,
        mtime_ns,
        stamp,
        payloads,
        disk,
        now,
        after,
        stats,
        sealed,
    );
    found_is_standing(after.files, path);
    found_is_standing(before.files, path);
    others_are_the_same(before.files, after.files, path);
    let i = db::shared(before, path);
    let f = after.files[db::shared(after, path)];
    let cuts = chunker::fastcdc_cuts(data, 131_072, 524_288, 2_097_152);
    let h = store::history(before, path, stamp, now);
    let holding = disk.in_tree || !disk.has_tree;
    db::find_finds(before.files, path, None);
    assert(f == store::written_file(
        if i >= 0 {
            Some(before.files[i])
        } else {
            None
        },
        store::next_id(before.files) as i64,
        path,
        m,
        mtime_ns,
        h,
        holding,
        now,
    ));
    assert forall|k: int| #![trigger f.chunks[k]] 0 <= k < cuts.len() implies f.chunks[k]
        == digest::blake3_digest(data.subrange(cuts[k].0 as int, cuts[k].0 + cuts[k].1)) by {
        assert(f.chunks[k] == m.chunks@[k].hash@);
    }
    if i < 0 {
        assert forall|g: File| #[trigger] before.files.contains(g) implies g.id < f.id by {
            let j = choose|j: int| 0 <= j < before.files.len() && before.files[j] == g;
            let n = before.files.len() - 1;
            if j < n {
                assert(before.files[j].id < before.files[n].id);
            }
        }
    }
    assert forall|g: File| #[trigger] stands_at(before.files, path, g) implies i >= 0 && g
        == before.files[i] by {
        standing_is_found(before.files, path, g);
    }
    assert forall|g: File| #[trigger] stands_at(after.files, path, g) implies g == f by {
        standing_is_found(after.files, path, g);
    }
}

/// Where only the file at one path was put, the other files are the same.
proof fn others_are_the_same(before: Seq<File>, after: Seq<File>, path: Seq<char>)
    requires
        ({
            let i = db::find(before, path, None);
            let k = db::find(after, path, None);
            &&& 0 <= k < after.len()
            &&& after[k].path == path
            &&& after[k].scope is None
            &&& i >= 0 ==> k == i && after == before.update(i, after[k])
            &&& i < 0 ==> k == before.len() && after == before.push(after[k])
        }),
    ensures
        forall|f: File|
            !(f.path == path && f.scope is None) ==> (#[trigger] after.contains(f)
                <==> before.contains(f)),
{
    others_stay(before, after, path);
    db::find_finds(before, path, None);
    let k = db::find(after, path, None);
    assert forall|f: File| !(f.path == path && f.scope is None) && #[trigger] after.contains(
        f,
    ) implies before.contains(f) by {
        let j = choose|j: int| 0 <= j < after.len() && after[j] == f;
        assert(j != k);
        assert(before[j] == f);
    }
}

/// A write of bytes that the path holds already changes no content and takes no
/// count: what stands at the path keeps its bytes, its chunks, and whether it is
/// held and wanted. A change made here leaves its history alone; one from
/// elsewhere leaves the history that it came with.
pub proof fn law_an_unchanged_write_keeps_the_file(
    before: Index,
    key: Seq<u8>,
    path: Seq<char>,
    data: Seq<u8>,
    mtime_ns: i64,
    stamp: Stamp,
    payloads: Payloads,
    disk: Disk,
    now: i64,
    after: Index,
    stats: PutStats,
    sealed: Seq<Payload>,
)
    requires
        db::files_distinct(before.files),
        store::next_id(before.files) <= i64::MAX,
        writing::data_put(
            before,
            key,
            path,
            data,
            mtime_ns,
            stamp,
            payloads,
            disk,
            now,
            after,
            stats,
            sealed,
        ),
        stats.unchanged,
    ensures
        payloads == Payloads::TrustIndex,
        sealed.len() == 0,
        is_known(before.files, path),
        is_known(after.files, path),
        forall|f: File, g: File| #[trigger]
            stands_at(after.files, path, f) && #[trigger] stands_at(before.files, path, g) ==> {
                &&& g.content_hash == digest::blake3_digest(data)
                &&& g.deleted_at is None
                &&& f == (File {
                    mtime_ns,
                    vector: f.vector,
                    modified_by: f.modified_by,
                    updated_at: f.updated_at,
                    ..g
                })
                &&& stamp is Local ==> f.vector == g.vector && f.modified_by == g.modified_by
                    && f.updated_at == now
            },
        after == (Index { files: after.files, ..before }),
        forall|f: File|
            !(f.path == path && f.scope is None) ==> (#[trigger] after.files.contains(f)
                <==> before.files.contains(f)),
{
    let m = choose|m: Manifest|
        chunker::manifest_for(m, data) && #[trigger] store::put_done(
            before,
            key,
            path,
            m,
            data,
            mtime_ns,
            stamp,
            payloads,
            disk,
            now,
            after,
            stats,
            sealed,
        );
    a_write_touches_one_file(
        before,
        key,
        path,
        m,
        data,
        mtime_ns,
        stamp,
        payloads,
        disk,
        now,
        after,
        stats,
        sealed,
    );
    found_is_standing(after.files, path);
    found_is_standing(before.files, path);
    others_are_the_same(before.files, after.files, path);
    db::find_finds(before.files, path, None);
    assert forall|f: File, g: File| #[trigger]
        stands_at(after.files, path, f) && #[trigger] stands_at(before.files, path, g) implies f
        == after.files[db::shared(after, path)] && g == before.files[db::shared(before, path)] by {
        standing_is_found(after.files, path, f);
        standing_is_found(before.files, path, g);
    }
}

/// A deletion made here is dated when it is made, is this device's, and takes its
/// next count. The tombstone keeps what the file was, and those of its chunks
/// whose payload is still held. No other file changes, and no chunk is forgotten.
pub proof fn law_a_deletion_is_recorded_as_it_was_made(
    ix: Index,
    path: Seq<char>,
    disk: Disk,
    now: i64,
)
    requires
        db::files_distinct(ix.files),
        store::next_id(ix.files) <= i64::MAX,
        ix.counter < u64::MAX,
        is_known(ix.files, path),
    ensures
        ({
            let after = lifecycle::deleted(ix, path, disk, now);
            let held = db::hashes(disk.held@);
            &&& is_known(after.files, path)
            &&& after.counter == ix.counter + 1
            &&& forall|f: File, g: File| #[trigger]
                stands_at(after.files, path, f) && #[trigger] stands_at(ix.files, path, g) ==> {
                    &&& f.deleted_at == Some(now)
                    &&& f.updated_at == now
                    &&& f.modified_by == Some(ix.device)
                    &&& clock::count(f.vector, ix.device) == ix.counter + 1
                    &&& forall|d: Seq<u8>|
                        d != ix.device ==> #[trigger] clock::count(f.vector, d) == clock::count(
                            g.vector,
                            d,
                        )
                    &&& f == (File {
                        deleted_at: f.deleted_at,
                        updated_at: f.updated_at,
                        modified_by: f.modified_by,
                        vector: f.vector,
                        chunks: f.chunks,
                        ..g
                    })
                    &&& forall|h: Seq<u8>| #[trigger]
                        f.chunks.contains(h) <==> g.chunks.contains(h) && (!disk.has_tree
                            || held.contains(h))
                    &&& !disk.has_tree ==> f.chunks == g.chunks
                }
            &&& forall|f: File|
                !(f.path == path && f.scope is None) ==> (#[trigger] after.files.contains(f)
                    <==> ix.files.contains(f))
            &&& forall|h: Seq<u8>| #[trigger]
                after.chunks.contains_key(h) <==> ix.chunks.contains_key(h)
            &&& after.replicas == ix.replicas
            &&& after.reported == ix.reported
            &&& after.history == ix.history
            &&& after.peers == ix.peers
            &&& after.device == ix.device
        }),
{
    let tomb = removal::tombstoned(ix, path, Stamp::Local, now);
    let held = db::hashes(disk.held@);
    let after = lifecycle::deleted(ix, path, disk, now);
    found_is_standing(ix.files, path);
    a_tombstone_touches_one_file(ix, path, Stamp::Local, now);
    let i = db::shared(ix, path);
    db::find_finds(ix.files, path, None);
    let g = ix.files[i];
    let f = after.files[i];
    assert(after.files =~= tomb.files.update(i, f));
    store::distinct_after_update(tomb.files, i, f);
    db::found_is_unique(after.files, i);
    assert(after.files =~= ix.files.update(i, f));
    found_is_standing(after.files, path);
    others_are_the_same(ix.files, after.files, path);
    held_ones_are_kept(g.chunks, held);
    let lost = removal::gone(g.chunks, held);
    assert forall|h: Seq<u8>| #[trigger] after.chunks.contains_key(h) <==> ix.chunks.contains_key(
        h,
    ) by {
        refcount::relinking_keeps_domain(ix.chunks, lost, lost, now, h);
    }
    assert forall|x: File, y: File| #[trigger]
        stands_at(after.files, path, x) && #[trigger] stands_at(ix.files, path, y) implies x == f
        && y == g by {
        standing_is_found(after.files, path, x);
        standing_is_found(ix.files, path, y);
    }
}

/// What is kept of a list is what is held of it.
proof fn held_ones_are_kept(list: Seq<Seq<u8>>, held: Seq<Seq<u8>>)
    ensures
        forall|h: Seq<u8>| #[trigger]
            removal::kept(list, held).contains(h) <==> list.contains(h) && held.contains(h),
    decreases list.len(),
{
    if list.len() > 0 {
        let rest = list.drop_last();
        held_ones_are_kept(rest, held);
        let some = removal::kept(rest, held);
        let all = removal::kept(list, held);
        let last = list.last();
        assert forall|h: Seq<u8>| #[trigger] all.contains(h) <==> list.contains(h)
            && held.contains(h) by {
            assert(list[list.len() - 1] == last);
            if list.contains(h) {
                let k = choose|k: int| 0 <= k < list.len() && list[k] == h;
                if k < rest.len() {
                    assert(rest[k] == h);
                }
            }
            if rest.contains(h) {
                let k = choose|k: int| 0 <= k < rest.len() && rest[k] == h;
                assert(list[k] == h);
            }
            if some.contains(h) {
                let k = choose|k: int| 0 <= k < some.len() && some[k] == h;
                assert(all[k] == h);
            }
            if all.contains(h) {
                let k = choose|k: int| 0 <= k < all.len() && all[k] == h;
                if k < some.len() {
                    assert(some[k] == h);
                }
            }
            if held.contains(last) {
                assert(all[some.len() as int] == last);
            }
        }
    }
}

/// A restoration brings back what was deleted under the path, wherever it is
/// kept, as a change made here and now; it leaves every other file alone.
pub proof fn law_a_restoration_is_recorded_as_it_was_made(ix: Index, path: Seq<char>, now: i64)
    requires
        db::files_distinct(ix.files),
        ix.counter < u64::MAX,
    ensures
        ({
            let after = lifecycle::restored(ix, path, now);
            &&& removal::restorable(ix.files, path) <==> exists|f: File| #[trigger]
                ix.files.contains(f) && f.path == path && f.deleted_at is Some
            &&& after.counter == ix.counter + 1
            &&& after.files.len() == ix.files.len()
            &&& forall|i: int|
                #![trigger after.files[i]]
                0 <= i < ix.files.len() ==> {
                    let f = after.files[i];
                    let g = ix.files[i];
                    if g.path == path && g.deleted_at is Some {
                        &&& f.deleted_at is None
                        &&& f.updated_at == now
                        &&& f.modified_by == Some(ix.device)
                        &&& clock::count(f.vector, ix.device) == ix.counter + 1
                        &&& g.scope is None ==> forall|d: Seq<u8>|
                            d != ix.device ==> #[trigger] clock::count(f.vector, d)
                                == clock::count(g.vector, d)
                        &&& f == (File {
                            deleted_at: f.deleted_at,
                            updated_at: f.updated_at,
                            modified_by: f.modified_by,
                            vector: f.vector,
                            ..g
                        })
                    } else {
                        f == g
                    }
                }
            &&& after == (Index { files: after.files, counter: after.counter, ..ix })
        }),
{
    let after = lifecycle::restored(ix, path, now);
    if removal::restorable(ix.files, path) {
        let i = choose|i: int|
            0 <= i < ix.files.len() && (#[trigger] ix.files[i]).path == path
                && ix.files[i].deleted_at is Some;
        assert(ix.files.contains(ix.files[i]));
    }
    if exists|f: File| #[trigger]
        ix.files.contains(f) && f.path == path && f.deleted_at is Some {
        let f = choose|f: File| #[trigger]
            ix.files.contains(f) && f.path == path && f.deleted_at is Some;
        let i = choose|i: int| 0 <= i < ix.files.len() && ix.files[i] == f;
        assert(ix.files[i].path == path);
    }
    assert forall|i: int|
        #![trigger after.files[i]]
        0 <= i < ix.files.len() && ix.files[i].path == path
            && ix.files[i].scope is None implies db::shared(ix, path) == i by {
        db::found_is_unique(ix.files, i);
    }
}

/// A file that was deleted within the window can be had back. It was deleted at
/// `deleted_at`, however long before that it was last changed; a collection that
/// keeps `retention` seconds runs at `later`, less than that after the deletion.
/// The tombstone is there afterwards, and restoring brings the file back with its
/// content. Where the collection runs later than that, nothing is left at the
/// path.
pub proof fn law_the_window_runs_from_the_deletion(
    ix: Index,
    path: Seq<char>,
    disk: Disk,
    deleted_at: i64,
    retention: u64,
    later: i64,
    restored_at: i64,
)
    requires
        db::files_distinct(ix.files),
        store::next_id(ix.files) <= i64::MAX,
        ix.counter < u64::MAX - 1,
        is_known(ix.files, path),
        retention <= i64::MAX,
        later - retention >= i64::MIN,
    ensures
        ({
            let dead = lifecycle::deleted(ix, path, disk, deleted_at);
            let left = gc::collected(dead, (later - retention) as i64, later);
            let back = lifecycle::restored(left, path, restored_at);
            &&& later - retention < deleted_at ==> {
                &&& forall|f: File| #[trigger]
                    stands_at(dead.files, path, f) ==> stands_at(left.files, path, f)
                &&& removal::restorable(left.files, path)
                &&& exists|f: File|
                    #![trigger stands_at(back.files, path, f)]
                    stands_at(back.files, path, f) && f.deleted_at is None && forall|g: File|
                        #[trigger]
                        stands_at(ix.files, path, g) ==> f.content_hash == g.content_hash
                            && f.size == g.size
            }
            &&& later - retention >= deleted_at ==> !is_known(left.files, path)
        }),
{
    let dead = lifecycle::deleted(ix, path, disk, deleted_at);
    let cutoff = (later - retention) as i64;
    let left = gc::collected(dead, cutoff, later);
    let back = lifecycle::restored(left, path, restored_at);
    law_a_deletion_is_recorded_as_it_was_made(ix, path, disk, deleted_at);
    gc::law_a_collection_takes_only_old_tombstones(dead, cutoff, later);
    let g = choose|g: File| #[trigger] stands_at(ix.files, path, g);
    if later - retention < deleted_at {
        assert forall|f: File| #[trigger] stands_at(dead.files, path, f) implies stands_at(
            left.files,
            path,
            f,
        ) by {
            assert(stands_at(ix.files, path, g));
            assert(left.files.contains(f));
        }
        let f = choose|f: File| #[trigger] stands_at(dead.files, path, f);
        assert(stands_at(dead.files, path, f) && stands_at(ix.files, path, g));
        assert(stands_at(left.files, path, f));
        let i = choose|i: int| 0 <= i < left.files.len() && left.files[i] == f;
        assert(removal::restorable(left.files, path)) by {
            assert(left.files[i].path == path);
        }
        let b = back.files[i];
        assert(back.files.contains(b));
        assert(stands_at(back.files, path, b));
        assert forall|y: File| #[trigger] stands_at(ix.files, path, y) implies b.content_hash
            == y.content_hash && b.size == y.size by {
            assert(stands_at(dead.files, path, f) && stands_at(ix.files, path, y));
        }
    } else if is_known(left.files, path) {
        let f = choose|f: File| #[trigger] stands_at(left.files, path, f);
        assert(left.files.contains(f));
        assert(stands_at(dead.files, path, f));
        assert(stands_at(dead.files, path, f) && stands_at(ix.files, path, g));
    }
}

/// Stamping a path changes its history and nothing else: what stands there has
/// the vector, the device and the time it was stamped with.
pub proof fn law_a_stamp_changes_history_only(
    ix: Index,
    path: Seq<char>,
    vector: Counts,
    by: Seq<u8>,
    at: i64,
)
    requires
        db::files_distinct(ix.files),
    ensures
        ({
            let after = writing::versioned(ix, path, vector, by, at);
            &&& is_known(after.files, path) <==> is_known(ix.files, path)
            &&& forall|f: File, g: File| #[trigger]
                stands_at(after.files, path, f) && #[trigger] stands_at(ix.files, path, g) ==> f
                    == (File { vector, modified_by: Some(by), updated_at: at, ..g })
            &&& forall|f: File|
                !(f.path == path && f.scope is None) ==> (#[trigger] after.files.contains(f)
                    <==> ix.files.contains(f))
            &&& after == (Index { files: after.files, ..ix })
        }),
{
    let after = writing::versioned(ix, path, vector, by, at);
    found_is_standing(ix.files, path);
    found_is_standing(after.files, path);
    db::find_finds(ix.files, path, None);
    let i = db::shared(ix, path);
    if i >= 0 {
        let f = after.files[i];
        assert(after.files == ix.files.update(i, f));
        store::distinct_after_update(ix.files, i, f);
        db::found_is_unique(after.files, i);
        others_are_the_same(ix.files, after.files, path);
        assert forall|x: File, y: File| #[trigger]
            stands_at(after.files, path, x) && #[trigger] stands_at(ix.files, path, y) implies x
            == f && y == ix.files[i] by {
            standing_is_found(after.files, path, x);
            standing_is_found(ix.files, path, y);
        }
    }
}

/// What is told of a file is what it is: deleted exactly where it was deleted,
/// and otherwise its own content and size, with its own history, wherever it is
/// kept and whether or not its bytes are held here. Nobody in particular, thirty-
/// two zero bytes, stands for a device that is not known.
pub open spec fn tells(v: Version, f: File) -> bool {
    &&& v.path == f.path
    &&& v.content is Deleted <==> f.deleted_at is Some
    &&& f.deleted_at is None ==> v.content == (Held::File { hash: f.content_hash, size: f.size })
    &&& v.vector == f.vector
    &&& v.modified_at == f.updated_at
    &&& f.modified_by is Some ==> v.modified_by == f.modified_by->0
    &&& f.modified_by is None ==> v.modified_by.len() == 32 && forall|i: int|
        #![trigger v.modified_by[i]]
        0 <= i < 32 ==> v.modified_by[i] == 0
}

/// What is told of a file tells what it is, and says nothing of where it is kept,
/// whether its bytes are held here or asked for, or what it is cut into: two
/// files that differ in nothing else are told of in the same way.
pub proof fn law_a_version_tells_what_the_file_is(f: File, g: File)
    ensures
        tells(queries::version_of(f), f),
        g == (File {
            id: g.id,
            scope: g.scope,
            mtime_ns: g.mtime_ns,
            created_at: g.created_at,
            materialised: g.materialised,
            touched_at: g.touched_at,
            wanted: g.wanted,
            chunks: g.chunks,
            ..f
        }) ==> queries::version_of(g) == queries::version_of(f),
{
}

/// Dropping the bytes of a path leaves everything that is told as it was: of each
/// file the same version is told as before, of the path itself too.
pub proof fn law_an_eviction_is_told_to_nobody(ix: Index, path: Seq<char>)
    requires
        db::files_distinct(ix.files),
    ensures
        ({
            let after = holding::evicted(ix, path);
            &&& after.files.len() == ix.files.len()
            &&& forall|i: int|
                #![trigger after.files[i]]
                0 <= i < ix.files.len() ==> {
                    &&& queries::version_of(after.files[i]) == queries::version_of(ix.files[i])
                    &&& after.files[i] == (File {
                        materialised: after.files[i].materialised,
                        ..ix.files[i]
                    })
                    &&& after.files[i].materialised <==> ix.files[i].materialised && !(
                    ix.files[i].path == path && ix.files[i].scope is None
                        && ix.files[i].deleted_at is None)
                }
            &&& db::shared(after, path) == db::shared(ix, path)
            &&& after == (Index { files: after.files, ..ix })
        }),
{
    let after = holding::evicted(ix, path);
    db::find_finds(ix.files, path, None);
    let k = db::shared(ix, path);
    if removal::live(ix, path) {
        store::distinct_after_update(ix.files, k, after.files[k]);
        assert(after.files == ix.files.update(k, after.files[k]));
        db::found_is_unique(after.files, k);
    }
    assert forall|i: int|
        #![trigger after.files[i]]
        0 <= i < ix.files.len() && ix.files[i].path == path
            && ix.files[i].scope is None implies i == k by {
        db::found_is_unique(ix.files, i);
    }
}

/// One of the payloads is that of the chunk.
pub open spec fn has_payload(sealed: Seq<Payload>, h: Seq<u8>) -> bool {
    exists|k: int| 0 <= k < sealed.len() && (#[trigger] sealed[k]).hash@ == h
}

/// Each payload opens under the key to bytes that hash to its name.
pub open spec fn opens_as_named(key: Seq<u8>, payload: Payload) -> bool {
    exists|plain: Seq<u8>| #[trigger]
        digest::blake3_digest(plain) == payload.hash@ && forall|hash: Seq<char>| #[trigger]
            sealing::opened(key, payload.bytes@, hash) == (Opened::Plain { bytes: plain })
}

/// A write names exactly the payloads that have to be written: those of the file's
/// chunks that the folder does not supply, and that are not both known and held;
/// where what is held is not to be trusted, whether they are held or not. Each opens
/// to what its name says, no name comes twice, and the account tells how many there
/// are and what they take.
pub proof fn law_a_write_names_the_payloads_it_needs(
    before: Index,
    key: Seq<u8>,
    path: Seq<char>,
    data: Seq<u8>,
    mtime_ns: i64,
    stamp: Stamp,
    payloads: Payloads,
    disk: Disk,
    now: i64,
    after: Index,
    stats: PutStats,
    sealed: Seq<Payload>,
)
    requires
        db::files_distinct(before.files),
        store::next_id(before.files) <= i64::MAX,
        writing::data_put(
            before,
            key,
            path,
            data,
            mtime_ns,
            stamp,
            payloads,
            disk,
            now,
            after,
            stats,
            sealed,
        ),
        !stats.unchanged,
    ensures
        forall|f: File, h: Seq<u8>| #[trigger]
            stands_at(after.files, path, f) && #[trigger] f.chunks.contains(h) ==> (has_payload(
                sealed,
                h,
            ) <==> !disk.in_tree && !(payloads == Payloads::TrustIndex
                && before.chunks.contains_key(h) && db::hashes(disk.held@).contains(h))),
        forall|f: File|
            #![trigger stands_at(after.files, path, f)]
            stands_at(after.files, path, f) ==> stats.chunks_total == f.chunks.len() && forall|
                k: int,
            |
                #![trigger sealed[k]]
                0 <= k < sealed.len() ==> f.chunks.contains(sealed[k].hash@),
        forall|k: int|
            #![trigger sealed[k]]
            0 <= k < sealed.len() ==> opens_as_named(key, sealed[k]),
        forall|k: int, l: int|
            #![trigger sealed[k], sealed[l]]
            0 <= k < l < sealed.len() ==> sealed[k].hash@ != sealed[l].hash@,
        stats.chunks_written == sealed.len(),
        stats.bytes_written == laws::payload_total(sealed),
{
    let m = choose|m: Manifest|
        chunker::manifest_for(m, data) && #[trigger] store::put_done(
            before,
            key,
            path,
            m,
            data,
            mtime_ns,
            stamp,
            payloads,
            disk,
            now,
            after,
            stats,
            sealed,
        );
    a_write_touches_one_file(
        before,
        key,
        path,
        m,
        data,
        mtime_ns,
        stamp,
        payloads,
        disk,
        now,
        after,
        stats,
        sealed,
    );
    let at = store::circumstances(before, payloads, disk);
    db::find_finds(before.files, path, None);
    let g = after.files[db::shared(after, path)];
    assert(g.chunks == store::chunk_list(m));
    payloads_of_a_plan(key, m, data, at, sealed);
    assert forall|f: File| #[trigger] stands_at(after.files, path, f) implies f == g by {
        standing_is_found(after.files, path, f);
    }
}

/// The payloads of a plan are those of the chunks that have to be written.
proof fn payloads_of_a_plan(
    key: Seq<u8>,
    m: Manifest,
    data: Seq<u8>,
    at: store::Circumstances,
    sealed: Seq<Payload>,
)
    requires
        chunker::chunked(m, data),
        store::sealed_for(
            key,
            sealed,
            store::writes(m.chunks@, m.chunks@.len() as int, data, at),
        ),
    ensures
        forall|h: Seq<u8>| #[trigger]
            store::chunk_list(m).contains(h) ==> (has_payload(sealed, h) <==> !at.in_tree && !(
            at.trust && at.known.contains(h) && at.held.contains(h))),
        forall|k: int|
            #![trigger sealed[k]]
            0 <= k < sealed.len() ==> store::chunk_list(m).contains(sealed[k].hash@)
                && opens_as_named(key, sealed[k]),
        forall|k: int, l: int|
            #![trigger sealed[k], sealed[l]]
            0 <= k < l < sealed.len() ==> sealed[k].hash@ != sealed[l].hash@,
        sealed.len() == store::cost(m.chunks@, m.chunks@.len() as int, data, at).0,
        laws::payload_total(sealed) == store::cost(
            m.chunks@,
            m.chunks@.len() as int,
            data,
            at,
        ).1,
{
    let list = m.chunks@;
    let n = list.len() as int;
    let planned = store::writes(list, n, data, at);
    let names = store::chunk_list(m);
    laws::law_the_bytes_written_are_the_payloads(key, list, n, data, at, sealed);
    laws::law_a_chunk_is_written_once(list, n, data, at);
    assert forall|k: int| #![trigger sealed[k]] 0 <= k < sealed.len() implies names.contains(
        sealed[k].hash@,
    ) && opens_as_named(key, sealed[k]) by {
        assert(store::sealed_as(key, sealed[k], planned[k]));
        laws::written_is_a_chunk(list, n, data, at, k);
        let j = choose|j: int|
            0 <= j < n && (#[trigger] list[j]).hash@ == planned[k].0 && store::chunk_data(
                list,
                j,
                data,
            ) == planned[k].1;
        assert(names[j] == sealed[k].hash@);
        assert(digest::blake3_digest(planned[k].1) == sealed[k].hash@);
    }
    assert forall|k: int, l: int|
        #![trigger sealed[k], sealed[l]]
        0 <= k < l < sealed.len() implies sealed[k].hash@ != sealed[l].hash@ by {
        assert(store::sealed_as(key, sealed[k], planned[k]));
        assert(store::sealed_as(key, sealed[l], planned[l]));
        assert(planned[k].0 != planned[l].0);
    }
    assert forall|h: Seq<u8>| #[trigger] names.contains(h) implies (has_payload(sealed, h)
        <==> !at.in_tree && !(at.trust && at.known.contains(h) && at.held.contains(h))) by {
        let i = choose|i: int| 0 <= i < names.len() && names[i] == h;
        assert(list[i].hash@ == h);
        laws::law_a_chunk_is_written_where_it_has_to_be(list, n, data, at, h);
        if has_payload(sealed, h) {
            let k = choose|k: int| 0 <= k < sealed.len() && (#[trigger] sealed[k]).hash@ == h;
            assert(store::sealed_as(key, sealed[k], planned[k]));
            assert(planned[k].0 == h);
        }
        if laws::is_written(list, n, data, at, h) {
            let k = choose|k: int| 0 <= k < planned.len() && (#[trigger] planned[k]).0 == h;
            assert(store::sealed_as(key, sealed[k], planned[k]));
            assert(sealed[k].hash@ == h);
        }
    }
}

/// A delivery names exactly the payloads that have to be written: those of its chunks
/// that are not both known and held. What the folder holds supplies none of them.
pub proof fn law_a_delivery_names_the_payloads_it_needs(
    before: Index,
    key: Seq<u8>,
    path: Seq<char>,
    device: Seq<u8>,
    data: Seq<u8>,
    mtime_ns: i64,
    held: Seq<Seq<u8>>,
    now: i64,
    after: Index,
    stats: PutStats,
    sealed: Seq<Payload>,
)
    requires
        db::files_distinct(before.files),
        store::next_id(before.files) <= i64::MAX,
        sending::data_sent(
            before,
            key,
            path,
            device,
            data,
            mtime_ns,
            held,
            now,
            after,
            stats,
            sealed,
        ),
    ensures
        exists|f: File|
            #![trigger after.files.contains(f)]
            after.files.contains(f) && f.path == path && f.scope == Some(device)
                && stats.chunks_total == f.chunks.len() && forall|h: Seq<u8>| #[trigger]
                f.chunks.contains(h) ==> (has_payload(sealed, h) <==> !(
                before.chunks.contains_key(h) && held.contains(h))),
        forall|k: int|
            #![trigger sealed[k]]
            0 <= k < sealed.len() ==> opens_as_named(key, sealed[k]),
        stats.chunks_written == sealed.len(),
        stats.bytes_written == laws::payload_total(sealed),
{
    let m = choose|m: Manifest|
        chunker::manifest_for(m, data) && #[trigger] sending::sending_done(
            before,
            key,
            path,
            device,
            m,
            data,
            mtime_ns,
            held,
            now,
            after,
            stats,
            sealed,
        );
    let at = sending::sending(before, held);
    db::find_finds(before.files, path, Some(device));
    let i = sending::in_vault(before, path, device);
    let k = if i >= 0 {
        i
    } else {
        before.files.len() as int
    };
    let f = after.files[k];
    assert(f.chunks == store::chunk_list(m));
    assert(after.files.contains(f));
    payloads_of_a_plan(key, m, data, at, sealed);
}

/// Whoever made it, and whether or not it changed anything, a write leaves the path
/// live with the bytes that were written.
pub proof fn law_a_write_leaves_what_was_written(
    before: Index,
    key: Seq<u8>,
    path: Seq<char>,
    data: Seq<u8>,
    mtime_ns: i64,
    stamp: Stamp,
    payloads: Payloads,
    disk: Disk,
    now: i64,
    after: Index,
    stats: PutStats,
    sealed: Seq<Payload>,
)
    requires
        db::files_distinct(before.files),
        store::next_id(before.files) <= i64::MAX,
        before.counter < u64::MAX,
        writing::data_put(
            before,
            key,
            path,
            data,
            mtime_ns,
            stamp,
            payloads,
            disk,
            now,
            after,
            stats,
            sealed,
        ),
    ensures
        holds_content(after.files, path, digest::blake3_digest(data)),
{
    if stats.unchanged {
        law_an_unchanged_write_keeps_the_file(
            before,
            key,
            path,
            data,
            mtime_ns,
            stamp,
            payloads,
            disk,
            now,
            after,
            stats,
            sealed,
        );
        let g = choose|g: File| #[trigger] stands_at(before.files, path, g);
        assert forall|f: File| #[trigger] stands_at(after.files, path, f) implies f.deleted_at is None
            && f.content_hash == digest::blake3_digest(data) by {
            assert(stands_at(after.files, path, f) && stands_at(before.files, path, g));
        }
    } else {
        law_a_write_is_recorded_as_it_was_made(
            before,
            key,
            path,
            data,
            mtime_ns,
            stamp,
            payloads,
            disk,
            now,
            after,
            stats,
            sealed,
        );
    }
}

/// An edit made here on top of a version that was taken on has seen it: it comes
/// strictly after that version, and is no conflict with it. Asked for is that the
/// version claims no more changes of this device than it has made.
pub proof fn law_an_edit_comes_after_what_was_taken_on(ix: Index, v: Version)
    requires
        db::files_distinct(ix.files),
        is_taken_on(ix.files, v),
        clock::count(v.vector, ix.device) <= ix.counter,
        ix.counter < u64::MAX,
    ensures
        clock::causality(store::local_vector(ix, v.path), v.vector) == Causality::After,
{
    found_is_standing(ix.files, v.path);
    laws::law_a_local_change_comes_after(ix, v.path);
}

} // verus!
