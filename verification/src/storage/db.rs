//! The metadata index.
//!
//! Holds paths, chunk lists, and chunk reference counts. Chunk *payloads* lie in
//! the chunk store on disk; see [`super::cas`].
//!
//! # Reference counting
//!
//! Deduplication means one chunk may belong to many files, so a chunk can only
//! be deleted once nothing points at it. Every link that is made or dropped
//! counts, whatever the reason, so the count cannot drift because a code path
//! forgot to decrement.

use vstd::prelude::*;

use super::activity;
use super::activity::{Activity, Happening};
use super::chunker::ContentHash;
use super::peers;
use super::peers::{Peer, TrustedPeer};
use crate::keyed;
use crate::order::same_bytes;
use crate::sync::clock::{Counts, VersionVector};
use crate::sync::device::DeviceId;

verus! {

/// What the index knows of a chunk.
#[derive(Debug, Clone, Copy)]
pub struct ChunkRow {
    pub hash: ContentHash,
    /// Plaintext bytes.
    pub size: u64,
    /// Bytes on disk after compressing and encrypting.
    pub stored_size: u64,
    pub refcount: i64,
    /// Unix seconds when the count last came to nothing.
    pub unreferenced_at: Option<i64>,
}

/// What the index knows of a chunk, as values.
pub struct ChunkFacts {
    pub size: u64,
    pub stored_size: u64,
    pub refcount: i64,
    pub unreferenced_at: Option<i64>,
}

impl ChunkRow {
    pub open spec fn facts(&self) -> ChunkFacts {
        ChunkFacts {
            size: self.size,
            stored_size: self.stored_size,
            refcount: self.refcount,
            unreferenced_at: self.unreferenced_at,
        }
    }
}

/// A logical file as the index sees it.
#[derive(Debug)]
pub struct FileRow {
    pub id: i64,
    pub path: String,
    /// The vault the file belongs to; `None` is the shared area.
    pub scope: Option<DeviceId>,
    pub size: u64,
    pub content_hash: ContentHash,
    pub mtime_ns: i64,
    pub created_at: i64,
    pub updated_at: i64,
    /// When the file was deleted; `None` means live.
    pub deleted_at: Option<i64>,
    /// What this version has seen.
    pub vector: VersionVector,
    /// Which device last changed it, if known.
    pub modified_by: Option<DeviceId>,
    /// Whether this device is holding the file's bytes, or only knows about it.
    pub materialised: bool,
    /// When the file was last read or written here.
    pub touched_at: i64,
    /// A standing request to have this file's bytes back.
    pub wanted: bool,
    /// The chunks that make up the file, in order.
    pub chunks: Vec<ContentHash>,
}

/// A logical file as the index sees it, as values.
pub struct File {
    pub id: i64,
    pub path: Seq<char>,
    pub scope: Option<Seq<u8>>,
    pub size: u64,
    pub content_hash: Seq<u8>,
    pub mtime_ns: i64,
    pub created_at: i64,
    pub updated_at: i64,
    pub deleted_at: Option<i64>,
    pub vector: Counts,
    pub modified_by: Option<Seq<u8>>,
    pub materialised: bool,
    pub touched_at: i64,
    pub wanted: bool,
    pub chunks: Seq<Seq<u8>>,
}

/// An optional device, as a value.
pub open spec fn device_view(device: Option<DeviceId>) -> Option<Seq<u8>> {
    match device {
        Some(d) => Some(d@),
        None => None,
    }
}

/// Hashes, as values.
pub open spec fn hashes(s: Seq<ContentHash>) -> Seq<Seq<u8>> {
    Seq::new(s.len(), |i: int| s[i]@)
}

impl View for FileRow {
    type V = File;

    open spec fn view(&self) -> File {
        File {
            id: self.id,
            path: self.path@,
            scope: device_view(self.scope),
            size: self.size,
            content_hash: self.content_hash@,
            mtime_ns: self.mtime_ns,
            created_at: self.created_at,
            updated_at: self.updated_at,
            deleted_at: self.deleted_at,
            vector: self.vector@,
            modified_by: device_view(self.modified_by),
            materialised: self.materialised,
            touched_at: self.touched_at,
            wanted: self.wanted,
            chunks: hashes(self.chunks@),
        }
    }
}

/// That a device is known to hold some content.
#[derive(Debug, Clone, Copy)]
pub struct ReplicaRow {
    pub content_hash: ContentHash,
    pub device_id: DeviceId,
    pub at: i64,
    /// The device took it into its own vault, where nobody can ask for it back.
    pub private: bool,
}

/// That a device has been told some content is held here.
#[derive(Debug, Clone, Copy)]
pub struct ReportRow {
    pub device_id: DeviceId,
    pub content_hash: ContentHash,
    pub at: i64,
}

/// The index.
#[derive(Debug)]
pub struct Db {
    /// This device's identity: what every version vector here counts against.
    pub device: DeviceId,
    /// How many changes this device has made.
    pub counter: u64,
    /// Known files, in the order in which they came to be known.
    pub files: Vec<FileRow>,
    pub chunks: Vec<ChunkRow>,
    pub replicas: Vec<ReplicaRow>,
    pub reported: Vec<ReportRow>,
    /// What happened, in the order in which it was written down.
    pub history: Vec<Activity>,
    /// Devices this one has paired with.
    pub peers: Vec<TrustedPeer>,
}

/// The index, as values.
pub struct Index {
    pub device: Seq<u8>,
    pub counter: u64,
    pub files: Seq<File>,
    pub chunks: Map<Seq<u8>, ChunkFacts>,
    /// By content and device: when it was noted, and whether it is private.
    pub replicas: Map<(Seq<u8>, Seq<u8>), (i64, bool)>,
    /// By device and content: when it was reported.
    pub reported: Map<(Seq<u8>, Seq<u8>), i64>,
    pub history: Seq<Happening>,
    pub peers: Seq<Peer>,
}

/// Files, as values.
pub open spec fn file_views(s: Seq<FileRow>) -> Seq<File> {
    Seq::new(s.len(), |i: int| s[i]@)
}

pub open spec fn chunk_pairs(s: Seq<ChunkRow>) -> Seq<(Seq<u8>, ChunkFacts)> {
    Seq::new(s.len(), |i: int| (s[i].hash@, s[i].facts()))
}

pub open spec fn replica_pairs(s: Seq<ReplicaRow>) -> Seq<((Seq<u8>, Seq<u8>), (i64, bool))> {
    Seq::new(
        s.len(),
        |i: int| ((s[i].content_hash@, s[i].device_id@), (s[i].at, s[i].private)),
    )
}

pub open spec fn report_pairs(s: Seq<ReportRow>) -> Seq<((Seq<u8>, Seq<u8>), i64)> {
    Seq::new(s.len(), |i: int| ((s[i].device_id@, s[i].content_hash@), s[i].at))
}

impl View for Db {
    type V = Index;

    open spec fn view(&self) -> Index {
        Index {
            device: self.device@,
            counter: self.counter,
            files: file_views(self.files@),
            chunks: keyed::to_map(chunk_pairs(self.chunks@)),
            replicas: keyed::to_map(replica_pairs(self.replicas@)),
            reported: keyed::to_map(report_pairs(self.reported@)),
            history: activity::happenings(self.history@),
            peers: peers::peer_views(self.peers@),
        }
    }
}

/// No place holds one path twice, and files are numbered in the order in which
/// they came.
pub open spec fn files_distinct(files: Seq<File>) -> bool {
    &&& forall|i: int, j: int|
        #![trigger files[i], files[j]]
        0 <= i < j < files.len() ==> files[i].id < files[j].id && !(files[i].path == files[j].path
            && files[i].scope == files[j].scope)
}

impl Db {
    /// What the index always keeps.
    pub open spec fn wf(&self) -> bool {
        &&& files_distinct(file_views(self.files@))
        &&& keyed::distinct(chunk_pairs(self.chunks@))
        &&& keyed::distinct(replica_pairs(self.replicas@))
        &&& keyed::distinct(report_pairs(self.reported@))
        &&& activity::numbered(activity::happenings(self.history@))
        &&& peers::apart(peers::peer_views(self.peers@))
    }
}

/// How often a hash stands in a list.
pub open spec fn uses(list: Seq<Seq<u8>>, hash: Seq<u8>) -> nat
    decreases list.len(),
{
    if list.len() == 0 {
        0
    } else {
        uses(list.drop_last(), hash) + if list.last() == hash {
            1nat
        } else {
            0
        }
    }
}

/// How many links to a chunk there are.
pub open spec fn links(files: Seq<File>, hash: Seq<u8>) -> nat
    decreases files.len(),
{
    if files.len() == 0 {
        0
    } else {
        links(files.drop_last(), hash) + uses(files.last().chunks, hash)
    }
}

/// Every stored count is the number of links, and the retention clock of a chunk
/// runs exactly while nothing links to it.
pub open spec fn counted(ix: Index) -> bool {
    forall|h: Seq<u8>| #[trigger]
        ix.chunks.contains_key(h) ==> {
            &&& ix.chunks[h].refcount == links(ix.files, h)
            &&& ix.chunks[h].refcount == 0 <==> ix.chunks[h].unreferenced_at is Some
        }
}

/// Every chunk that a file is made of is in the index.
pub open spec fn all_known(ix: Index) -> bool {
    forall|i: int, k: int|
        #![trigger ix.files[i].chunks[k]]
        0 <= i < ix.files.len() && 0 <= k < ix.files[i].chunks.len() ==> ix.chunks.contains_key(
            ix.files[i].chunks[k],
        )
}

/// Where the file with this path in this place stands, or -1.
pub open spec fn find(files: Seq<File>, path: Seq<char>, scope: Option<Seq<u8>>) -> int
    decreases files.len(),
{
    if files.len() == 0 {
        -1
    } else if files.last().path == path && files.last().scope == scope {
        files.len() - 1
    } else {
        find(files.drop_last(), path, scope)
    }
}

/// A file that is found is the one.
pub proof fn find_finds(files: Seq<File>, path: Seq<char>, scope: Option<Seq<u8>>)
    ensures
        -1 <= find(files, path, scope) < files.len(),
        find(files, path, scope) >= 0 ==> files[find(files, path, scope)].path == path
            && files[find(files, path, scope)].scope == scope,
        find(files, path, scope) < 0 ==> forall|i: int|
            #![trigger files[i]]
            0 <= i < files.len() ==> !(files[i].path == path && files[i].scope == scope),
    decreases files.len(),
{
    if files.len() > 0 && !(files.last().path == path && files.last().scope == scope) {
        let rest = files.drop_last();
        find_finds(rest, path, scope);
        if find(files, path, scope) < 0 {
            assert forall|i: int| #![trigger files[i]] 0 <= i < files.len() implies !(files[i].path
                == path && files[i].scope == scope) by {
                if i < rest.len() {
                    assert(rest[i] == files[i]);
                }
            }
        }
    }
}

/// Where there is such a file, it is found, and it is the only one.
pub proof fn found_is_unique(files: Seq<File>, i: int)
    requires
        files_distinct(files),
        0 <= i < files.len(),
    ensures
        find(files, files[i].path, files[i].scope) == i,
{
    find_finds(files, files[i].path, files[i].scope);
    let k = find(files, files[i].path, files[i].scope);
    if k < 0 {
        assert(files[i].path == files[i].path);
    } else if k < i {
        assert(files[k].path == files[i].path && files[k].scope == files[i].scope);
    } else if i < k {
        assert(files[k].path == files[i].path && files[k].scope == files[i].scope);
    }
}

/// The file at a path in the shared area.
pub open spec fn shared(ix: Index, path: Seq<char>) -> int {
    find(ix.files, path, None)
}

/// Whether two optional devices are the same.
pub fn same_scope(a: &Option<DeviceId>, b: &Option<DeviceId>) -> (same: bool)
    ensures
        same == (device_view(*a) == device_view(*b)),
{
    match (a, b) {
        (Some(x), Some(y)) => *x == *y,
        (None, None) => true,
        _ => false,
    }
}

/// Whether a hash is among the first ones of a list.
pub fn has_hash(list: &Vec<ContentHash>, hash: &ContentHash) -> (yes: bool)
    ensures
        yes == hashes(list@).contains(hash@),
{
    let mut i: usize = 0;
    while i < list.len()
        invariant
            i <= list@.len(),
            forall|j: int| 0 <= j < i ==> (#[trigger] list@[j])@ != hash@,
        decreases list@.len() - i,
    {
        if same_bytes(&list[i], hash) {
            assert(hashes(list@)[i as int] == hash@);
            return true;
        }
        i += 1;
    }
    assert forall|j: int| 0 <= j < list@.len() implies hashes(list@)[j] != hash@ by {
        assert(list@[j]@ != hash@);
    }
    false
}

impl Db {
    /// An index that knows nothing yet, of a device with this identity.
    pub fn new(device: DeviceId) -> (db: Self)
        ensures
            db.wf(),
            db@ == (Index {
                device: device@,
                counter: 0,
                files: Seq::empty(),
                chunks: Map::empty(),
                replicas: Map::empty(),
                reported: Map::empty(),
                history: Seq::empty(),
                peers: Seq::empty(),
            }),
            counted(db@),
            all_known(db@),
    {
        let db = Db {
            device,
            counter: 0,
            files: Vec::new(),
            chunks: Vec::new(),
            replicas: Vec::new(),
            reported: Vec::new(),
            history: Vec::new(),
            peers: Vec::new(),
        };
        proof {
            keyed::empty_map(chunk_pairs(db.chunks@));
            keyed::empty_map(replica_pairs(db.replicas@));
            keyed::empty_map(report_pairs(db.reported@));
            assert(file_views(db.files@) =~= Seq::<File>::empty());
            assert(activity::happenings(db.history@) =~= Seq::<Happening>::empty());
            assert(peers::peer_views(db.peers@) =~= Seq::<Peer>::empty());
        }
        db
    }

    /// Where the file with this path in this place stands.
    pub fn position(&self, path: &str, scope: &Option<DeviceId>) -> (found: Option<usize>)
        ensures
            match found {
                Some(i) => i == find(self@.files, path@, device_view(*scope)) && i
                    < self.files@.len(),
                None => find(self@.files, path@, device_view(*scope)) < 0,
            },
    {
        let ghost all = self@.files;
        let mut i: usize = self.files.len();
        assert(all.take(all.len() as int) =~= all);
        while i > 0
            invariant
                i <= self.files@.len(),
                all == self@.files,
                find(all, path@, device_view(*scope)) == find(
                    all.take(i as int),
                    path@,
                    device_view(*scope),
                ),
            decreases i,
        {
            i -= 1;
            assert(all.take(i + 1).drop_last() =~= all.take(i as int));
            assert(all.take(i + 1).last() == self.files@[i as int]@);
            if crate::text::same_text(&self.files[i].path, path) && same_scope(
                &self.files[i].scope,
                scope,
            ) {
                return Some(i);
            }
        }
        None
    }

    /// Where a chunk stands in the index.
    pub(crate) fn chunk_at(&self, hash: &ContentHash) -> (found: Option<usize>)
        requires
            self.wf(),
        ensures
            match found {
                Some(i) => {
                    &&& i < self.chunks@.len()
                    &&& self.chunks@[i as int].hash@ == hash@
                    &&& self@.chunks.contains_key(hash@)
                    &&& self@.chunks[hash@] == self.chunks@[i as int].facts()
                },
                None => !self@.chunks.contains_key(hash@),
            },
    {
        let ghost s = chunk_pairs(self.chunks@);
        let mut i: usize = 0;
        while i < self.chunks.len()
            invariant
                i <= self.chunks@.len(),
                self.wf(),
                s == chunk_pairs(self.chunks@),
                forall|j: int| 0 <= j < i ==> (#[trigger] s[j]).0 != hash@,
            decreases self.chunks@.len() - i,
        {
            if same_bytes(&self.chunks[i].hash, hash) {
                proof {
                    keyed::entry_in_map(s, i as int);
                }
                return Some(i);
            }
            assert(s[i as int].0 != hash@);
            i += 1;
        }
        proof {
            keyed::key_in_map(s, hash@);
        }
        None
    }

    pub fn chunk(&self, hash: &ContentHash) -> (row: Option<ChunkRow>)
        requires
            self.wf(),
        ensures
            match row {
                Some(r) => self@.chunks.contains_key(hash@) && r.hash@ == hash@ && r.facts()
                    == self@.chunks[hash@],
                None => !self@.chunks.contains_key(hash@),
            },
    {
        match self.chunk_at(hash) {
            Some(i) => Some(self.chunks[i]),
            None => None,
        }
    }

    pub fn has_chunk(&self, hash: &ContentHash) -> (known: bool)
        requires
            self.wf(),
        ensures
            known == self@.chunks.contains_key(hash@),
    {
        self.chunk_at(hash).is_some()
    }

    /// Record a chunk that has just been written to the store, if it is not
    /// recorded yet.
    ///
    /// Nothing links to it, and the retention clock is already running, so that
    /// a crash between writing the payload and linking it to a file leaves a
    /// chunk that garbage collection will eventually reclaim rather than an
    /// orphan that lives forever.
    pub fn insert_chunk(&mut self, hash: &ContentHash, size: u64, stored_size: u64, now: i64)
        requires
            old(self).wf(),
        ensures
            final(self).wf(),
            final(self)@ == (Index {
                chunks: chunk_inserted(old(self)@.chunks, hash@, size, stored_size, now),
                ..old(self)@
            }),
            final(self).files == old(self).files,
    {
        if self.has_chunk(hash) {
            return;
        }
        let ghost s = chunk_pairs(self.chunks@);
        let row: ChunkRow = ChunkRow {
            hash: *hash,
            size,
            stored_size,
            refcount: 0,
            unreferenced_at: Some(now),
        };
        self.chunks.push(row);
        proof {
            keyed::pushed(s, (hash@, row.facts()));
            assert(chunk_pairs(self.chunks@) =~= s.push((hash@, row.facts())));
        }
    }
}

/// The chunks with one more, if it was not there.
pub open spec fn chunk_inserted(
    chunks: Map<Seq<u8>, ChunkFacts>,
    hash: Seq<u8>,
    size: u64,
    stored_size: u64,
    now: i64,
) -> Map<Seq<u8>, ChunkFacts> {
    if chunks.contains_key(hash) {
        chunks
    } else {
        chunks.insert(
            hash,
            ChunkFacts { size, stored_size, refcount: 0, unreferenced_at: Some(now) },
        )
    }
}

/// One link more.
pub open spec fn linked(chunks: Map<Seq<u8>, ChunkFacts>, hash: Seq<u8>) -> Map<
    Seq<u8>,
    ChunkFacts,
> {
    if chunks.contains_key(hash) {
        let c = chunks[hash];
        chunks.insert(
            hash,
            ChunkFacts {
                refcount: if c.refcount == i64::MAX {
                    i64::MAX
                } else {
                    (c.refcount + 1) as i64
                },
                unreferenced_at: None,
                ..c
            },
        )
    } else {
        chunks
    }
}

/// One link less. The retention clock starts the moment the last one goes.
pub open spec fn unlinked(chunks: Map<Seq<u8>, ChunkFacts>, hash: Seq<u8>, now: i64) -> Map<
    Seq<u8>,
    ChunkFacts,
> {
    if chunks.contains_key(hash) {
        let c = chunks[hash];
        let left = if c.refcount == i64::MIN {
            i64::MIN
        } else {
            (c.refcount - 1) as i64
        };
        chunks.insert(
            hash,
            ChunkFacts {
                refcount: left,
                unreferenced_at: if left <= 0 {
                    Some(now)
                } else {
                    None
                },
                ..c
            },
        )
    } else {
        chunks
    }
}

/// A link more for each hash of the list.
pub open spec fn all_linked(chunks: Map<Seq<u8>, ChunkFacts>, list: Seq<Seq<u8>>) -> Map<
    Seq<u8>,
    ChunkFacts,
>
    decreases list.len(),
{
    if list.len() == 0 {
        chunks
    } else {
        linked(all_linked(chunks, list.drop_last()), list.last())
    }
}

/// A link less for each hash of the list.
pub open spec fn all_unlinked(
    chunks: Map<Seq<u8>, ChunkFacts>,
    list: Seq<Seq<u8>>,
    now: i64,
) -> Map<Seq<u8>, ChunkFacts>
    decreases list.len(),
{
    if list.len() == 0 {
        chunks
    } else {
        unlinked(all_unlinked(chunks, list.drop_last(), now), list.last(), now)
    }
}

/// What rows take on disk.
pub open spec fn row_total(rows: Seq<ChunkRow>) -> nat
    decreases rows.len(),
{
    if rows.len() == 0 {
        0
    } else {
        row_total(rows.drop_last()) + rows.last().stored_size as nat
    }
}

proof fn total_of_update(rows: Seq<ChunkRow>, i: int, row: ChunkRow)
    requires
        0 <= i < rows.len(),
        row.stored_size == rows[i].stored_size,
    ensures
        row_total(rows.update(i, row)) == row_total(rows),
    decreases rows.len(),
{
    let next = rows.update(i, row);
    if i == rows.len() - 1 {
        assert(next.drop_last() =~= rows.drop_last());
    } else {
        total_of_update(rows.drop_last(), i, row);
        assert(next.drop_last() =~= rows.drop_last().update(i, row));
        assert(next.last() == rows.last());
    }
}

impl Db {
    pub(crate) fn set_chunk(&mut self, at: usize, row: ChunkRow)
        requires
            old(self).wf(),
            at < old(self).chunks@.len(),
            old(self).chunks@[at as int].hash@ == row.hash@,
        ensures
            final(self).wf(),
            row.stored_size == old(self).chunks@[at as int].stored_size ==> row_total(
                final(self).chunks@,
            ) == row_total(old(self).chunks@),
            final(self)@ == (Index {
                chunks: old(self)@.chunks.insert(row.hash@, row.facts()),
                ..old(self)@
            }),
            final(self).files == old(self).files,
    {
        let ghost s = chunk_pairs(self.chunks@);
        self.chunks.set(at, row);
        proof {
            keyed::replaced(s, at as int, (row.hash@, row.facts()));
            if row.stored_size == old(self).chunks@[at as int].stored_size {
                total_of_update(old(self).chunks@, at as int, row);
            }
            assert(chunk_pairs(self.chunks@) =~= s.update(at as int, (row.hash@, row.facts())));
        }
    }

    /// Counts one link more for each chunk of the list.
    pub fn link_all(&mut self, list: &Vec<ContentHash>)
        requires
            old(self).wf(),
        ensures
            final(self).wf(),
            final(self)@ == (Index {
                chunks: all_linked(old(self)@.chunks, hashes(list@)),
                ..old(self)@
            }),
            final(self).files == old(self).files,
            row_total(final(self).chunks@) == row_total(old(self).chunks@),
    {
        let ghost all = hashes(list@);
        let mut i: usize = 0;
        while i < list.len()
            invariant
                i <= list@.len(),
                all == hashes(list@),
                self.wf(),
                self.files == old(self).files,
                row_total(self.chunks@) == row_total(old(self).chunks@),
                self@ == (Index {
                    chunks: all_linked(old(self)@.chunks, all.take(i as int)),
                    ..old(self)@
                }),
            decreases list@.len() - i,
        {
            proof {
                assert(all.take(i + 1).drop_last() =~= all.take(i as int));
                assert(all.take(i + 1).last() == list@[i as int]@);
            }
            match self.chunk_at(&list[i]) {
                Some(at) => {
                    let row: ChunkRow = self.chunks[at];
                    let refcount: i64 = if row.refcount == i64::MAX {
                        i64::MAX
                    } else {
                        row.refcount + 1
                    };
                    self.set_chunk(at, ChunkRow { refcount, unreferenced_at: None, ..row });
                },
                None => {},
            }
            i += 1;
        }
        assert(all.take(i as int) =~= all);
    }

    /// Counts one link less for each chunk of the list.
    pub fn unlink_all(&mut self, list: &Vec<ContentHash>, now: i64)
        requires
            old(self).wf(),
        ensures
            final(self).wf(),
            final(self)@ == (Index {
                chunks: all_unlinked(old(self)@.chunks, hashes(list@), now),
                ..old(self)@
            }),
            final(self).files == old(self).files,
            row_total(final(self).chunks@) == row_total(old(self).chunks@),
    {
        let ghost all = hashes(list@);
        let mut i: usize = 0;
        while i < list.len()
            invariant
                i <= list@.len(),
                all == hashes(list@),
                self.wf(),
                self.files == old(self).files,
                row_total(self.chunks@) == row_total(old(self).chunks@),
                self@ == (Index {
                    chunks: all_unlinked(old(self)@.chunks, all.take(i as int), now),
                    ..old(self)@
                }),
            decreases list@.len() - i,
        {
            proof {
                assert(all.take(i + 1).drop_last() =~= all.take(i as int));
                assert(all.take(i + 1).last() == list@[i as int]@);
            }
            match self.chunk_at(&list[i]) {
                Some(at) => {
                    let row: ChunkRow = self.chunks[at];
                    let refcount: i64 = if row.refcount == i64::MIN {
                        i64::MIN
                    } else {
                        row.refcount - 1
                    };
                    let unreferenced_at: Option<i64> = if refcount <= 0 {
                        Some(now)
                    } else {
                        None
                    };
                    self.set_chunk(at, ChunkRow { refcount, unreferenced_at, ..row });
                },
                None => {},
            }
            i += 1;
        }
        assert(all.take(i as int) =~= all);
    }
}

} // verus!
