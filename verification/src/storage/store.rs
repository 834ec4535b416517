//! The storage rules: what happens to the index and to the payloads when a file
//! is written, read, deleted, restored or dropped.
//!
//! Payloads lie on disk, in the chunk store or in the folder the user sees.
//! Reading and writing them is left to the caller; what is decided here is what
//! to write, in which order, and what to make of what was read. The order that
//! keeps the two consistent: payloads are written *before* the index is told
//! they exist. A crash between the two leaves payloads that nothing references,
//! which garbage collection reclaims. The opposite order would leave index
//! entries pointing at payloads that were never written.

use vstd::prelude::*;

use super::chunker;
use super::chunker::{ChunkRef, ContentHash, Manifest};
use super::db;
use super::db::{has_hash, ChunkFacts, Db, File, FileRow, Index};
use super::error::Error;
use super::sealing;
use super::sealing::{seal, ChunkKey};
use super::refcount;
use crate::bytes::part;
use crate::order::same_bytes;
use crate::sync::clock;
use crate::sync::clock::{Counts, VersionVector};
use crate::sync::device::DeviceId;
use crate::sync::version::FileVersion;

verus! {

/// Whose change this is.
///
/// The distinction matters because a version vector records *who* saw what. A
/// change made here advances this device's counter; a version received from a
/// peer keeps the vector it arrived with. Stamping a received version as local
/// would claim this device had seen changes it has not.
pub enum Stamp<'a> {
    Local,
    Remote(&'a FileVersion),
}

/// Whether the "content already matches" short-circuit may be taken.
///
/// That short-circuit assumes matching content means the payloads are still on
/// disk, which is true on every path except repair, which has just discarded
/// them on purpose.
#[derive(Debug, Clone, Copy, PartialEq, Eq, Structural)]
pub enum Payloads {
    /// Skip the work if the index already agrees. The hot path.
    TrustIndex,
    /// Write every chunk, whatever the index believes.
    Rewrite,
}

/// What a write actually cost.
#[derive(Debug, Clone, Copy, PartialEq, Eq, Structural)]
pub struct PutStats {
    pub chunks_total: usize,
    /// Chunks whose payload had to be written; the rest were already held.
    pub chunks_written: usize,
    pub bytes_written: u64,
    pub bytes_deduplicated: u64,
    /// The file was already stored with identical content; only metadata moved.
    pub unchanged: bool,
}

impl Default for PutStats {
    fn default() -> (stats: Self)
        ensures
            stats == (PutStats {
                chunks_total: 0,
                chunks_written: 0,
                bytes_written: 0,
                bytes_deduplicated: 0,
                unchanged: false,
            }),
    {
        PutStats {
            chunks_total: 0,
            chunks_written: 0,
            bytes_written: 0,
            bytes_deduplicated: 0,
            unchanged: false,
        }
    }
}

/// What is on disk, as far as one write is concerned.
pub struct Disk {
    /// Whether this device keeps a folder that the user sees.
    pub has_tree: bool,
    /// Whether that folder holds a readable file at the path being written.
    pub in_tree: bool,
    /// Chunks whose payload the chunk store holds.
    pub held: Vec<ContentHash>,
}

/// A payload to be written to the chunk store, unless it is there already.
pub struct Payload {
    pub hash: ContentHash,
    pub bytes: Vec<u8>,
}

/// What becomes of one chunk of a file that is being written.
pub enum Fate {
    /// The file has it twice, and the first one counts.
    Repeated,
    /// The index knows it and the chunk store holds it.
    Held,
    /// The file that the user sees supplies it.
    InTree,
    /// Its payload is written.
    Written,
}

/// Everything that decides what becomes of the chunks of a file.
pub struct Circumstances {
    pub trust: bool,
    pub known: Set<Seq<u8>>,
    pub held: Seq<Seq<u8>>,
    pub in_tree: bool,
}

/// What becomes of the `i`-th chunk.
pub open spec fn fate(list: Seq<ChunkRef>, i: int, at: Circumstances) -> Fate {
    let hash = list[i].hash@;
    if exists|j: int| 0 <= j < i && (#[trigger] list[j]).hash@ == hash {
        Fate::Repeated
    } else if at.trust && at.known.contains(hash) && at.held.contains(hash) {
        Fate::Held
    } else if at.in_tree {
        Fate::InTree
    } else {
        Fate::Written
    }
}

/// The bytes of the `i`-th chunk.
pub open spec fn chunk_data(list: Seq<ChunkRef>, i: int, data: Seq<u8>) -> Seq<u8> {
    data.subrange(list[i].offset as int, list[i].offset + list[i].len)
}

/// How many bytes a chunk takes in the chunk store.
pub open spec fn stored_len(plain: Seq<u8>) -> nat {
    sealing::stored_len(
        sealing::zstd_encoded(plain, sealing::ZSTD_LEVEL as int).len(),
        plain.len(),
    )
}

/// What the first `n` chunks cost.
pub open spec fn cost(list: Seq<ChunkRef>, n: int, data: Seq<u8>, at: Circumstances) -> (
    nat,
    nat,
    nat,
)
    decreases n,
{
    if n <= 0 {
        (0, 0, 0)
    } else {
        let (chunks, bytes, saved) = cost(list, n - 1, data, at);
        match fate(list, n - 1, at) {
            Fate::Written => (
                chunks + 1,
                bytes + stored_len(chunk_data(list, n - 1, data)),
                saved,
            ),
            _ => (chunks, bytes, saved + list[n - 1].len as nat),
        }
    }
}

/// The chunks to be recorded among the first `n`: hash, size, size in the chunk
/// store. What the folder supplies takes nothing of its own.
pub open spec fn records(list: Seq<ChunkRef>, n: int, data: Seq<u8>, at: Circumstances) -> Seq<
    (Seq<u8>, u64, u64),
>
    decreases n,
{
    if n <= 0 {
        Seq::empty()
    } else {
        let before = records(list, n - 1, data, at);
        let c = list[n - 1];
        match fate(list, n - 1, at) {
            Fate::InTree => before.push((c.hash@, c.len as u64, 0)),
            Fate::Written => before.push(
                (c.hash@, c.len as u64, stored_len(chunk_data(list, n - 1, data)) as u64),
            ),
            _ => before,
        }
    }
}

/// The payloads to be written among the first `n`: hash and plaintext.
pub open spec fn writes(list: Seq<ChunkRef>, n: int, data: Seq<u8>, at: Circumstances) -> Seq<
    (Seq<u8>, Seq<u8>),
>
    decreases n,
{
    if n <= 0 {
        Seq::empty()
    } else {
        let before = writes(list, n - 1, data, at);
        match fate(list, n - 1, at) {
            Fate::Written => before.push((list[n - 1].hash@, chunk_data(list, n - 1, data))),
            _ => before,
        }
    }
}

/// The payload is the chunk that is to be written, sealed so that it opens to
/// its plaintext.
pub open spec fn sealed_as(key: Seq<u8>, payload: Payload, planned: (Seq<u8>, Seq<u8>)) -> bool {
    &&& payload.hash@ == planned.0
    &&& payload.bytes@.len() == stored_len(planned.1)
    &&& forall|hash: Seq<char>| #[trigger]
        sealing::opened(key, payload.bytes@, hash) == (sealing::Opened::Plain {
            bytes: planned.1,
        })
}

/// The payloads are the ones that are to be written.
pub open spec fn sealed_for(
    key: Seq<u8>,
    payloads: Seq<Payload>,
    planned: Seq<(Seq<u8>, Seq<u8>)>,
) -> bool {
    &&& payloads.len() == planned.len()
    &&& forall|i: int|
        #![trigger payloads[i]]
        0 <= i < planned.len() ==> sealed_as(key, payloads[i], planned[i])
}

/// The chunks with the records put in.
pub open spec fn recorded(
    chunks: Map<Seq<u8>, ChunkFacts>,
    list: Seq<(Seq<u8>, u64, u64)>,
    now: i64,
) -> Map<Seq<u8>, ChunkFacts>
    decreases list.len(),
{
    if list.len() == 0 {
        chunks
    } else {
        let r = list.last();
        db::chunk_inserted(recorded(chunks, list.drop_last(), now), r.0, r.1, r.2, now)
    }
}

/// The hashes of a manifest's chunks.
pub open spec fn chunk_list(m: Manifest) -> Seq<Seq<u8>> {
    Seq::new(m.chunks@.len(), |i: int| m.chunks@[i].hash@)
}

/// The vector that a local change to `path` carries: what the path already knew,
/// with this device's entry advanced.
pub open spec fn local_vector(ix: Index, path: Seq<char>) -> Counts {
    let i = db::shared(ix, path);
    let base = if i >= 0 {
        ix.files[i].vector
    } else {
        Map::empty()
    };
    base.insert(ix.device, (ix.counter + 1) as u64)
}

/// The history of a change: its vector, who made it, and when.
pub struct History {
    pub vector: Counts,
    pub by: Seq<u8>,
    pub at: i64,
}

/// The history that a change is recorded with.
pub open spec fn history(ix: Index, path: Seq<char>, stamp: Stamp, now: i64) -> History {
    match stamp {
        Stamp::Local => History { vector: local_vector(ix, path), by: ix.device, at: now },
        Stamp::Remote(v) => History {
            vector: v@.vector,
            by: v@.modified_by,
            at: v@.modified_at,
        },
    }
}

/// The index once a history has been allotted: a local change takes a count.
pub open spec fn allotted(ix: Index, stamp: Stamp) -> Index {
    match stamp {
        Stamp::Local => Index { counter: (ix.counter + 1) as u64, ..ix },
        Stamp::Remote(_) => ix,
    }
}

/// A file that was written.
pub open spec fn written_file(
    before: Option<File>,
    id: i64,
    path: Seq<char>,
    m: Manifest,
    mtime_ns: i64,
    h: History,
    holding: bool,
    now: i64,
) -> File {
    File {
        id: match before {
            Some(f) => f.id,
            None => id,
        },
        path,
        scope: None,
        size: m.size,
        content_hash: m.file_hash@,
        mtime_ns,
        created_at: match before {
            Some(f) => f.created_at,
            None => now,
        },
        updated_at: h.at,
        deleted_at: None,
        vector: h.vector,
        modified_by: Some(h.by),
        materialised: holding,
        touched_at: now,
        wanted: match before {
            Some(f) => if holding {
                false
            } else {
                f.wanted
            },
            None => false,
        },
        chunks: chunk_list(m),
    }
}

/// The number of the next new file.
pub open spec fn next_id(files: Seq<File>) -> int {
    if files.len() == 0 {
        1
    } else {
        files.last().id + 1
    }
}

/// The index with a file put at a path of the shared area.
pub open spec fn file_put(ix: Index, path: Seq<char>, f: spec_fn(Option<File>) -> File, now: i64) -> Index {
    let i = db::shared(ix, path);
    if i >= 0 {
        refcount::with_file(ix, i, f(Some(ix.files[i])), now)
    } else {
        refcount::with_new_file(ix, f(None))
    }
}

/// The index once a file has been written.
pub open spec fn stored(
    ix: Index,
    path: Seq<char>,
    m: Manifest,
    data: Seq<u8>,
    mtime_ns: i64,
    stamp: Stamp,
    at: Circumstances,
    holding: bool,
    now: i64,
) -> Index {
    let h = history(ix, path, stamp, now);
    let counted = allotted(ix, stamp);
    let known = Index {
        chunks: recorded(
            ix.chunks,
            records(m.chunks@, m.chunks@.len() as int, data, at),
            now,
        ),
        ..counted
    };
    let id = next_id(ix.files) as i64;
    file_put(
        known,
        path,
        |before: Option<File>| written_file(before, id, path, m, mtime_ns, h, holding, now),
        now,
    )
}

/// Whether the index already holds exactly this content at the path.
pub open spec fn already_stored(ix: Index, path: Seq<char>, m: Manifest) -> bool {
    let i = db::shared(ix, path);
    i >= 0 && ix.files[i].deleted_at is None && ix.files[i].content_hash == m.file_hash@
}

/// The index once identical content has been written again. A local write of
/// identical bytes is not a change and does not advance the clock. A version
/// adopted from a peer still records the history it arrived with.
pub open spec fn refreshed(ix: Index, path: Seq<char>, mtime_ns: i64, stamp: Stamp, now: i64) -> Index {
    let i = db::shared(ix, path);
    let f = File { mtime_ns, updated_at: now, ..ix.files[i] };
    let g = match stamp {
        Stamp::Local => f,
        Stamp::Remote(v) => File {
            vector: v@.vector,
            modified_by: Some(v@.modified_by),
            updated_at: v@.modified_at,
            ..f
        },
    };
    Index { files: ix.files.update(i, g), ..ix }
}

/// Whether an earlier chunk of the list has the same hash.
fn repeated(list: &Vec<ChunkRef>, i: usize) -> (yes: bool)
    requires
        i < list@.len(),
    ensures
        yes == exists|j: int| 0 <= j < i && (#[trigger] list@[j]).hash@ == list@[i as int].hash@,
{
    let mut j: usize = 0;
    while j < i
        invariant
            j <= i < list@.len(),
            forall|k: int| 0 <= k < j ==> (#[trigger] list@[k]).hash@ != list@[i as int].hash@,
        decreases i - j,
    {
        if same_bytes(&list[j].hash, &list[i].hash) {
            assert(list@[j as int].hash@ == list@[i as int].hash@);
            return true;
        }
        j += 1;
    }
    false
}

/// A chunk to be recorded.
pub struct Record {
    pub hash: ContentHash,
    pub size: u64,
    pub stored_size: u64,
}

pub open spec fn record_views(s: Seq<Record>) -> Seq<(Seq<u8>, u64, u64)> {
    Seq::new(s.len(), |i: int| (s[i].hash@, s[i].size, s[i].stored_size))
}

/// What a write does before the index is told.
pub(crate) struct Plan {
    pub(crate) stats: PutStats,
    pub(crate) payloads: Vec<Payload>,
    pub(crate) records: Vec<Record>,
}

proof fn cost_bounds(list: Seq<ChunkRef>, n: int, data: Seq<u8>, at: Circumstances, m: Manifest)
    requires
        0 <= n <= list.len(),
        m.chunks@ == list,
        chunker::chunked(m, data),
    ensures
        cost(list, n, data, at).0 <= n,
        cost(list, n, data, at).2 <= chunker::laid_out(m, data, n).len(),
        cost(list, n, data, at).1 <= 48 * n + chunker::laid_out(m, data, n).len(),
        n <= chunker::laid_out(m, data, n).len(),
    decreases n,
{
    if n > 0 {
        cost_bounds(list, n - 1, data, at, m);
        let c = list[n - 1];
        assert(m.chunks@[n - 1] == c);
        assert(chunk_data(list, n - 1, data).len() == c.len);
    }
}

proof fn laid_out_grows(m: Manifest, data: Seq<u8>, n: int, k: int)
    requires
        0 <= n <= k <= m.chunks@.len(),
        chunker::chunked(m, data),
    ensures
        chunker::laid_out(m, data, n).len() <= chunker::laid_out(m, data, k).len(),
    decreases k - n,
{
    if n < k {
        laid_out_grows(m, data, n, k - 1);
    }
}

/// What is to be done about one chunk.
enum Step {
    /// Nothing: its bytes are held already.
    Saved,
    /// It is recorded, with nothing in the chunk store.
    Noted(Record),
    /// It is recorded and its payload is written.
    Written(Record, Payload),
}

/// What is decided for a write, as values.
pub open spec fn circumstances(ix: Index, payloads: Payloads, disk: Disk) -> Circumstances {
    Circumstances {
        trust: payloads == Payloads::TrustIndex,
        known: ix.chunks.dom(),
        held: db::hashes(disk.held@),
        in_tree: disk.in_tree,
    }
}

impl Db {
    /// Decides what becomes of one chunk of a file, and seals it if it has to be
    /// written.
    fn plan_chunk(
        &self,
        key: &ChunkKey,
        list: &Vec<ChunkRef>,
        i: usize,
        data: &[u8],
        payloads: Payloads,
        disk: &Disk,
    ) -> (result: Result<Step, Error>)
        requires
            self.wf(),
            i < list@.len(),
            list@[i as int].offset + list@[i as int].len <= data@.len(),
        ensures
            match result {
                Err(_) => false,
                Ok(step) => {
                    let at = circumstances(self@, payloads, *disk);
                    let c = list@[i as int];
                    let plain = chunk_data(list@, i as int, data@);
                    match step {
                        Step::Saved => fate(list@, i as int, at) is Repeated || fate(
                            list@,
                            i as int,
                            at,
                        ) is Held,
                        Step::Noted(r) => {
                            &&& fate(list@, i as int, at) is InTree
                            &&& (r.hash@, r.size, r.stored_size) == (c.hash@, c.len as u64, 0u64)
                        },
                        Step::Written(r, p) => {
                            &&& fate(list@, i as int, at) is Written
                            &&& stored_len(plain) <= u64::MAX
                            &&& (r.hash@, r.size, r.stored_size) == (
                                c.hash@,
                                c.len as u64,
                                stored_len(plain) as u64,
                            )
                            &&& sealed_as(key@, p, (c.hash@, plain))
                        },
                    }
                },
            },
    {
        let c: ChunkRef = list[i];
        let trust: bool = match payloads {
            Payloads::TrustIndex => true,
            Payloads::Rewrite => false,
        };
        if repeated(list, i) {
            return Ok(Step::Saved);
        }
        if trust && self.has_chunk(&c.hash) && has_hash(&disk.held, &c.hash) {
            return Ok(Step::Saved);
        }
        if disk.in_tree {
            // Where the folder already holds these bytes, do not store them
            // again. The file the user can see *is* the payload.
            return Ok(Step::Noted(Record { hash: c.hash, size: c.len as u64, stored_size: 0 }));
        }
        let len: usize = data.len();
        let plain: &[u8] = part(data, c.offset as usize, c.len as usize);
        match seal(key, plain) {
            Err(e) => Err(e),
            Ok(bytes) => {
                let size: u64 = bytes.len() as u64;
                Ok(
                    Step::Written(
                        Record { hash: c.hash, size: c.len as u64, stored_size: size },
                        Payload { hash: c.hash, bytes },
                    ),
                )
            },
        }
    }

    /// Decides what becomes of each chunk of a file, and seals what has to be
    /// written. Distinct hashes only: a file that repeats a chunk internally
    /// does not write it twice.
    pub(crate) fn plan(
        &self,
        key: &ChunkKey,
        manifest: &Manifest,
        data: &[u8],
        payloads: Payloads,
        disk: &Disk,
    ) -> (result: Result<Plan, Error>)
        requires
            self.wf(),
            chunker::chunked(*manifest, data@),
            data@.len() <= 0xff_ffff_ffff_ffff,
        ensures
            match result {
                Ok(plan) => planned(
                    plan,
                    key@,
                    manifest.chunks@,
                    manifest.chunks@.len() as int,
                    data@,
                    circumstances(self@, payloads, *disk),
                ),
                Err(_) => false,
            },
    {
        let list: &Vec<ChunkRef> = &manifest.chunks;
        let ghost at = circumstances(self@, payloads, *disk);
        let mut stats: PutStats = PutStats::default();
        stats.chunks_total = list.len();
        let mut plan: Plan = Plan { stats, payloads: Vec::new(), records: Vec::new() };
        let mut i: usize = 0;
        assert(record_views(plan.records@) =~= records(list@, 0, data@, at));
        while i < list.len()
            invariant
                i <= list@.len(),
                list@ == manifest.chunks@,
                self.wf(),
                chunker::chunked(*manifest, data@),
                data@.len() <= 0xff_ffff_ffff_ffff,
                at == circumstances(self@, payloads, *disk),
                planned(plan, key@, list@, i as int, data@, at),
            decreases list@.len() - i,
        {
            let c: ChunkRef = list[i];
            proof {
                assert(manifest.chunks@[i as int] == c);
                cost_bounds(list@, i as int, data@, at, *manifest);
                cost_bounds(list@, i + 1, data@, at, *manifest);
                laid_out_grows(*manifest, data@, i + 1, list@.len() as int);
                laid_out_grows(*manifest, data@, i as int, list@.len() as int);
            }
            let step: Step = match self.plan_chunk(key, list, i, data, payloads, disk) {
                Ok(step) => step,
                Err(e) => {
                    return Err(e);
                },
            };
            add_step(&mut plan, step, Ghost(list@), Ghost(i as int), Ghost(data@), Ghost(at), Ghost(key@), c.len);
            i += 1;
        }
        Ok(plan)
    }
}

/// The plan for the first `n` chunks.
pub(crate) open spec fn planned(
    plan: Plan,
    key: Seq<u8>,
    list: Seq<ChunkRef>,
    n: int,
    data: Seq<u8>,
    at: Circumstances,
) -> bool {
    &&& plan.stats.chunks_total == list.len()
    &&& plan.stats.chunks_written == cost(list, n, data, at).0
    &&& plan.stats.bytes_written == cost(list, n, data, at).1
    &&& plan.stats.bytes_deduplicated == cost(list, n, data, at).2
    &&& !plan.stats.unchanged
    &&& sealed_for(key, plan.payloads@, writes(list, n, data, at))
    &&& record_views(plan.records@) == records(list, n, data, at)
}

/// One step more.
fn add_step(
    plan: &mut Plan,
    step: Step,
    Ghost(list): Ghost<Seq<ChunkRef>>,
    Ghost(i): Ghost<int>,
    Ghost(data): Ghost<Seq<u8>>,
    Ghost(at): Ghost<Circumstances>,
    Ghost(key): Ghost<Seq<u8>>,
    len: u32,
)
    requires
        0 <= i < list.len() <= usize::MAX,
        len == list[i].len,
        planned(*old(plan), key, list, i, data, at),
        cost(list, i + 1, data, at).0 <= usize::MAX,
        cost(list, i + 1, data, at).1 <= u64::MAX,
        cost(list, i + 1, data, at).2 <= u64::MAX,
        ({
            let c = list[i];
            let plain = chunk_data(list, i, data);
            match step {
                Step::Saved => fate(list, i, at) is Repeated || fate(list, i, at) is Held,
                Step::Noted(r) => {
                    &&& fate(list, i, at) is InTree
                    &&& (r.hash@, r.size, r.stored_size) == (c.hash@, c.len as u64, 0u64)
                },
                Step::Written(r, p) => {
                    &&& fate(list, i, at) is Written
                    &&& stored_len(plain) <= u64::MAX
                    &&& (r.hash@, r.size, r.stored_size) == (
                        c.hash@,
                        c.len as u64,
                        stored_len(plain) as u64,
                    )
                    &&& sealed_as(key, p, (c.hash@, plain))
                },
            }
        }),
    ensures
        planned(*final(plan), key, list, i + 1, data, at),
{
    let ghost before = record_views(plan.records@);
    let ghost held = plan.payloads@;
    match step {
        Step::Saved => {
            plan.stats.bytes_deduplicated = plan.stats.bytes_deduplicated + len as u64;
        },
        Step::Noted(r) => {
            plan.records.push(r);
            plan.stats.bytes_deduplicated = plan.stats.bytes_deduplicated + len as u64;
            assert(record_views(plan.records@) =~= before.push((r.hash@, r.size, r.stored_size)));
        },
        Step::Written(r, p) => {
            plan.stats.chunks_written = plan.stats.chunks_written + 1;
            plan.stats.bytes_written = plan.stats.bytes_written + r.stored_size;
            plan.records.push(r);
            plan.payloads.push(p);
            proof {
                assert(record_views(plan.records@) =~= before.push(
                    (r.hash@, r.size, r.stored_size),
                ));
                let wanted = writes(list, i + 1, data, at);
                assert forall|k: int|
                    #![trigger plan.payloads@[k]]
                    0 <= k < wanted.len() implies sealed_as(key, plan.payloads@[k], wanted[k]) by {
                    if k < held.len() {
                        assert(plan.payloads@[k] == held[k]);
                    }
                }
            }
        },
    }
}

/// The hashes of a manifest's chunks.
pub(crate) fn list_of(manifest: &Manifest) -> (list: Vec<ContentHash>)
    ensures
        db::hashes(list@) == chunk_list(*manifest),
{
    let mut list: Vec<ContentHash> = Vec::new();
    let mut i: usize = 0;
    while i < manifest.chunks.len()
        invariant
            i <= manifest.chunks@.len(),
            list@.len() == i,
            forall|j: int| 0 <= j < i ==> (#[trigger] list@[j])@ == manifest.chunks@[j].hash@,
        decreases manifest.chunks@.len() - i,
    {
        list.push(manifest.chunks[i].hash);
        i += 1;
    }
    assert(db::hashes(list@) =~= chunk_list(*manifest));
    list
}

/// A copy of a list of hashes.
pub fn copy_list(from: &Vec<ContentHash>) -> (list: Vec<ContentHash>)
    ensures
        list@ == from@,
{
    let mut list: Vec<ContentHash> = Vec::new();
    let mut i: usize = 0;
    while i < from.len()
        invariant
            i <= from@.len(),
            list@ == from@.take(i as int),
        decreases from@.len() - i,
    {
        list.push(from[i]);
        i += 1;
    }
    list
}

impl Db {
    /// The vector a local change to `path` should carry, and the device that it
    /// counts for.
    ///
    /// Takes whatever the path already knew and advances this device's entry,
    /// so the new version supersedes the old one instead of being concurrent
    /// with it. Counts are monotonic across the whole index rather than per
    /// file.
    pub fn next_local_vector(&mut self, path: &str) -> (next: (VersionVector, DeviceId))
        requires
            old(self).wf(),
            old(self).counter < u64::MAX,
        ensures
            final(self).wf(),
            final(self)@ == (Index { counter: (old(self)@.counter + 1) as u64, ..old(self)@ }),
            next.0@ == local_vector(old(self)@, path@),
            next.1@ == old(self)@.device,
    {
        let mut vector: VersionVector = match self.position(path, &None) {
            Some(i) => self.files[i].vector.clone(),
            None => VersionVector::new(),
        };
        self.counter = self.counter + 1;
        vector.set(self.device, self.counter);
        (vector, self.device)
    }

    /// The history that a change is recorded with. A local change takes a count.
    pub(crate) fn allot(&mut self, path: &str, stamp: &Stamp<'_>, now: i64) -> (h: (
        VersionVector,
        DeviceId,
        i64,
    ))
        requires
            old(self).wf(),
            old(self).counter < u64::MAX,
        ensures
            final(self).wf(),
            final(self)@ == allotted(old(self)@, *stamp),
            h.0@ == history(old(self)@, path@, *stamp, now).vector,
            h.1@ == history(old(self)@, path@, *stamp, now).by,
            h.2 == history(old(self)@, path@, *stamp, now).at,
    {
        match stamp {
            Stamp::Local => {
                let (v, d) = self.next_local_vector(path);
                (v, d, now)
            },
            Stamp::Remote(version) => (
                version.vector.clone(),
                version.modified_by,
                version.modified_at,
            ),
        }
    }

    /// Puts a row in the place of another, and counts its links.
    pub(crate) fn replace_row(&mut self, i: usize, row: FileRow, now: i64)
        requires
            old(self).wf(),
            i < old(self).files@.len(),
            row@.id == old(self).files@[i as int]@.id,
            row@.path == old(self).files@[i as int]@.path,
            row@.scope == old(self).files@[i as int]@.scope,
        ensures
            final(self).wf(),
            final(self)@ == refcount::with_file(old(self)@, i as int, row@, now),
    {
        let old_list: Vec<ContentHash> = copy_list(&self.files[i].chunks);
        self.unlink_all(&old_list, now);
        self.link_all(&row.chunks);
        self.files.set(i, row);
        proof {
            assert(self@.files =~= old(self)@.files.update(i as int, row@));
            distinct_after_update(old(self)@.files, i as int, row@);
        }
    }

    /// Adds a row, and counts its links.
    pub(crate) fn add_row(&mut self, row: FileRow)
        requires
            old(self).wf(),
            row@.id == next_id(old(self)@.files),
            db::find(old(self)@.files, row@.path, row@.scope) < 0,
        ensures
            final(self).wf(),
            final(self)@ == refcount::with_new_file(old(self)@, row@),
    {
        self.link_all(&row.chunks);
        self.files.push(row);
        proof {
            assert(self@.files =~= old(self)@.files.push(row@));
            distinct_after_push(old(self)@.files, row@);
        }
    }

    /// The number of the next new file.
    pub(crate) fn new_id(&self) -> (id: i64)
        requires
            next_id(self@.files) <= i64::MAX,
        ensures
            id == next_id(self@.files),
    {
        let n: usize = self.files.len();
        if n == 0 {
            1
        } else {
            assert(self@.files.last() == self.files@[n - 1]@);
            self.files[n - 1].id + 1
        }
    }
}

/// A row with the same number, path and place keeps the files apart.
pub proof fn distinct_after_update(files: Seq<File>, i: int, f: File)
    requires
        db::files_distinct(files),
        0 <= i < files.len(),
        f.id == files[i].id,
        f.path == files[i].path,
        f.scope == files[i].scope,
    ensures
        db::files_distinct(files.update(i, f)),
{
    let next = files.update(i, f);
    assert forall|a: int, b: int| #![trigger next[a], next[b]] 0 <= a < b < next.len() implies next[a].id
        < next[b].id && !(next[a].path == next[b].path && next[a].scope == next[b].scope) by {
        assert(files[a].id < files[b].id && !(files[a].path == files[b].path && files[a].scope
            == files[b].scope));
    }
}

/// A row with a new number, at a path that is not taken in its place, keeps the
/// files apart.
pub proof fn distinct_after_push(files: Seq<File>, f: File)
    requires
        db::files_distinct(files),
        f.id == next_id(files),
        db::find(files, f.path, f.scope) < 0,
    ensures
        db::files_distinct(files.push(f)),
{
    let next = files.push(f);
    db::find_finds(files, f.path, f.scope);
    assert forall|a: int, b: int| #![trigger next[a], next[b]] 0 <= a < b < next.len() implies next[a].id
        < next[b].id && !(next[a].path == next[b].path && next[a].scope == next[b].scope) by {
        assert(next[a] == files[a]);
        if b < files.len() {
            assert(files[a].id < files[b].id);
        } else {
            let n = files.len() - 1;
            if a < n {
                assert(files[a].id < files[n].id);
            }
        }
    }
}

/// What putting a file leads to.
pub open spec fn put_done(
    before: Index,
    key: Seq<u8>,
    path: Seq<char>,
    m: Manifest,
    data: Seq<u8>,
    mtime_ns: i64,
    stamp: Stamp,
    payloads: Payloads,
    disk: Disk,
    now: i64,
    after: Index,
    stats: PutStats,
    sealed: Seq<Payload>,
) -> bool {
    let n = m.chunks@.len() as int;
    let at = circumstances(before, payloads, disk);
    if payloads == Payloads::TrustIndex && already_stored(before, path, m) {
        &&& after == refreshed(before, path, mtime_ns, stamp, now)
        &&& stats == (PutStats {
            chunks_total: m.chunks@.len() as usize,
            chunks_written: 0,
            bytes_written: 0,
            bytes_deduplicated: m.size,
            unchanged: true,
        })
        &&& sealed.len() == 0
    } else {
        &&& after == stored(
            before,
            path,
            m,
            data,
            mtime_ns,
            stamp,
            at,
            disk.in_tree || !disk.has_tree,
            now,
        )
        &&& stats.chunks_total == n
        &&& stats.chunks_written == cost(m.chunks@, n, data, at).0
        &&& stats.bytes_written == cost(m.chunks@, n, data, at).1
        &&& stats.bytes_deduplicated == cost(m.chunks@, n, data, at).2
        &&& !stats.unchanged
        &&& sealed_for(key, sealed, writes(m.chunks@, n, data, at))
    }
}

impl Db {
    /// Records a file and says which payloads to write first.
    ///
    /// The payloads have to be on disk before the changed index is kept: a crash
    /// between the two then leaves payloads nothing references, never the
    /// opposite. No chunk of a manifest is too long to seal, so this does not
    /// fail.
    pub fn put_manifest(
        &mut self,
        key: &ChunkKey,
        path: &str,
        manifest: &Manifest,
        data: &[u8],
        mtime_ns: i64,
        stamp: Stamp<'_>,
        payloads: Payloads,
        disk: &Disk,
        now: i64,
    ) -> (result: Result<(PutStats, Vec<Payload>), Error>)
        requires
            old(self).wf(),
            chunker::chunked(*manifest, data@),
            data@.len() <= 0xff_ffff_ffff_ffff,
            old(self).counter < u64::MAX,
            next_id(old(self)@.files) <= i64::MAX,
        ensures
            final(self).wf(),
            match result {
                Ok((stats, sealed)) => put_done(
                    old(self)@,
                    key@,
                    path@,
                    *manifest,
                    data@,
                    mtime_ns,
                    stamp,
                    payloads,
                    *disk,
                    now,
                    final(self)@,
                    stats,
                    sealed@,
                ),
                Err(_) => false,
            },
    {
        let ghost before = self@;
        let found: Option<usize> = self.position(path, &None);
        proof {
            db::find_finds(before.files, path@, None);
        }
        // Short-circuit an unchanged file: the content hash already matches, so
        // the chunk list in the index is by definition still correct.
        if let Payloads::TrustIndex = payloads {
            if let Some(i) = found {
                if self.files[i].deleted_at.is_none() && same_bytes(
                    &self.files[i].content_hash,
                    &manifest.file_hash,
                ) {
                    self.refresh(i, mtime_ns, &stamp, now);
                    let mut stats: PutStats = PutStats::default();
                    stats.chunks_total = manifest.chunks.len();
                    stats.bytes_deduplicated = manifest.size;
                    stats.unchanged = true;
                    return Ok((stats, Vec::new()));
                }
            }
        }
        // The history is allotted first. A counter that skips a value when the
        // write fails is harmless: vectors need to be monotonic, not dense.
        let ghost h = history(before, path@, stamp, now);
        let (vector, modified_by, modified_at): (VersionVector, DeviceId, i64) = self.allot(
            path,
            &stamp,
            now,
        );
        let plan: Plan = match self.plan(key, manifest, data, payloads, disk) {
            Ok(plan) => plan,
            Err(e) => {
                return Err(e);
            },
        };
        // Whether this device is holding the bytes afterwards. A store with a
        // folder holds what the folder has; a replica holds chunks and so always
        // holds it.
        let holding: bool = disk.in_tree || !disk.has_tree;
        self.record_chunks(&plan.records, now);
        let ghost known = self@;
        let id: i64 = self.new_id();
        let list: Vec<ContentHash> = list_of(manifest);
        let (row_id, created_at, wanted): (i64, i64, bool) = match found {
            Some(i) => (
                self.files[i].id,
                self.files[i].created_at,
                if holding {
                    false
                } else {
                    self.files[i].wanted
                },
            ),
            None => (id, now, false),
        };
        let row: FileRow = FileRow {
            id: row_id,
            path: path.to_owned(),
            scope: None,
            size: manifest.size,
            content_hash: manifest.file_hash,
            mtime_ns,
            created_at,
            updated_at: modified_at,
            deleted_at: None,
            vector,
            modified_by: Some(modified_by),
            materialised: holding,
            touched_at: now,
            wanted,
            chunks: list,
        };
        match found {
            Some(i) => {
                assert(row@ == written_file(
                    Some(known.files[i as int]),
                    id,
                    path@,
                    *manifest,
                    mtime_ns,
                    h,
                    holding,
                    now,
                ));
                self.replace_row(i, row, now);
            },
            None => {
                assert(row@ == written_file(None, id, path@, *manifest, mtime_ns, h, holding, now));
                self.add_row(row);
            },
        }
        Ok((plan.stats, plan.payloads))
    }

    /// Puts the records in.
    pub(crate) fn record_chunks(&mut self, list: &Vec<Record>, now: i64)
        requires
            old(self).wf(),
        ensures
            final(self).wf(),
            final(self)@ == (Index {
                chunks: recorded(old(self)@.chunks, record_views(list@), now),
                ..old(self)@
            }),
            final(self).files == old(self).files,
    {
        let ghost all = record_views(list@);
        let mut i: usize = 0;
        while i < list.len()
            invariant
                i <= list@.len(),
                all == record_views(list@),
                self.wf(),
                self.files == old(self).files,
                self@ == (Index {
                    chunks: recorded(old(self)@.chunks, all.take(i as int), now),
                    ..old(self)@
                }),
            decreases list@.len() - i,
        {
            proof {
                assert(all.take(i + 1).drop_last() =~= all.take(i as int));
                assert(all.take(i + 1).last() == all[i as int]);
            }
            self.insert_chunk(&list[i].hash, list[i].size, list[i].stored_size, now);
            i += 1;
        }
        assert(all.take(i as int) =~= all);
    }

    /// Identical content was written again.
    fn refresh(&mut self, i: usize, mtime_ns: i64, stamp: &Stamp<'_>, now: i64)
        requires
            old(self).wf(),
            i < old(self).files@.len(),
            old(self).files@[i as int]@.scope is None,
        ensures
            final(self).wf(),
            final(self)@ == refreshed(
                old(self)@,
                old(self).files@[i as int]@.path,
                mtime_ns,
                *stamp,
                now,
            ),
    {
        let ghost before = self@;
        proof {
            db::found_is_unique(before.files, i as int);
        }
        let mut row: FileRow = self.copy_row(i);
        row.mtime_ns = mtime_ns;
        row.updated_at = now;
        match stamp {
            Stamp::Local => {},
            Stamp::Remote(version) => {
                row.vector = version.vector.clone();
                row.modified_by = Some(version.modified_by);
                row.updated_at = version.modified_at;
            },
        }
        self.retouch(i, row);
    }

    /// A copy of a row.
    pub fn copy_row(&self, i: usize) -> (row: FileRow)
        requires
            i < self.files@.len(),
        ensures
            row@ == self@.files[i as int],
    {
        let r: &FileRow = &self.files[i];
        let row: FileRow = FileRow {
            id: r.id,
            path: r.path.clone(),
            scope: r.scope,
            size: r.size,
            content_hash: r.content_hash,
            mtime_ns: r.mtime_ns,
            created_at: r.created_at,
            updated_at: r.updated_at,
            deleted_at: r.deleted_at,
            vector: r.vector.clone(),
            modified_by: r.modified_by,
            materialised: r.materialised,
            touched_at: r.touched_at,
            wanted: r.wanted,
            chunks: copy_list(&r.chunks),
        };
        row
    }

    /// Puts a row with the same chunks in the place of another.
    pub fn retouch(&mut self, i: usize, row: FileRow)
        requires
            old(self).wf(),
            i < old(self).files@.len(),
            row@.id == old(self).files@[i as int]@.id,
            row@.path == old(self).files@[i as int]@.path,
            row@.scope == old(self).files@[i as int]@.scope,
        ensures
            final(self).wf(),
            final(self)@ == (Index {
                files: old(self)@.files.update(i as int, row@),
                ..old(self)@
            }),
    {
        self.files.set(i, row);
        proof {
            assert(self@.files =~= old(self)@.files.update(i as int, row@));
            distinct_after_update(old(self)@.files, i as int, row@);
        }
    }
}

} // verus!
