//! Getting content back.
//!
//! The chunk store is asked first. Where it does not hold a chunk, the folder
//! may: the file the user can see *is* the payload. Whatever supplies the bytes,
//! they are checked against the hash that was asked for, and the reassembled
//! whole against the hash of the file. The second check is not redundant:
//! correct chunks in the wrong order would pass the first.

use vstd::prelude::*;

use super::chunker;
use super::chunker::ContentHash;
use super::db;
use super::db::{ChunkFacts, Db, File, Index};
use super::error::{Error, Fault};
use super::sealing;
use super::sealing::{open, ChunkKey, Opened};
use super::store;
use super::store::copy_list;
use crate::bytes::append;
use crate::digest;
use crate::digest::blake3_of;
use crate::order::same_bytes;
use crate::text;
use crate::text::hex_of;

verus! {

/// What there is of one chunk on this device.
#[derive(Debug)]
pub struct Source {
    /// What the chunk store holds under its name.
    pub stored: Option<Vec<u8>>,
    /// What stands in the folder where the index locates it.
    pub tree: Option<Vec<u8>>,
}

/// What there is of one chunk, as values.
pub struct Evidence {
    pub stored: Option<Seq<u8>>,
    pub tree: Option<Seq<u8>>,
}

pub open spec fn bytes_view(bytes: Option<Vec<u8>>) -> Option<Seq<u8>> {
    match bytes {
        Some(b) => Some(b@),
        None => None,
    }
}

impl View for Source {
    type V = Evidence;

    open spec fn view(&self) -> Evidence {
        Evidence { stored: bytes_view(self.stored), tree: bytes_view(self.tree) }
    }
}

pub open spec fn evidence(s: Seq<Source>) -> Seq<Evidence> {
    Seq::new(s.len(), |i: int| s[i]@)
}

/// Whether the folder supplies a chunk. A file that was edited since it was
/// indexed does not: what the hash names is no longer there.
pub open spec fn supplied(hash: Seq<u8>, tree: Option<Seq<u8>>) -> bool {
    tree matches Some(b) && digest::blake3_digest(b) == hash
}

/// What a chunk is read as.
pub open spec fn chunk_read(key: Seq<u8>, hash: Seq<u8>, from: Evidence) -> Opened {
    match from.stored {
        None => if supplied(hash, from.tree) {
            Opened::Plain { bytes: from.tree->0 }
        } else {
            Opened::Bad { fault: Fault::ChunkMissing { hash: text::hex(hash) } }
        },
        Some(stored) => match sealing::opened(key, stored, text::hex(hash)) {
            Opened::Bad { fault } => Opened::Bad { fault },
            Opened::Plain { bytes } => if digest::blake3_digest(bytes) == hash {
                Opened::Plain { bytes }
            } else {
                Opened::Bad { fault: Fault::ChunkCorrupt { hash: text::hex(hash) } }
            },
        },
    }
}

/// What the first `n` chunks of a list are read as. The first that cannot be
/// read decides.
pub open spec fn assembled(key: Seq<u8>, list: Seq<Seq<u8>>, from: Seq<Evidence>, n: int) -> Opened
    decreases n,
{
    if n <= 0 {
        Opened::Plain { bytes: Seq::empty() }
    } else {
        match assembled(key, list, from, n - 1) {
            Opened::Bad { fault } => Opened::Bad { fault },
            Opened::Plain { bytes } => match chunk_read(key, list[n - 1], from[n - 1]) {
                Opened::Bad { fault } => Opened::Bad { fault },
                Opened::Plain { bytes: more } => Opened::Plain { bytes: bytes + more },
            },
        }
    }
}

/// What is read, held against the hash of the whole.
pub open spec fn checked(read: Opened, content: Seq<u8>) -> Opened {
    match read {
        Opened::Bad { fault } => Opened::Bad { fault },
        Opened::Plain { bytes } => if digest::blake3_digest(bytes) == content {
            Opened::Plain { bytes }
        } else {
            Opened::Bad { fault: Fault::ChunkCorrupt { hash: text::hex(content) } }
        },
    }
}

/// Whether this device can produce a chunk's bytes right now.
pub open spec fn producible(
    chunks: Map<Seq<u8>, ChunkFacts>,
    hash: Seq<u8>,
    from: Evidence,
) -> bool {
    chunks.contains_key(hash) && (from.stored is Some || supplied(hash, from.tree))
}

/// How many chunks of a list can be produced before one cannot.
pub open spec fn producible_run(
    chunks: Map<Seq<u8>, ChunkFacts>,
    list: Seq<Seq<u8>>,
    from: Seq<Evidence>,
    n: int,
) -> int
    recommends
        0 <= n <= list.len(),
    decreases list.len() - n,
{
    if 0 <= n < list.len() && producible(chunks, list[n], from[n]) {
        producible_run(chunks, list, from, n + 1)
    } else {
        n
    }
}

/// The file that content is read from: a live one if there is one, the first
/// that came.
pub open spec fn is_file_with_content(files: Seq<File>, content: Seq<u8>, i: int) -> bool {
    &&& 0 <= i < files.len()
    &&& files[i].content_hash == content
    &&& forall|j: int|
        #![trigger files[j]]
        0 <= j < files.len() && files[j].content_hash == content ==> {
            ||| files[i].deleted_at is None && (j >= i || files[j].deleted_at is Some)
            ||| files[i].deleted_at is Some && files[j].deleted_at is Some && j >= i
        }
}

/// No file has the content.
pub open spec fn unknown_content(files: Seq<File>, content: Seq<u8>) -> bool {
    forall|j: int| #![trigger files[j]] 0 <= j < files.len() ==> files[j].content_hash != content
}

/// Whether the folder supplies a chunk.
pub fn is_supplied(hash: &ContentHash, tree: &Option<Vec<u8>>) -> (yes: bool)
    ensures
        yes == supplied(hash@, bytes_view(*tree)),
{
    match tree {
        Some(bytes) => {
            let found: [u8; 32] = blake3_of(bytes.as_slice());
            same_bytes(&found, hash)
        },
        None => false,
    }
}

/// Fetch one chunk: decrypt, decompress, and check it is what it claims to be.
pub fn read_chunk(key: &ChunkKey, hash: &ContentHash, from: &Source) -> (result: Result<
    Vec<u8>,
    Error,
>)
    ensures
        chunk_read(key@, hash@, from@) == (match result {
            Ok(bytes) => Opened::Plain { bytes: bytes@ },
            Err(e) => Opened::Bad { fault: e@ },
        }),
{
    match &from.stored {
        None => {
            if is_supplied(hash, &from.tree) {
                if let Some(bytes) = &from.tree {
                    let mut out: Vec<u8> = Vec::new();
                    append(&mut out, bytes.as_slice());
                    assert(out@ =~= bytes@);
                    return Ok(out);
                }
            }
            Err(Error::ChunkMissing { hash: hex_of(hash.as_slice()) })
        },
        Some(stored) => {
            let name: String = hex_of(hash.as_slice());
            match open(key, stored.as_slice(), &name) {
                Err(e) => Err(e),
                Ok(plain) => {
                    let found: [u8; 32] = blake3_of(plain.as_slice());
                    if same_bytes(&found, hash) {
                        Ok(plain)
                    } else {
                        Err(Error::ChunkCorrupt { hash: name })
                    }
                },
            }
        },
    }
}

/// Reassemble chunks, and check the whole.
pub fn assemble(
    key: &ChunkKey,
    list: &Vec<ContentHash>,
    from: &Vec<Source>,
    content: &ContentHash,
) -> (result: Result<Vec<u8>, Error>)
    requires
        from@.len() == list@.len(),
    ensures
        checked(
            assembled(key@, db::hashes(list@), evidence(from@), list@.len() as int),
            content@,
        ) == (match result {
            Ok(bytes) => Opened::Plain { bytes: bytes@ },
            Err(e) => Opened::Bad { fault: e@ },
        }),
{
    let ghost all = db::hashes(list@);
    let ghost sources = evidence(from@);
    let mut out: Vec<u8> = Vec::new();
    let mut i: usize = 0;
    while i < list.len()
        invariant
            i <= list@.len() == from@.len(),
            all == db::hashes(list@),
            sources == evidence(from@),
            assembled(key@, all, sources, i as int) == (Opened::Plain { bytes: out@ }),
        decreases list@.len() - i,
    {
        match read_chunk(key, &list[i], &from[i]) {
            Err(e) => {
                proof {
                    assert(assembled(key@, all, sources, i + 1) == (Opened::Bad { fault: e@ }));
                    first_failure_decides(key@, all, sources, i + 1, list@.len() as int);
                }
                return Err(e);
            },
            Ok(bytes) => {
                append(&mut out, bytes.as_slice());
            },
        }
        i += 1;
    }
    let found: [u8; 32] = blake3_of(out.as_slice());
    if same_bytes(&found, content) {
        Ok(out)
    } else {
        Err(Error::ChunkCorrupt { hash: hex_of(content.as_slice()) })
    }
}

proof fn first_failure_decides(
    key: Seq<u8>,
    list: Seq<Seq<u8>>,
    from: Seq<Evidence>,
    n: int,
    m: int,
)
    requires
        0 <= n <= m,
        assembled(key, list, from, n) is Bad,
    ensures
        assembled(key, list, from, m) == assembled(key, list, from, n),
    decreases m - n,
{
    if n < m {
        first_failure_decides(key, list, from, n, m - 1);
    }
}

impl Db {
    /// The chunks that make up the live file at a path of the shared area, and
    /// the hash of the whole.
    pub fn file_chunks(&self, path: &str) -> (found: Option<(Vec<ContentHash>, ContentHash)>)
        ensures
            match found {
                Some((list, content)) => {
                    let i = db::shared(self@, path@);
                    &&& super::removal::live(self@, path@)
                    &&& db::hashes(list@) == self@.files[i].chunks
                    &&& content@ == self@.files[i].content_hash
                },
                None => !super::removal::live(self@, path@),
            },
    {
        match self.position(path, &None) {
            None => None,
            Some(i) => {
                assert(self@.files[i as int] == self.files@[i as int]@);
                if self.files[i].deleted_at.is_some() {
                    None
                } else {
                    Some((copy_list(&self.files[i].chunks), self.files[i].content_hash))
                }
            },
        }
    }

    /// Reassemble a stored file, verifying it end to end.
    pub fn read_file(&self, key: &ChunkKey, path: &str, from: &Vec<Source>) -> (result: Result<
        Vec<u8>,
        Error,
    >)
        requires
            super::removal::live(self@, path@) ==> from@.len() == self@.files[db::shared(
                self@,
                path@,
            )].chunks.len(),
        ensures
            file_read(self@, key@, path@, evidence(from@)) == (match result {
                Ok(bytes) => Opened::Plain { bytes: bytes@ },
                Err(e) => Opened::Bad { fault: e@ },
            }),
    {
        match self.file_chunks(path) {
            None => Err(Error::NotFound { path: path.to_owned() }),
            Some((list, content)) => {
                assert(db::hashes(list@).len() == list@.len());
                assemble(key, &list, from, &content)
            },
        }
    }

    /// The number of the file that this content is read from.
    ///
    /// Content is resolved to a file directly because a path is no unique
    /// handle: the same name can be in the shared area and in a vault.
    pub fn any_file_with_content(&self, content: &ContentHash) -> (id: Option<i64>)
        ensures
            match id {
                Some(id) => exists|i: int| #[trigger]
                    is_file_with_content(self@.files, content@, i) && self@.files[i].id == id,
                None => unknown_content(self@.files, content@),
            },
    {
        match self.place_of_content(content) {
            None => None,
            Some(i) => {
                assert(self@.files[i as int] == self.files@[i as int]@);
                Some(self.files[i].id)
            },
        }
    }

    /// Where the file stands that this content is read from.
    pub(crate) fn place_of_content(&self, content: &ContentHash) -> (found: Option<usize>)
        ensures
            match found {
                Some(i) => is_file_with_content(self@.files, content@, i as int),
                None => unknown_content(self@.files, content@),
            },
    {
        let ghost all = self@.files;
        let mut deleted: Option<usize> = None;
        let mut i: usize = 0;
        while i < self.files.len()
            invariant
                i <= self.files@.len(),
                all == self@.files,
                forall|j: int|
                    #![trigger all[j]]
                    0 <= j < i && all[j].content_hash == content@ ==> all[j].deleted_at is Some,
                match deleted {
                    Some(d) => {
                        &&& d < i
                        &&& all[d as int].content_hash == content@
                        &&& forall|j: int|
                            #![trigger all[j]]
                            0 <= j < d ==> all[j].content_hash != content@
                    },
                    None => forall|j: int|
                        #![trigger all[j]]
                        0 <= j < i ==> all[j].content_hash != content@,
                },
            decreases self.files@.len() - i,
        {
            assert(all[i as int] == self.files@[i as int]@);
            if same_bytes(&self.files[i].content_hash, content) {
                if self.files[i].deleted_at.is_none() {
                    return Some(i);
                }
                if deleted.is_none() {
                    deleted = Some(i);
                }
            }
            i += 1;
        }
        deleted
    }

    /// The chunks making up a given whole-file hash, in order.
    ///
    /// What lets a peer transfer only the parts of a file the other side is
    /// missing, instead of the whole thing.
    pub fn chunk_hashes_for_content(&self, content: &ContentHash) -> (list: Option<
        Vec<ContentHash>,
    >)
        ensures
            match list {
                Some(list) => exists|i: int| #[trigger]
                    is_file_with_content(self@.files, content@, i) && db::hashes(list@)
                        == self@.files[i].chunks,
                None => unknown_content(self@.files, content@),
            },
    {
        match self.place_of_content(content) {
            None => None,
            Some(i) => {
                assert(self@.files[i as int] == self.files@[i as int]@);
                Some(copy_list(&self.files[i].chunks))
            },
        }
    }

    /// Whether this device can produce a chunk's bytes right now.
    ///
    /// The index has to know it, and then either the chunk store holds the
    /// payload or the folder does.
    pub fn can_produce(&self, hash: &ContentHash, from: &Source) -> (yes: bool)
        requires
            self.wf(),
        ensures
            yes == producible(self@.chunks, hash@, from@),
    {
        self.has_chunk(hash) && (from.stored.is_some() || is_supplied(hash, &from.tree))
    }

    /// Whether every chunk of a list can be produced; if not, which is the
    /// first that cannot.
    pub fn first_unproducible(&self, list: &Vec<ContentHash>, from: &Vec<Source>) -> (n: usize)
        requires
            self.wf(),
            from@.len() == list@.len(),
        ensures
            n == producible_run(self@.chunks, db::hashes(list@), evidence(from@), 0),
            n <= list@.len(),
    {
        let ghost all = db::hashes(list@);
        let ghost sources = evidence(from@);
        let mut i: usize = 0;
        while i < list.len()
            invariant
                i <= list@.len() == from@.len(),
                self.wf(),
                all == db::hashes(list@),
                sources == evidence(from@),
                producible_run(self@.chunks, all, sources, 0) == producible_run(
                    self@.chunks,
                    all,
                    sources,
                    i as int,
                ),
            decreases list@.len() - i,
        {
            if !self.can_produce(&list[i], &from[i]) {
                return i;
            }
            i += 1;
        }
        i
    }

    /// Reassemble content this device holds, by hash rather than by name.
    ///
    /// Returns `None` when the content is not here: either unknown, or known but
    /// with chunks that have since been collected. A chunk that is here and
    /// cannot be read is an error, if it comes before one that is not here.
    pub fn read_content(&self, key: &ChunkKey, content: &ContentHash, from: &Vec<Source>) -> (result:
        Result<Option<Vec<u8>>, Error>)
        requires
            self.wf(),
            forall|i: int| #[trigger]
                is_file_with_content(self@.files, content@, i) ==> from@.len()
                    == self@.files[i].chunks.len(),
        ensures
            match result {
                Ok(None) => unknown_content(self@.files, content@) || exists|i: int| #[trigger]
                    is_file_with_content(self@.files, content@, i) && content_read(
                        self@,
                        key@,
                        self@.files[i].chunks,
                        content@,
                        evidence(from@),
                    ) is None,
                Ok(Some(bytes)) => exists|i: int| #[trigger]
                    is_file_with_content(self@.files, content@, i) && content_read(
                        self@,
                        key@,
                        self@.files[i].chunks,
                        content@,
                        evidence(from@),
                    ) == Some(Opened::Plain { bytes: bytes@ }),
                Err(e) => exists|i: int| #[trigger]
                    is_file_with_content(self@.files, content@, i) && content_read(
                        self@,
                        key@,
                        self@.files[i].chunks,
                        content@,
                        evidence(from@),
                    ) == Some(Opened::Bad { fault: e@ }),
            },
    {
        let list: Vec<ContentHash> = match self.chunk_hashes_for_content(content) {
            None => {
                return Ok(None);
            },
            Some(list) => list,
        };
        let ghost all = db::hashes(list@);
        let ghost sources = evidence(from@);
        assert(all.len() == list@.len());
        let run: usize = self.first_unproducible(&list, from);
        if run == list.len() {
            return match assemble(key, &list, from, content) {
                Ok(bytes) => Ok(Some(bytes)),
                Err(e) => Err(e),
            };
        }
        let mut i: usize = 0;
        let ghost mut bytes: Seq<u8> = Seq::empty();
        while i < run
            invariant
                i <= run < list@.len() == from@.len(),
                all == db::hashes(list@),
                sources == evidence(from@),
                run == producible_run(self@.chunks, all, sources, 0),
                assembled(key@, all, sources, i as int) == (Opened::Plain { bytes }),
                exists|k: int| #[trigger]
                    is_file_with_content(self@.files, content@, k) && all == self@.files[k].chunks,
            decreases run - i,
        {
            match read_chunk(key, &list[i], &from[i]) {
                Err(e) => {
                    proof {
                        assert(assembled(key@, all, sources, i + 1) == (Opened::Bad {
                            fault: e@,
                        }));
                        first_failure_decides(key@, all, sources, i + 1, run as int);
                    }
                    return Err(e);
                },
                Ok(more) => {
                    proof {
                        bytes = bytes + more@;
                    }
                },
            }
            i += 1;
        }
        Ok(None)
    }

    /// Content this device holds, by hash, to be written out. Whether all of it
    /// is here is asked before anything is read, so that `None` really does mean
    /// that nothing happened.
    pub fn read_content_into(
        &self,
        key: &ChunkKey,
        content: &ContentHash,
        from: &Vec<Source>,
    ) -> (result: Result<Option<Vec<u8>>, Error>)
        requires
            self.wf(),
            forall|i: int| #[trigger]
                is_file_with_content(self@.files, content@, i) ==> from@.len()
                    == self@.files[i].chunks.len(),
        ensures
            match result {
                Ok(None) => unknown_content(self@.files, content@) || exists|i: int| #[trigger]
                    is_file_with_content(self@.files, content@, i) && producible_run(
                        self@.chunks,
                        self@.files[i].chunks,
                        evidence(from@),
                        0,
                    ) < self@.files[i].chunks.len(),
                Ok(Some(bytes)) => exists|i: int| #[trigger]
                    is_file_with_content(self@.files, content@, i) && whole_read(
                        self@,
                        key@,
                        self@.files[i].chunks,
                        content@,
                        evidence(from@),
                        Opened::Plain { bytes: bytes@ },
                    ),
                Err(e) => exists|i: int| #[trigger]
                    is_file_with_content(self@.files, content@, i) && whole_read(
                        self@,
                        key@,
                        self@.files[i].chunks,
                        content@,
                        evidence(from@),
                        Opened::Bad { fault: e@ },
                    ),
            },
    {
        let list: Vec<ContentHash> = match self.chunk_hashes_for_content(content) {
            None => {
                return Ok(None);
            },
            Some(list) => list,
        };
        assert(db::hashes(list@).len() == list@.len());
        let run: usize = self.first_unproducible(&list, from);
        if run < list.len() {
            return Ok(None);
        }
        match assemble(key, &list, from, content) {
            Ok(bytes) => Ok(Some(bytes)),
            Err(e) => Err(e),
        }
    }
}

/// All of the content is here, and it is read as this.
pub open spec fn whole_read(
    ix: Index,
    key: Seq<u8>,
    list: Seq<Seq<u8>>,
    content: Seq<u8>,
    from: Seq<Evidence>,
    read: Opened,
) -> bool {
    &&& producible_run(ix.chunks, list, from, 0) == list.len()
    &&& read == checked(assembled(key, list, from, list.len() as int), content)
}

/// What the file at a path of the shared area is read as.
pub open spec fn file_read(ix: Index, key: Seq<u8>, path: Seq<char>, from: Seq<Evidence>) -> Opened {
    if super::removal::live(ix, path) {
        let f = ix.files[db::shared(ix, path)];
        checked(assembled(key, f.chunks, from, f.chunks.len() as int), f.content_hash)
    } else {
        Opened::Bad { fault: Fault::NotFound { path } }
    }
}

/// What content made of these chunks is read as; `None` where it is not here.
pub open spec fn content_read(
    ix: Index,
    key: Seq<u8>,
    list: Seq<Seq<u8>>,
    content: Seq<u8>,
    from: Seq<Evidence>,
) -> Option<Opened> {
    let run = producible_run(ix.chunks, list, from, 0);
    if run == list.len() {
        Some(checked(assembled(key, list, from, run), content))
    } else {
        match assembled(key, list, from, run) {
            Opened::Bad { fault } => Some(Opened::Bad { fault }),
            Opened::Plain { .. } => None,
        }
    }
}

/// What is read of a chunk is what its name promises: the bytes hash to it. They
/// come from the chunk store where there is a payload, which then has to open, and
/// from the folder only where there is none.
pub proof fn law_a_chunk_reads_as_named(key: Seq<u8>, hash: Seq<u8>, from: Evidence)
    ensures
        chunk_read(key, hash, from) matches Opened::Plain { bytes } ==> digest::blake3_digest(
            bytes,
        ) == hash && (from.stored is None ==> from.tree == Some(bytes)) && (
        from.stored is Some ==> sealing::opened(key, from.stored->0, text::hex(hash)) == (
        Opened::Plain { bytes })),
        from.stored is None && (from.tree matches Some(b) && digest::blake3_digest(b) == hash)
            ==> chunk_read(key, hash, from) == (Opened::Plain { bytes: from.tree->0 }),
        from.stored is None && !(from.tree matches Some(b) && digest::blake3_digest(b) == hash)
            ==> chunk_read(key, hash, from) == (Opened::Bad {
            fault: Fault::ChunkMissing { hash: text::hex(hash) },
        }),
        from.stored is Some ==> match sealing::opened(key, from.stored->0, text::hex(hash)) {
            Opened::Bad { fault } => chunk_read(key, hash, from) == (Opened::Bad { fault }),
            Opened::Plain { bytes } => digest::blake3_digest(bytes) == hash || chunk_read(
                key,
                hash,
                from,
            ) == (Opened::Bad { fault: Fault::ChunkCorrupt { hash: text::hex(hash) } }),
        },
{
}

/// A file is read as a whole or not at all. What is read is its chunks, one behind
/// the other, and hashes to the file's own hash. Where a chunk cannot be read, the
/// first such chunk says why.
pub proof fn law_a_file_is_read_whole_or_not_at_all(
    key: Seq<u8>,
    list: Seq<Seq<u8>>,
    from: Seq<Evidence>,
    content: Seq<u8>,
    i: int,
)
    requires
        from.len() == list.len(),
        0 <= i < list.len(),
    ensures
        ({
            let read = checked(assembled(key, list, from, list.len() as int), content);
            &&& read matches Opened::Plain { bytes } ==> digest::blake3_digest(bytes) == content
                && chunk_read(key, list[i], from[i]) is Plain
            &&& chunk_read(key, list[i], from[i]) is Bad && (forall|j: int|
                0 <= j < i ==> #[trigger] chunk_read(key, list[j], from[j]) is Plain) ==> read
                == chunk_read(key, list[i], from[i])
        }),
{
    let n = list.len() as int;
    if chunk_read(key, list[i], from[i]) is Bad {
        bad_from(key, list, from, i, i + 1);
        first_failure_decides(key, list, from, i + 1, n);
        if forall|j: int| 0 <= j < i ==> #[trigger] chunk_read(key, list[j], from[j]) is Plain {
            plain_until(key, list, from, i);
        }
    }
}

proof fn bad_from(key: Seq<u8>, list: Seq<Seq<u8>>, from: Seq<Evidence>, i: int, n: int)
    requires
        0 <= i < n <= list.len(),
        chunk_read(key, list[i], from[i]) is Bad,
    ensures
        assembled(key, list, from, n) is Bad,
    decreases n,
{
    if i < n - 1 {
        bad_from(key, list, from, i, n - 1);
    }
}

proof fn plain_until(key: Seq<u8>, list: Seq<Seq<u8>>, from: Seq<Evidence>, n: int)
    requires
        0 <= n <= list.len(),
        forall|j: int| 0 <= j < n ==> #[trigger] chunk_read(key, list[j], from[j]) is Plain,
    ensures
        assembled(key, list, from, n) is Plain,
    decreases n,
{
    if n > 0 {
        plain_until(key, list, from, n - 1);
        assert(chunk_read(key, list[n - 1], from[n - 1]) is Plain);
    }
}

/// Putting a chunk more behind what was read adds its bytes at the end.
pub proof fn law_chunks_are_put_one_behind_the_other(
    key: Seq<u8>,
    list: Seq<Seq<u8>>,
    from: Seq<Evidence>,
    n: int,
    before: Seq<u8>,
    more: Seq<u8>,
)
    requires
        0 < n <= list.len(),
        assembled(key, list, from, n - 1) == (Opened::Plain { bytes: before }),
        chunk_read(key, list[n - 1], from[n - 1]) == (Opened::Plain { bytes: more }),
    ensures
        assembled(key, list, from, n) == (Opened::Plain { bytes: before + more }),
        assembled(key, list, from, 0) == (Opened::Plain { bytes: Seq::empty() }),
{
}

/// Whether all of a content can be produced is decided by its first chunk that
/// cannot: everything before it is known and has a payload or a source in the
/// folder.
pub proof fn law_the_first_unproducible_chunk_is_found(
    chunks: Map<Seq<u8>, ChunkFacts>,
    list: Seq<Seq<u8>>,
    from: Seq<Evidence>,
    n: int,
)
    requires
        from.len() == list.len(),
        0 <= n <= list.len(),
    ensures
        ({
            let run = producible_run(chunks, list, from, n);
            &&& n <= run <= list.len()
            &&& forall|j: int|
                #![trigger list[j]]
                n <= j < run ==> chunks.contains_key(list[j]) && (from[j].stored is Some || (
                from[j].tree matches Some(b) && digest::blake3_digest(b) == list[j]))
            &&& run < list.len() ==> !(chunks.contains_key(list[run]) && (from[run].stored is Some
                || (from[run].tree matches Some(b) && digest::blake3_digest(b) == list[run])))
        }),
    decreases list.len() - n,
{
    if n < list.len() && producible(chunks, list[n], from[n]) {
        law_the_first_unproducible_chunk_is_found(chunks, list, from, n + 1);
    }
}

/// A path is read where it holds a live file of the shared area, and not found
/// otherwise; what is read hashes to the content that is recorded for it.
pub proof fn law_a_path_reads_as_recorded(
    ix: Index,
    key: Seq<u8>,
    path: Seq<char>,
    from: Seq<Evidence>,
    f: File,
)
    requires
        db::files_distinct(ix.files),
    ensures
        ix.files.contains(f) && f.path == path && f.scope is None && f.deleted_at is None
            ==> file_read(ix, key, path, from) == checked(
            assembled(key, f.chunks, from, f.chunks.len() as int),
            f.content_hash,
        ),
        (forall|i: int|
            #![trigger ix.files[i]]
            0 <= i < ix.files.len() && ix.files[i].path == path && ix.files[i].scope is None
                ==> ix.files[i].deleted_at is Some) ==> file_read(ix, key, path, from) == (
        Opened::Bad { fault: Fault::NotFound { path } }),
        file_read(ix, key, path, from) matches Opened::Plain { bytes } ==> exists|g: File|
            #[trigger]
            ix.files.contains(g) && g.path == path && g.scope is None && g.deleted_at is None
                && digest::blake3_digest(bytes) == g.content_hash,
{
    db::find_finds(ix.files, path, None);
    let k = db::shared(ix, path);
    if ix.files.contains(f) && f.path == path && f.scope is None {
        let i = choose|i: int| 0 <= i < ix.files.len() && ix.files[i] == f;
        db::found_is_unique(ix.files, i);
    }
    if k >= 0 {
        assert(ix.files.contains(ix.files[k]));
    }
}

/// Content that is read by its hash has that hash. It is read of a file that is known
/// to have it, live where one is, and where not every chunk can be had nothing is
/// read.
pub proof fn law_content_reads_as_named(
    ix: Index,
    key: Seq<u8>,
    list: Seq<Seq<u8>>,
    content: Seq<u8>,
    from: Seq<Evidence>,
)
    requires
        from.len() == list.len(),
    ensures
        content_read(ix, key, list, content, from) matches Some(Opened::Plain { bytes })
            ==> digest::blake3_digest(bytes) == content && forall|j: int|
            #![trigger list[j]]
            0 <= j < list.len() ==> ix.chunks.contains_key(list[j]),
        forall|read: Opened| #[trigger]
            whole_read(ix, key, list, content, from, read) && read is Plain
                ==> digest::blake3_digest(read->bytes) == content && forall|j: int|
                #![trigger list[j]]
                0 <= j < list.len() ==> ix.chunks.contains_key(list[j]),
{
    law_the_first_unproducible_chunk_is_found(ix.chunks, list, from, 0);
}

/// The file that stands for a content has it, and is a live one where there is one.
pub proof fn law_a_live_file_is_preferred(files: Seq<File>, content: Seq<u8>, i: int)
    requires
        is_file_with_content(files, content, i),
    ensures
        0 <= i < files.len(),
        files[i].content_hash == content,
        (exists|j: int|
            #![trigger files[j]]
            0 <= j < files.len() && files[j].content_hash == content && files[j].deleted_at is None)
            ==> files[i].deleted_at is None,
        !unknown_content(files, content),
{
    assert(files[i].content_hash == content);
}

} // verus!
