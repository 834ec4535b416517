//! Whether the index and the payloads agree, and what they cost.

use vstd::prelude::*;

use super::chunker::ContentHash;
use super::db;
use super::db::{ChunkFacts, ChunkRow, Db, File, FileRow};
use super::reading;
use super::reading::{is_supplied, read_chunk, Evidence, Source};
use super::sealing::{ChunkKey, Opened};
use crate::digest;
use crate::order::same_bytes;

verus! {

/// A stored reference count that disagrees with the links it describes.
#[derive(Debug, Clone, Copy)]
pub struct RefcountDrift {
    pub hash: ContentHash,
    pub stored: i64,
    pub actual: i64,
}

/// The outcome of [`Db::verify`].
#[derive(Debug)]
pub struct VerifyReport {
    /// Referenced by the index, absent from the store. **Data loss.**
    pub missing: Vec<ContentHash>,
    /// Present on disk but unknown to the index. Wasted space, not corruption;
    /// normal after a crash mid-write.
    pub orphaned: Vec<ContentHash>,
    /// Present but does not decrypt, or does not hash to its own name.
    pub corrupt: Vec<ContentHash>,
    /// Stored reference counts that disagree with the links they describe.
    pub refcount_drift: Vec<RefcountDrift>,
}

impl VerifyReport {
    /// Whether anything found threatens data rather than merely wasting space.
    pub fn is_healthy(&self) -> (yes: bool)
        ensures
            yes == (self.missing@.len() == 0 && self.corrupt@.len() == 0
                && self.refcount_drift@.len() == 0),
    {
        self.missing.len() == 0 && self.corrupt.len() == 0 && self.refcount_drift.len() == 0
    }
}

pub open spec fn drift_views(s: Seq<RefcountDrift>) -> Seq<(Seq<u8>, i64, i64)> {
    Seq::new(s.len(), |i: int| (s[i].hash@, s[i].stored, s[i].actual))
}

/// A number of links, as far as a count can hold it.
pub open spec fn as_count(n: nat) -> i64 {
    if n <= i64::MAX {
        n as i64
    } else {
        i64::MAX
    }
}

/// The counts that are wrong: hash, stored count, number of links.
pub open spec fn drift(rows: Seq<ChunkRow>, files: Seq<File>) -> Seq<(Seq<u8>, i64, i64)>
    decreases rows.len(),
{
    if rows.len() == 0 {
        Seq::empty()
    } else {
        let before = drift(rows.drop_last(), files);
        let r = rows.last();
        let n = db::links(files, r.hash@);
        if r.refcount == n {
            before
        } else {
            before.push((r.hash@, r.refcount, as_count(n)))
        }
    }
}

/// How a chunk fares.
pub enum State {
    Fine,
    Missing,
    Corrupt,
}

/// How a chunk fares. A chunk nothing references is waiting to be collected: its
/// payload being gone is not data loss.
pub open spec fn state(key: Seq<u8>, row: ChunkRow, deep: bool, from: Evidence) -> State {
    if row.refcount == 0 {
        State::Fine
    } else if from.stored is None {
        if reading::supplied(row.hash@, from.tree) {
            State::Fine
        } else {
            State::Missing
        }
    } else if deep {
        match reading::chunk_read(key, row.hash@, from) {
            Opened::Plain { .. } => State::Fine,
            Opened::Bad { .. } => State::Corrupt,
        }
    } else {
        State::Fine
    }
}

/// The chunks that are missing among the first `n`.
pub open spec fn missing(
    key: Seq<u8>,
    rows: Seq<ChunkRow>,
    deep: bool,
    from: Seq<Evidence>,
    n: int,
) -> Seq<Seq<u8>>
    decreases n,
{
    if n <= 0 {
        Seq::empty()
    } else if state(key, rows[n - 1], deep, from[n - 1]) is Missing {
        missing(key, rows, deep, from, n - 1).push(rows[n - 1].hash@)
    } else {
        missing(key, rows, deep, from, n - 1)
    }
}

/// The chunks that are corrupt among the first `n`.
pub open spec fn corrupt(
    key: Seq<u8>,
    rows: Seq<ChunkRow>,
    deep: bool,
    from: Seq<Evidence>,
    n: int,
) -> Seq<Seq<u8>>
    decreases n,
{
    if n <= 0 {
        Seq::empty()
    } else if state(key, rows[n - 1], deep, from[n - 1]) is Corrupt {
        corrupt(key, rows, deep, from, n - 1).push(rows[n - 1].hash@)
    } else {
        corrupt(key, rows, deep, from, n - 1)
    }
}

/// The hashes that the index does not know.
pub open spec fn unknown(list: Seq<Seq<u8>>, chunks: Map<Seq<u8>, ChunkFacts>) -> Seq<Seq<u8>>
    decreases list.len(),
{
    if list.len() == 0 {
        Seq::empty()
    } else if chunks.contains_key(list.last()) {
        unknown(list.drop_last(), chunks)
    } else {
        unknown(list.drop_last(), chunks).push(list.last())
    }
}

/// How often a hash stands in a list.
fn count_uses(list: &Vec<ContentHash>, hash: &ContentHash) -> (n: usize)
    ensures
        n == db::uses(db::hashes(list@), hash@),
{
    let ghost all = db::hashes(list@);
    let len: usize = list.len();
    let mut n: usize = 0;
    let mut i: usize = 0;
    while i < len
        invariant
            i <= len == list@.len(),
            n <= i,
            all == db::hashes(list@),
            n == db::uses(all.take(i as int), hash@),
        decreases len - i,
    {
        assert(all.take(i + 1).drop_last() =~= all.take(i as int));
        assert(all.take(i + 1).last() == list@[i as int]@);
        if same_bytes(&list[i], hash) {
            n += 1;
        }
        i += 1;
    }
    assert(all.take(i as int) =~= all);
    n
}

impl Db {
    /// How many links to a chunk there are.
    fn count_links(&self, hash: &ContentHash) -> (n: u128)
        ensures
            n == db::links(self@.files, hash@),
    {
        let ghost all = self@.files;
        let len: usize = self.files.len();
        let mut n: u128 = 0;
        let mut i: usize = 0;
        while i < len
            invariant
                i <= len == self.files@.len(),
                all == self@.files,
                n <= i * 0xffff_ffff_ffff_ffff,
                n == db::links(all.take(i as int), hash@),
            decreases len - i,
        {
            proof {
                assert(all.take(i + 1).drop_last() =~= all.take(i as int));
                assert(all.take(i + 1).last() == self.files@[i as int]@);
            }
            n = n + count_uses(&self.files[i].chunks, hash) as u128;
            i += 1;
        }
        assert(all.take(i as int) =~= all);
        n
    }

    /// Re-derive every reference count from the links and report any chunk whose
    /// stored count disagrees.
    pub fn audit_refcounts(&self) -> (list: Vec<RefcountDrift>)
        ensures
            drift_views(list@) == drift(self.chunks@, self@.files),
    {
        let ghost rows = self.chunks@;
        let mut list: Vec<RefcountDrift> = Vec::new();
        let mut i: usize = 0;
        assert(drift_views(list@) =~= drift(rows.take(0), self@.files));
        while i < self.chunks.len()
            invariant
                i <= self.chunks@.len(),
                rows == self.chunks@,
                drift_views(list@) == drift(rows.take(i as int), self@.files),
            decreases self.chunks@.len() - i,
        {
            let row: ChunkRow = self.chunks[i];
            assert(rows.take(i + 1).drop_last() =~= rows.take(i as int));
            assert(rows.take(i + 1).last() == row);
            let n: u128 = self.count_links(&row.hash);
            let actual: i64 = if n <= i64::MAX as u128 {
                n as i64
            } else {
                i64::MAX
            };
            if row.refcount != actual || n > i64::MAX as u128 {
                let ghost before = drift_views(list@);
                list.push(RefcountDrift { hash: row.hash, stored: row.refcount, actual });
                assert(drift_views(list@) =~= before.push((row.hash@, row.refcount, actual)));
            }
            i += 1;
        }
        assert(rows.take(i as int) =~= rows);
        list
    }

    /// Check that the index and the payloads agree with each other.
    ///
    /// `from` says what there is of each chunk of the index, `found` what lies in
    /// the chunk store. `deep` additionally decrypts and re-hashes every chunk,
    /// which is the only way to detect silent disk corruption. Whatever is wrong
    /// with a payload that is there, its chunk is listed and the check goes on.
    pub fn verify(
        &self,
        key: &ChunkKey,
        deep: bool,
        from: &Vec<Source>,
        found: &Vec<ContentHash>,
    ) -> (report: VerifyReport)
        requires
            self.wf(),
            from@.len() == self.chunks@.len(),
        ensures
            ({
                let n = self.chunks@.len() as int;
                let sources = reading::evidence(from@);
                &&& drift_views(report.refcount_drift@) == drift(self.chunks@, self@.files)
                &&& db::hashes(report.missing@) == missing(key@, self.chunks@, deep, sources, n)
                &&& db::hashes(report.corrupt@) == corrupt(key@, self.chunks@, deep, sources, n)
                &&& db::hashes(report.orphaned@) == unknown(db::hashes(found@), self@.chunks)
            }),
    {
        let ghost rows = self.chunks@;
        let ghost sources = reading::evidence(from@);
        let refcount_drift: Vec<RefcountDrift> = self.audit_refcounts();
        let mut lost: Vec<ContentHash> = Vec::new();
        let mut damaged: Vec<ContentHash> = Vec::new();
        let mut i: usize = 0;
        assert(db::hashes(lost@) =~= missing(key@, rows, deep, sources, 0));
        assert(db::hashes(damaged@) =~= corrupt(key@, rows, deep, sources, 0));
        while i < self.chunks.len()
            invariant
                i <= self.chunks@.len() == from@.len(),
                rows == self.chunks@,
                sources == reading::evidence(from@),
                db::hashes(lost@) == missing(key@, rows, deep, sources, i as int),
                db::hashes(damaged@) == corrupt(key@, rows, deep, sources, i as int),
            decreases self.chunks@.len() - i,
        {
            let row: ChunkRow = self.chunks[i];
            let source: &Source = &from[i];
            let ghost a = db::hashes(lost@);
            let ghost b = db::hashes(damaged@);
            assert(sources[i as int] == source@);
            if row.refcount != 0 {
                if source.stored.is_none() {
                    if !is_supplied(&row.hash, &source.tree) {
                        lost.push(row.hash);
                        assert(db::hashes(lost@) =~= a.push(row.hash@));
                    }
                } else if deep {
                    match read_chunk(key, &row.hash, source) {
                        Ok(_) => {},
                        Err(_) => {
                            damaged.push(row.hash);
                            assert(db::hashes(damaged@) =~= b.push(row.hash@));
                        },
                    }
                }
            }
            i += 1;
        }
        let orphaned: Vec<ContentHash> = self.unknown_of(found);
        VerifyReport { missing: lost, orphaned, corrupt: damaged, refcount_drift }
    }

    /// Those of a list that the index does not know.
    pub fn unknown_of(&self, found: &Vec<ContentHash>) -> (list: Vec<ContentHash>)
        requires
            self.wf(),
        ensures
            db::hashes(list@) == unknown(db::hashes(found@), self@.chunks),
    {
        let ghost all = db::hashes(found@);
        let mut list: Vec<ContentHash> = Vec::new();
        let mut i: usize = 0;
        assert(db::hashes(list@) =~= unknown(all.take(0), self@.chunks));
        while i < found.len()
            invariant
                i <= found@.len(),
                self.wf(),
                all == db::hashes(found@),
                db::hashes(list@) == unknown(all.take(i as int), self@.chunks),
            decreases found@.len() - i,
        {
            assert(all.take(i + 1).drop_last() =~= all.take(i as int));
            assert(all.take(i + 1).last() == found@[i as int]@);
            if !self.has_chunk(&found[i]) {
                let ghost before = db::hashes(list@);
                list.push(found[i]);
                assert(db::hashes(list@) =~= before.push(found@[i as int]@));
            }
            i += 1;
        }
        assert(all.take(i as int) =~= all);
        list
    }
}

/// Where every count is right, an audit finds nothing.
pub proof fn law_right_counts_show_no_drift(db: Db)
    requires
        db.wf(),
        db::counted(db@),
    ensures
        drift(db.chunks@, db@.files) == Seq::<(Seq<u8>, i64, i64)>::empty(),
{
    no_drift(db, db.chunks@.len() as int);
    assert(db.chunks@.take(db.chunks@.len() as int) =~= db.chunks@);
}

proof fn no_drift(db: Db, n: int)
    requires
        db.wf(),
        db::counted(db@),
        0 <= n <= db.chunks@.len(),
    ensures
        drift(db.chunks@.take(n), db@.files) == Seq::<(Seq<u8>, i64, i64)>::empty(),
    decreases n,
{
    if n > 0 {
        no_drift(db, n - 1);
        let rows = db.chunks@;
        assert(rows.take(n).drop_last() =~= rows.take(n - 1));
        let s = db::chunk_pairs(rows);
        crate::keyed::entry_in_map(s, n - 1);
        assert(db@.chunks.contains_key(rows[n - 1].hash@));
    }
}

/// What a store is costing on disk.
#[derive(Debug, Clone, Copy, PartialEq, Eq, Structural)]
pub struct Usage {
    /// Live files this device is holding in the folder.
    pub files: u64,
    /// Chunk payloads, which are only the ones the folder cannot supply: remote
    /// content not yet materialised, superseded versions, and anything indexed
    /// from outside the folder.
    pub chunks: u64,
}

impl Default for Usage {
    fn default() -> (usage: Self)
        ensures
            usage == (Usage { files: 0, chunks: 0 }),
    {
        Usage { files: 0, chunks: 0 }
    }
}

impl Usage {
    pub fn total(&self) -> (total: u64)
        requires
            self.files + self.chunks <= u64::MAX,
        ensures
            total == self.files + self.chunks,
    {
        self.files + self.chunks
    }
}

/// What the live files of the shared area come to; where asked, only those whose
/// bytes this device holds.
pub open spec fn file_total(files: Seq<File>, held_only: bool) -> nat
    decreases files.len(),
{
    if files.len() == 0 {
        0
    } else {
        let f = files.last();
        file_total(files.drop_last(), held_only) + if f.deleted_at is None && f.scope is None && (
        f.materialised || !held_only) {
            f.size as nat
        } else {
            0
        }
    }
}

/// What rows come to in plaintext.
pub open spec fn plain_total(rows: Seq<ChunkRow>) -> nat
    decreases rows.len(),
{
    if rows.len() == 0 {
        0
    } else {
        plain_total(rows.drop_last()) + rows.last().size as nat
    }
}

proof fn file_total_grows(files: Seq<File>, held_only: bool, n: int)
    requires
        0 <= n <= files.len(),
    ensures
        file_total(files.take(n), held_only) <= file_total(files, held_only),
    decreases files.len() - n,
{
    if n < files.len() {
        file_total_grows(files, held_only, n + 1);
        assert(files.take(n + 1).drop_last() =~= files.take(n));
    } else {
        assert(files.take(n) =~= files);
    }
}

proof fn totals_grow(rows: Seq<ChunkRow>, n: int)
    requires
        0 <= n <= rows.len(),
    ensures
        plain_total(rows.take(n)) <= plain_total(rows),
        db::row_total(rows.take(n)) <= db::row_total(rows),
    decreases rows.len() - n,
{
    if n < rows.len() {
        totals_grow(rows, n + 1);
        assert(rows.take(n + 1).drop_last() =~= rows.take(n));
    } else {
        assert(rows.take(n) =~= rows);
    }
}

impl Db {
    fn sum_files(&self, held_only: bool) -> (total: u64)
        requires
            file_total(self@.files, held_only) <= u64::MAX,
        ensures
            total == file_total(self@.files, held_only),
    {
        let ghost all = self@.files;
        let mut total: u64 = 0;
        let mut i: usize = 0;
        while i < self.files.len()
            invariant
                i <= self.files@.len(),
                all == self@.files,
                file_total(all, held_only) <= u64::MAX,
                total == file_total(all.take(i as int), held_only),
            decreases self.files@.len() - i,
        {
            proof {
                assert(all.take(i + 1).drop_last() =~= all.take(i as int));
                assert(all.take(i + 1).last() == self.files@[i as int]@);
                file_total_grows(all, held_only, i + 1);
            }
            let f: &FileRow = &self.files[i];
            if f.deleted_at.is_none() && f.scope.is_none() && (f.materialised || !held_only) {
                total = total + f.size;
            }
            i += 1;
        }
        assert(all.take(i as int) =~= all);
        total
    }

    /// Bytes the live files come to, held here or not.
    pub fn live_bytes(&self) -> (total: u64)
        requires
            file_total(self@.files, false) <= u64::MAX,
        ensures
            total == file_total(self@.files, false),
    {
        self.sum_files(false)
    }

    /// Bytes the live files held in the folder come to.
    pub fn materialised_bytes(&self) -> (total: u64)
        requires
            file_total(self@.files, true) <= u64::MAX,
        ensures
            total == file_total(self@.files, true),
    {
        self.sum_files(true)
    }

    /// Total plaintext and stored bytes across all known chunks.
    pub fn size_totals(&self) -> (totals: (u64, u64))
        requires
            plain_total(self.chunks@) <= u64::MAX,
            db::row_total(self.chunks@) <= u64::MAX,
        ensures
            totals.0 == plain_total(self.chunks@),
            totals.1 == db::row_total(self.chunks@),
    {
        let ghost rows = self.chunks@;
        let mut plain: u64 = 0;
        let mut stored: u64 = 0;
        let mut i: usize = 0;
        while i < self.chunks.len()
            invariant
                i <= self.chunks@.len(),
                rows == self.chunks@,
                plain_total(rows) <= u64::MAX,
                db::row_total(rows) <= u64::MAX,
                plain == plain_total(rows.take(i as int)),
                stored == db::row_total(rows.take(i as int)),
            decreases self.chunks@.len() - i,
        {
            proof {
                assert(rows.take(i + 1).drop_last() =~= rows.take(i as int));
                totals_grow(rows, i + 1);
            }
            plain = plain + self.chunks[i].size;
            stored = stored + self.chunks[i].stored_size;
            i += 1;
        }
        assert(rows.take(i as int) =~= rows);
        (plain, stored)
    }

    pub fn chunk_count(&self) -> (n: usize)
        requires
            self.wf(),
        ensures
            n == self@.chunks.dom().len(),
    {
        proof {
            crate::keyed::map_size(db::chunk_pairs(self.chunks@));
        }
        self.chunks.len()
    }

    /// What this store is costing on disk, in bytes.
    ///
    /// Both halves: the files the folder is holding, plus the chunk payloads that
    /// the folder cannot supply. A store with no folder holds nothing in one.
    pub fn usage(&self, has_tree: bool) -> (usage: Usage)
        requires
            file_total(self@.files, true) <= u64::MAX,
            plain_total(self.chunks@) <= u64::MAX,
            db::row_total(self.chunks@) <= u64::MAX,
        ensures
            usage.files == if has_tree {
                file_total(self@.files, true)
            } else {
                0
            },
            usage.chunks == db::row_total(self.chunks@),
    {
        let files: u64 = if has_tree {
            self.materialised_bytes()
        } else {
            0
        };
        Usage { files, chunks: self.size_totals().1 }
    }
}

impl Db {
    /// Whether what the files and the chunks come to can be counted.
    pub fn totals_fit(&self) -> (yes: bool)
        ensures
            yes == (file_total(self@.files, false) <= u64::MAX && file_total(self@.files, true)
                <= u64::MAX && plain_total(self.chunks@) <= u64::MAX && db::row_total(self.chunks@)
                <= u64::MAX),
    {
        let ghost all = self@.files;
        let ghost rows = self.chunks@;
        let files: usize = self.files.len();
        let chunks: usize = self.chunks.len();
        let mut live: u128 = 0;
        let mut held: u128 = 0;
        let mut i: usize = 0;
        while i < files
            invariant
                i <= files == self.files@.len(),
                all == self@.files,
                live <= i * 0xffff_ffff_ffff_ffff,
                held <= i * 0xffff_ffff_ffff_ffff,
                live == file_total(all.take(i as int), false),
                held == file_total(all.take(i as int), true),
            decreases files - i,
        {
            proof {
                assert(all.take(i + 1).drop_last() =~= all.take(i as int));
                assert(all.take(i + 1).last() == self.files@[i as int]@);
            }
            let f: &FileRow = &self.files[i];
            if f.deleted_at.is_none() && f.scope.is_none() {
                live = live + f.size as u128;
                if f.materialised {
                    held = held + f.size as u128;
                }
            }
            i += 1;
        }
        assert(all.take(i as int) =~= all);
        let mut plain: u128 = 0;
        let mut stored: u128 = 0;
        let mut k: usize = 0;
        while k < chunks
            invariant
                k <= chunks == self.chunks@.len(),
                rows == self.chunks@,
                plain <= k * 0xffff_ffff_ffff_ffff,
                stored <= k * 0xffff_ffff_ffff_ffff,
                plain == plain_total(rows.take(k as int)),
                stored == db::row_total(rows.take(k as int)),
            decreases chunks - k,
        {
            assert(rows.take(k + 1).drop_last() =~= rows.take(k as int));
            plain = plain + self.chunks[k].size as u128;
            stored = stored + self.chunks[k].stored_size as u128;
            k += 1;
        }
        assert(rows.take(k as int) =~= rows);
        let most: u128 = u64::MAX as u128;
        live <= most && held <= most && plain <= most && stored <= most
    }
}

/// A store whose counts are right and whose chunks can all be read is healthy.
pub proof fn law_a_sound_store_is_healthy(
    db: Db,
    key: Seq<u8>,
    deep: bool,
    from: Seq<Evidence>,
    n: int,
)
    requires
        db.wf(),
        db::counted(db@),
        0 <= n <= db.chunks@.len(),
        forall|i: int|
            #![trigger db.chunks@[i]]
            0 <= i < n && db.chunks@[i].refcount != 0 ==> reading::chunk_read(
                key,
                db.chunks@[i].hash@,
                from[i],
            ) is Plain,
    ensures
        drift(db.chunks@, db@.files) == Seq::<(Seq<u8>, i64, i64)>::empty(),
        missing(key, db.chunks@, deep, from, n) == Seq::<Seq<u8>>::empty(),
        corrupt(key, db.chunks@, deep, from, n) == Seq::<Seq<u8>>::empty(),
    decreases n,
{
    law_right_counts_show_no_drift(db);
    if n > 0 {
        law_a_sound_store_is_healthy(db, key, deep, from, n - 1);
        assert(state(key, db.chunks@[n - 1], deep, from[n - 1]) is Fine);
    }
}

/// What a deep check finds nothing wrong with reads: a chunk that a file needs is
/// read as bytes that hash to its name.
pub proof fn law_a_healthy_chunk_reads(key: Seq<u8>, row: ChunkRow, from: Evidence)
    requires
        row.refcount != 0,
        state(key, row, true, from) is Fine,
    ensures
        reading::chunk_read(key, row.hash@, from) matches Opened::Plain { bytes }
            && digest::blake3_digest(bytes) == row.hash@,
{
}

/// A chunk is reported missing or corrupt exactly for what is wrong with it. One
/// that nothing links to is not looked at. One that is linked is missing where it
/// has neither a payload nor a source in the folder; a deep check calls it corrupt
/// where it has a payload that does not read as the chunk, and a shallow one does
/// not look.
pub proof fn law_a_report_names_what_is_wrong(
    key: Seq<u8>,
    rows: Seq<ChunkRow>,
    deep: bool,
    from: Seq<Evidence>,
    n: int,
)
    requires
        0 <= n <= rows.len(),
        from.len() == rows.len(),
    ensures
        forall|h: Seq<u8>| #[trigger]
            missing(key, rows, deep, from, n).contains(h) <==> exists|i: int|
                0 <= i < n && is_gone(#[trigger] rows[i], from[i]) && rows[i].hash@ == h,
        forall|h: Seq<u8>| #[trigger]
            corrupt(key, rows, deep, from, n).contains(h) <==> exists|i: int|
                0 <= i < n && deep && is_damaged(key, #[trigger] rows[i], from[i])
                    && rows[i].hash@ == h,
    decreases n,
{
    if n > 0 {
        law_a_report_names_what_is_wrong(key, rows, deep, from, n - 1);
        let r = rows[n - 1];
        let a = missing(key, rows, deep, from, n - 1);
        let b = missing(key, rows, deep, from, n);
        assert forall|h: Seq<u8>| #[trigger] b.contains(h) <==> exists|i: int|
            0 <= i < n && is_gone(#[trigger] rows[i], from[i]) && rows[i].hash@ == h by {
            one_more_or_not(a, b, r.hash@, is_gone(r, from[n - 1]), h);
            if exists|i: int|
                0 <= i < n && is_gone(#[trigger] rows[i], from[i]) && rows[i].hash@ == h {
                let i = choose|i: int|
                    0 <= i < n && is_gone(#[trigger] rows[i], from[i]) && rows[i].hash@ == h;
                if i < n - 1 {
                    assert(is_gone(rows[i], from[i]));
                    assert(a.contains(h));
                }
            }
            if a.contains(h) {
                let i = choose|i: int|
                    0 <= i < n - 1 && is_gone(#[trigger] rows[i], from[i]) && rows[i].hash@ == h;
                assert(is_gone(rows[i], from[i]));
            }
        }
        let c = corrupt(key, rows, deep, from, n - 1);
        let d = corrupt(key, rows, deep, from, n);
        assert forall|h: Seq<u8>| #[trigger] d.contains(h) <==> exists|i: int|
            0 <= i < n && deep && is_damaged(key, #[trigger] rows[i], from[i]) && rows[i].hash@
                == h by {
            one_more_or_not(c, d, r.hash@, deep && is_damaged(key, r, from[n - 1]), h);
            if exists|i: int|
                0 <= i < n && deep && is_damaged(key, #[trigger] rows[i], from[i])
                    && rows[i].hash@ == h {
                let i = choose|i: int|
                    0 <= i < n && deep && is_damaged(key, #[trigger] rows[i], from[i])
                        && rows[i].hash@ == h;
                if i < n - 1 {
                    assert(is_damaged(key, rows[i], from[i]));
                    assert(c.contains(h));
                }
            }
            if c.contains(h) {
                let i = choose|i: int|
                    0 <= i < n - 1 && deep && is_damaged(key, #[trigger] rows[i], from[i])
                        && rows[i].hash@ == h;
                assert(is_damaged(key, rows[i], from[i]));
            }
        }
    }
}

proof fn one_more_or_not(a: Seq<Seq<u8>>, b: Seq<Seq<u8>>, x: Seq<u8>, more: bool, h: Seq<u8>)
    requires
        b == if more {
            a.push(x)
        } else {
            a
        },
    ensures
        b.contains(h) <==> a.contains(h) || (more && x == h),
{
    if a.contains(h) {
        let k = choose|k: int| 0 <= k < a.len() && a[k] == h;
        assert(b[k] == h);
    }
    if more {
        assert(b[a.len() as int] == x);
    }
}

/// A chunk that something links to has neither a payload nor bytes in the folder
/// that are it.
pub open spec fn is_gone(row: ChunkRow, from: Evidence) -> bool {
    row.refcount != 0 && from.stored is None && !(from.tree matches Some(b)
        && digest::blake3_digest(b) == row.hash@)
}

/// A chunk that something links to has a payload that does not read as it.
pub open spec fn is_damaged(key: Seq<u8>, row: ChunkRow, from: Evidence) -> bool {
    row.refcount != 0 && from.stored is Some && !(reading::chunk_read(
        key,
        row.hash@,
        from,
    ) is Plain)
}

/// Drift is reported of exactly the chunks whose count is not the number of links
/// to them, with both.
pub proof fn law_drift_names_the_wrong_counts(rows: Seq<ChunkRow>, files: Seq<File>, d: (Seq<u8>, i64, i64))
    ensures
        drift(rows, files).contains(d) <==> exists|i: int|
            0 <= i < rows.len() && (#[trigger] rows[i]).refcount != db::links(
                files,
                rows[i].hash@,
            ) && d.0 == rows[i].hash@ && d.1 == rows[i].refcount && tells_links(
                d.2,
                db::links(files, d.0),
            ),
    decreases rows.len(),
{
    if rows.len() > 0 {
        let rest = rows.drop_last();
        law_drift_names_the_wrong_counts(rest, files, d);
        let a = drift(rest, files);
        let b = drift(rows, files);
        let r = rows.last();
        let last = rows.len() - 1;
        assert(rows[last] == r);
        if a.contains(d) {
            let k = choose|k: int| 0 <= k < a.len() && a[k] == d;
            assert(b[k] == d);
            let i = choose|i: int|
                0 <= i < rest.len() && (#[trigger] rest[i]).refcount != db::links(
                    files,
                    rest[i].hash@,
                ) && d.0 == rest[i].hash@ && d.1 == rest[i].refcount && tells_links(
                    d.2,
                    db::links(files, d.0),
                );
            assert(rows[i] == rest[i]);
        }
        if b.contains(d) && !a.contains(d) {
            let k = choose|k: int| 0 <= k < b.len() && b[k] == d;
            if k < a.len() {
                assert(a[k] == d);
            }
            assert(rows[last].refcount != db::links(files, rows[last].hash@));
        }
        if exists|i: int|
            0 <= i < rows.len() && (#[trigger] rows[i]).refcount != db::links(
                files,
                rows[i].hash@,
            ) && d.0 == rows[i].hash@ && d.1 == rows[i].refcount && tells_links(
                d.2,
                db::links(files, d.0),
            ) {
            let i = choose|i: int|
                0 <= i < rows.len() && (#[trigger] rows[i]).refcount != db::links(
                    files,
                    rows[i].hash@,
                ) && d.0 == rows[i].hash@ && d.1 == rows[i].refcount && tells_links(
                    d.2,
                    db::links(files, d.0),
                );
            if i < last {
                assert(rest[i] == rows[i]);
            } else {
                assert(b[a.len() as int] == d);
            }
        }
    }
}

/// The number is that of the links, as far as it can hold it.
pub open spec fn tells_links(n: i64, links: nat) -> bool {
    if links <= i64::MAX {
        n == links
    } else {
        n == i64::MAX
    }
}

/// Payloads on disk are called orphans exactly where the index does not know them.
pub proof fn law_orphans_are_unknown(list: Seq<Seq<u8>>, chunks: Map<Seq<u8>, ChunkFacts>, h: Seq<u8>)
    ensures
        unknown(list, chunks).contains(h) <==> list.contains(h) && !chunks.contains_key(h),
    decreases list.len(),
{
    if list.len() > 0 {
        let rest = list.drop_last();
        law_orphans_are_unknown(rest, chunks, h);
        assert(list =~= rest.push(list.last()));
        one_more_or_not(rest, list, list.last(), true, h);
        one_more_or_not(
            unknown(rest, chunks),
            unknown(list, chunks),
            list.last(),
            !chunks.contains_key(list.last()),
            h,
        );
    }
}

/// What files come to counts the live ones of the shared area at their size, and
/// where asked only those whose bytes are held here. One file more adds its size or
/// nothing.
pub proof fn law_totals_count_live_files(files: Seq<File>, f: File, held_only: bool)
    ensures
        file_total(Seq::empty(), held_only) == 0,
        f.deleted_at is Some || f.scope is Some || (held_only && !f.materialised) ==> file_total(
            files.push(f),
            held_only,
        ) == file_total(files, held_only),
        f.deleted_at is None && f.scope is None && (f.materialised || !held_only) ==> file_total(
            files.push(f),
            held_only,
        ) == file_total(files, held_only) + f.size,
{
    assert(files.push(f).drop_last() =~= files);
}

/// What chunks come to counts each row: its plain bytes, and what it takes on disk.
pub proof fn law_totals_count_every_chunk(rows: Seq<ChunkRow>, row: ChunkRow)
    ensures
        plain_total(Seq::empty()) == 0,
        db::row_total(Seq::empty()) == 0,
        plain_total(rows.push(row)) == plain_total(rows) + row.size,
        db::row_total(rows.push(row)) == db::row_total(rows) + row.stored_size,
{
    assert(rows.push(row).drop_last() =~= rows);
}

} // verus!
