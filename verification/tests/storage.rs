use qurb::storage::chunker::ContentHash;
use qurb::storage::db::Db;
use qurb::storage::error::Error;
use qurb::storage::gc::{collect, sweep_orphans, GcStats, OnDisk};
use qurb::storage::health::VerifyReport;
use qurb::storage::reading::Source;
use qurb::storage::rows::{to_device, to_hash, to_vector};
use qurb::storage::sealing::ChunkKey;
use qurb::storage::store::{Disk, PutStats};
use qurb::sync::clock::{Causality, VersionVector};
use qurb::sync::device::DeviceId;
use qurb::sync::version::FileVersion;
use std::collections::HashMap;

const HOUR: u64 = 3600;
const NOW: u64 = 0;

fn store() -> Store {
    Store::open(ChunkKey::generate())
}

/// A store whose payloads and folder are held in memory.
struct Store {
    db: Db,
    key: ChunkKey,
    payloads: HashMap<ContentHash, Vec<u8>>,
    tree: Option<HashMap<String, Vec<u8>>>,
    now: i64,
}

impl Store {
    fn open(key: ChunkKey) -> Self {
        Store {
            db: Db::new(DeviceId::from_bytes([0xD0; 32])),
            key,
            payloads: HashMap::new(),
            tree: None,
            now: 1_757_462_400,
        }
    }

    fn db(&self) -> &Db {
        &self.db
    }

    fn disk(&self, path: &str) -> Disk {
        Disk {
            has_tree: self.tree.is_some(),
            in_tree: self.tree.as_ref().map(|t| t.contains_key(path)).unwrap_or(false),
            held: self.payloads.keys().copied().collect(),
        }
    }

    fn put_bytes(&mut self, path: &str, data: &[u8], mtime_ns: i64) -> Result<PutStats, Error> {
        let disk = self.disk(path);
        let (stats, sealed) =
            self.db.put_bytes(&self.key, path, data, mtime_ns, &disk, self.now)?;
        for payload in sealed {
            self.payloads.entry(payload.hash).or_insert(payload.bytes);
        }
        Ok(stats)
    }

    fn source(&self, hash: &ContentHash) -> Source {
        let tree = match (&self.tree, self.db.locate_chunk(hash)) {
            (Some(tree), Some((path, offset, len))) => tree.get(&path).and_then(|bytes| {
                bytes.get(offset as usize..(offset + len) as usize).map(|b| b.to_vec())
            }),
            _ => None,
        };
        Source { stored: self.payloads.get(hash).cloned(), tree }
    }

    fn sources(&self, list: &[ContentHash]) -> Vec<Source> {
        list.iter().map(|h| self.source(h)).collect()
    }

    fn read_file(&self, path: &str) -> Result<Vec<u8>, Error> {
        let from = match self.db.file_chunks(path) {
            Some((list, _)) => self.sources(&list),
            None => Vec::new(),
        };
        self.db.read_file(&self.key, path, &from)
    }

    fn chunks_of(&self, path: &str) -> Vec<ContentHash> {
        self.db.chunk_hashes_for(self.db.file_by_path(path).unwrap().id)
    }

    fn delete_file(&mut self, path: &str) -> Result<(), Error> {
        let disk = self.disk(path);
        self.db.delete_file(path, &disk, self.now)
    }

    fn restore_file(&mut self, path: &str) -> Result<(), Error> {
        self.db.restore_file(path, self.now)
    }

    fn list(&self) -> Vec<String> {
        self.db.live_paths()
    }

    fn gc(&mut self, retention: u64) -> GcStats {
        let (stats, gone) = collect(&mut self.db, retention, self.now);
        for hash in gone {
            self.payloads.remove(&hash);
        }
        stats
    }

    fn sweep_orphans(&mut self) -> GcStats {
        let found: Vec<OnDisk> = self
            .payloads
            .iter()
            .map(|(hash, bytes)| OnDisk { hash: *hash, size: bytes.len() as u64 })
            .collect();
        let (stats, gone) = sweep_orphans(&self.db, &found);
        for hash in gone {
            self.payloads.remove(&hash);
        }
        stats
    }

    fn verify(&self, deep: bool) -> Result<VerifyReport, Error> {
        let known: Vec<ContentHash> = self.db.chunks.iter().map(|c| c.hash).collect();
        let found: Vec<ContentHash> = self.payloads.keys().copied().collect();
        Ok(self.db.verify(&self.key, deep, &self.sources(&known), &found))
    }
}

fn hash_of(data: &[u8]) -> ContentHash {
    *blake3::hash(data).as_bytes()
}

/// Deterministic pseudo-random bytes: incompressible, so chunk counts are
/// driven by the chunker rather than by zstd, and reproducible across runs.
fn data(seed: u32, len: usize) -> Vec<u8> {
    let mut out = Vec::with_capacity(len);
    let mut x = seed.wrapping_mul(2654435761).wrapping_add(1);
    for _ in 0..len {
        x ^= x << 13;
        x ^= x >> 17;
        x ^= x << 5;
        out.push(x as u8);
    }
    out
}

// -- basics ------------------------------------------------------------------

#[test]
fn round_trip_preserves_bytes() {
    let mut s = store();
    let content = data(1, 3 << 20);

    let stats = s.put_bytes("a.bin", &content, 0).unwrap();
    assert!(stats.chunks_total > 1, "3 MiB should span several chunks");
    assert_eq!(stats.chunks_written, stats.chunks_total);

    assert_eq!(s.read_file("a.bin").unwrap(), content);
    assert!(s.verify(true).unwrap().is_healthy());
}

#[test]
fn empty_file_round_trips() {
    let mut s = store();
    s.put_bytes("empty", b"", 0).unwrap();
    assert_eq!(s.read_file("empty").unwrap(), Vec::<u8>::new());
}

#[test]
fn storing_identical_content_twice_writes_no_new_payloads() {
    let mut s = store();
    let content = data(2, 2 << 20);

    let first = s.put_bytes("one.bin", &content, 0).unwrap();
    let second = s.put_bytes("two.bin", &content, 0).unwrap();

    assert!(first.chunks_written > 0);
    assert_eq!(second.chunks_written, 0, "every chunk was already held");
    assert_eq!(second.bytes_written, 0);
    assert_eq!(s.read_file("two.bin").unwrap(), content);
}

#[test]
fn rewriting_the_same_path_with_the_same_content_is_a_no_op() {
    let mut s = store();
    let content = data(3, 1 << 20);
    s.put_bytes("x.bin", &content, 100).unwrap();

    let again = s.put_bytes("x.bin", &content, 200).unwrap();
    assert!(again.unchanged);
    assert_eq!(again.chunks_written, 0);
}

#[test]
fn payload_on_disk_is_not_the_plaintext() {
    // Encryption at rest is the point; a regression here would be silent.
    let mut s = store();
    let needle = b"CANARY-c0ffee-SECRET";
    let mut content = data(4, 512 << 10);
    content[1000..1000 + needle.len()].copy_from_slice(needle);
    s.put_bytes("secret.bin", &content, 0).unwrap();

    let mut found = false;
    for bytes in s.payloads.values() {
        if bytes.windows(needle.len()).any(|w| w == needle) {
            found = true;
        }
    }
    assert!(!found, "plaintext must never appear in the chunk store");
}

// -- reference counting ------------------------------------------------------

#[test]
fn refcounts_track_shared_chunks() {
    let mut s = store();
    let content = data(5, 2 << 20);

    s.put_bytes("a.bin", &content, 0).unwrap();
    let hashes = s.chunks_of("a.bin");
    for h in &hashes {
        assert_eq!(s.db().chunk(h).unwrap().refcount, 1);
    }

    s.put_bytes("b.bin", &content, 0).unwrap();
    for h in &hashes {
        assert_eq!(s.db().chunk(h).unwrap().refcount, 2, "shared by two files");
    }

    assert!(s.db().audit_refcounts().is_empty());
}

#[test]
fn refcounts_survive_many_mixed_operations() {
    // The triggers should make drift impossible. This asserts it across a
    // workload that overwrites, deletes, restores and re-adds.
    let mut s = store();

    for round in 0..6u32 {
        for i in 0..5u32 {
            let path = format!("f{i}.bin");
            s.put_bytes(&path, &data(round * 10 + i, 400 << 10), 0).unwrap();
        }
        s.delete_file("f1.bin").unwrap();
        s.restore_file("f1.bin").unwrap();
        s.delete_file("f2.bin").unwrap();
        s.put_bytes("f2.bin", &data(round, 300 << 10), 0).unwrap();
    }

    let drift = s.db().audit_refcounts();
    assert!(drift.is_empty(), "reference counts drifted: {drift:?}");
    assert!(s.verify(true).unwrap().is_healthy());
}

#[test]
fn a_file_repeating_a_chunk_internally_stores_it_once() {
    // The repeated region has to span several chunks for this to show anything.
    // After a repeat begins, the chunker needs a chunk or two to resynchronise
    // its boundaries with the earlier copy; below about 2 MiB the whole file is
    // too few chunks for that to happen at all, and nothing dedups.
    let mut s = store();
    let block = data(6, 8 << 20);
    let mut content = block.clone();
    content.extend_from_slice(&block);

    let stats = s.put_bytes("doubled.bin", &content, 0).unwrap();
    assert!(
        stats.bytes_deduplicated > (6 << 20),
        "most of the repeated 8 MiB should dedup, got {}",
        stats.bytes_deduplicated
    );
    assert_eq!(s.read_file("doubled.bin").unwrap(), content);
    assert!(s.db().audit_refcounts().is_empty());
}

// -- deletion and retention --------------------------------------------------

#[test]
fn delete_is_a_tombstone_and_is_reversible() {
    let mut s = store();
    let content = data(7, 1 << 20);
    s.put_bytes("gone.bin", &content, 0).unwrap();

    s.delete_file("gone.bin").unwrap();
    assert!(s.read_file("gone.bin").is_err(), "a deleted file must not read back");
    assert!(!s.list().contains(&"gone.bin".to_string()));

    s.restore_file("gone.bin").unwrap();
    assert_eq!(s.read_file("gone.bin").unwrap(), content, "content survived the tombstone");
}

#[test]
fn gc_within_the_retention_window_reclaims_nothing() {
    let mut s = store();
    s.put_bytes("keep.bin", &data(8, 1 << 20), 0).unwrap();
    s.delete_file("keep.bin").unwrap();

    let stats = s.gc(HOUR);
    assert_eq!(stats.tombstones_expired, 0);
    assert_eq!(stats.chunks_removed, 0);

    s.restore_file("keep.bin").unwrap();
    assert!(s.verify(true).unwrap().is_healthy());
}

#[test]
fn gc_past_retention_reclaims_the_chunks() {
    let mut s = store();
    let content = data(9, 2 << 20);
    s.put_bytes("temp.bin", &content, 0).unwrap();
    let before = s.db().chunk_count();
    assert!(before > 0);

    s.delete_file("temp.bin").unwrap();

    // With a zero window both stages fire in one pass: stage 1 expires the
    // tombstone and releases the references, and stage 2's cutoff is late
    // enough to collect what stage 1 just released. A non-zero window would
    // split this across two passes.
    let stats = s.gc(NOW);
    assert_eq!(stats.tombstones_expired, 1);
    assert_eq!(stats.chunks_removed, before);
    assert!(stats.bytes_reclaimed > 0);

    assert_eq!(s.db().chunk_count(), 0);
    assert!(s.payloads.is_empty(), "payloads must be gone from disk too");
    assert!(s.db().audit_refcounts().is_empty());
    assert!(s.verify(true).unwrap().is_healthy());
}

/// The test this whole module exists for.
#[test]
fn gc_never_removes_a_chunk_a_live_file_still_needs() {
    let mut s = store();
    let shared = data(10, 3 << 20);

    s.put_bytes("keeper.bin", &shared, 0).unwrap();
    s.put_bytes("doomed.bin", &shared, 0).unwrap();

    s.delete_file("doomed.bin").unwrap();
    for _ in 0..3 {
        s.gc(NOW);
    }

    // Every chunk is still referenced by keeper.bin, so nothing may have gone.
    assert_eq!(
        s.read_file("keeper.bin").unwrap(),
        shared,
        "collecting a deleted file destroyed a live file's data"
    );
    let report = s.verify(true).unwrap();
    assert!(report.is_healthy(), "{report:?}");
    assert!(report.missing.is_empty());
    assert!(s.db().audit_refcounts().is_empty());
}

#[test]
fn overwriting_a_file_releases_only_the_chunks_it_stops_using() {
    let mut s = store();

    // v2 shares its beginning with v1, so content-defined chunking should leave
    // the early chunks in place and release only the tail.
    let v1 = data(11, 4 << 20);
    let mut v2 = v1[..3 << 20].to_vec();
    v2.extend_from_slice(&data(12, 1 << 20));

    s.put_bytes("doc.bin", &v1, 0).unwrap();
    let v1_chunks = s.chunks_of("doc.bin");

    s.put_bytes("doc.bin", &v2, 1).unwrap();
    let v2_chunks = s.chunks_of("doc.bin");

    let shared = v1_chunks.iter().filter(|h| v2_chunks.contains(h)).count();
    assert!(shared > 0, "a shared prefix should produce shared chunks");

    // Chunks only v1 used are now unreferenced but still within retention.
    for h in v1_chunks.iter().filter(|h| !v2_chunks.contains(h)) {
        let row = s.db().chunk(h).unwrap();
        assert_eq!(row.refcount, 0);
        assert!(row.unreferenced_at.is_some(), "the retention clock must be running");
    }
    // Chunks both versions use must not have been released.
    for h in v1_chunks.iter().filter(|h| v2_chunks.contains(h)) {
        assert!(s.db().chunk(h).unwrap().refcount > 0);
    }

    assert_eq!(s.read_file("doc.bin").unwrap(), v2);
    assert!(s.db().audit_refcounts().is_empty());
}

#[test]
fn superseded_chunks_are_reclaimed_once_retention_passes() {
    let mut s = store();
    s.put_bytes("doc.bin", &data(13, 2 << 20), 0).unwrap();
    s.put_bytes("doc.bin", &data(14, 2 << 20), 1).unwrap();

    let before = s.db().chunk_count();
    let stats = s.gc(NOW);
    assert!(stats.chunks_removed > 0, "the previous version's chunks should go");
    assert!(s.db().chunk_count() < before);
    assert!(s.verify(true).unwrap().is_healthy(), "the live version must be intact");
}

// -- verification ------------------------------------------------------------

#[test]
fn verify_detects_a_missing_chunk() {
    let mut s = store();
    s.put_bytes("a.bin", &data(15, 1 << 20), 0).unwrap();

    let victim = s.chunks_of("a.bin")[0];
    s.payloads.remove(&victim);

    let report = s.verify(false).unwrap();
    assert!(!report.is_healthy());
    assert_eq!(report.missing, vec![victim]);
    assert!(s.read_file("a.bin").is_err());
}

#[test]
fn verify_detects_a_corrupted_chunk() {
    let mut s = store();
    s.put_bytes("a.bin", &data(16, 1 << 20), 0).unwrap();

    let victim = s.chunks_of("a.bin")[0];

    // Flip a bit in the stored payload, as a failing disk would.
    let bytes = s.payloads.get_mut(&victim).unwrap();
    let last = bytes.len() - 1;
    bytes[last] ^= 0xFF;

    let shallow = s.verify(false).unwrap();
    assert!(shallow.is_healthy(), "a shallow pass only checks presence");

    let deep = s.verify(true).unwrap();
    assert_eq!(deep.corrupt, vec![victim]);
    assert!(!deep.is_healthy());
}

/// Whatever is wrong with a payload, the check lists it and goes on.
#[test]
fn verify_lists_every_damaged_payload() {
    let mut s = store();
    for (i, path) in ["a", "b", "c", "d", "e"].iter().enumerate() {
        s.put_bytes(path, &data(60 + i as u32, 1000), 0).unwrap();
    }
    let chunk = |s: &Store, path: &str| s.chunks_of(path)[0];
    let (short, magic, version, nothing) =
        (chunk(&s, "a"), chunk(&s, "b"), chunk(&s, "c"), chunk(&s, "d"));
    s.payloads.get_mut(&short).unwrap().truncate(31);
    s.payloads.get_mut(&magic).unwrap()[0] = b'x';
    s.payloads.get_mut(&version).unwrap()[4] = 9;
    s.payloads.get_mut(&nothing).unwrap().clear();
    let mut corrupt = s.verify(true).unwrap().corrupt;
    corrupt.sort();
    let mut expected = vec![short, magic, version, nothing];
    expected.sort();
    assert_eq!(corrupt, expected);
    assert!(s.verify(false).unwrap().is_healthy());
}

/// A write leaves the other files as they read, and its account adds up.
#[test]
fn a_write_leaves_the_other_files_alone() {
    let mut s = store();
    let (first, second) = (data(70, 300_000), data(71, 300_000));
    s.put_bytes("a", &first, 0).unwrap();
    let stats = s.put_bytes("b", &second, 0).unwrap();
    assert_eq!(s.read_file("a").unwrap(), first);
    assert_eq!(s.read_file("b").unwrap(), second);
    assert_eq!(stats.bytes_deduplicated, 0);
    let again = s.put_bytes("c", &second, 0).unwrap();
    assert_eq!((again.chunks_written, again.bytes_deduplicated), (0, 300_000));
    assert!(!again.unchanged);
    assert!(s.put_bytes("c", &second, 1).unwrap().unchanged);
    assert_eq!(s.read_file("c").unwrap(), second);
}

/// Deleted and restored, the file is there as it was, and later than before.
#[test]
fn a_restored_file_comes_after_its_deletion() {
    let mut s = store();
    s.put_bytes("a", b"content", 0).unwrap();
    let before = s.db().file_by_path("a").unwrap().vector.clone();
    s.delete_file("a").unwrap();
    assert!(matches!(s.read_file("a"), Err(Error::NotFound { .. })));
    assert!(s.list().is_empty());
    let tombstone = s.db().version("a").unwrap().vector.clone();
    s.restore_file("a").unwrap();
    assert_eq!(s.read_file("a").unwrap(), b"content");
    assert_eq!(s.list(), vec!["a"]);
    let after = s.db().file_by_path("a").unwrap().vector.clone();
    assert_eq!(after.compare(&before), Causality::After);
    assert_eq!(after.compare(&tombstone), Causality::After);
    assert!(matches!(s.restore_file("a"), Err(Error::NotFound { .. })));
    assert!(matches!(s.restore_file("never"), Err(Error::NotFound { .. })));
    assert_eq!(s.list(), vec!["a"]);
}

#[test]
fn content_is_found_by_the_number_of_its_file() {
    let mut s = store();
    s.put_bytes("a", b"one", 0).unwrap();
    s.put_bytes("b", b"two", 0).unwrap();
    s.put_bytes("c", b"two", 0).unwrap();
    let id = |s: &Store, p: &str| s.db().file_by_path(p).map(|f| f.id);
    assert_eq!(s.db().any_file_with_content(&hash_of(b"two")), id(&s, "b"));
    s.delete_file("b").unwrap();
    assert_eq!(s.db().any_file_with_content(&hash_of(b"two")), id(&s, "c"));
    assert_eq!(s.db().any_file_with_content(&hash_of(b"three")), None);
}

#[test]
fn orphaned_payloads_are_found_and_swept() {
    let mut s = store();
    s.put_bytes("a.bin", &data(17, 1 << 20), 0).unwrap();

    // A payload written by an interrupted put, before the index knew about it.
    let orphan = hash_of(b"never indexed");
    s.payloads.insert(orphan, b"junk payload".to_vec());

    let report = s.verify(false).unwrap();
    assert_eq!(report.orphaned, vec![orphan]);
    assert!(report.is_healthy(), "an orphan wastes space but is not corruption");

    let stats = s.sweep_orphans();
    assert_eq!(stats.chunks_removed, 1);
    assert!(s.verify(true).unwrap().orphaned.is_empty());
    assert_eq!(s.read_file("a.bin").unwrap(), data(17, 1 << 20), "the live file is untouched");
}

// -- keys --------------------------------------------------------------------

#[test]
fn the_wrong_key_cannot_read_a_store() {
    let mut s = Store::open(ChunkKey::from_bytes([1u8; 32]));
    s.put_bytes("a.bin", &data(19, 512 << 10), 0).unwrap();
    s.key = ChunkKey::from_bytes([2u8; 32]);
    assert!(s.read_file("a.bin").is_err());
}

// -- prefix queries ----------------------------------------------------------

#[test]
fn live_paths_under_resolves_a_directory_removal() {
    let mut s = store();
    for path in ["docs/a.txt", "docs/sub/b.txt", "docs.txt", "docstring.md", "other/c.txt"] {
        s.put_bytes(path, b"content", 0).unwrap();
    }

    let under = s.db().live_paths_under("docs");
    assert_eq!(under, vec!["docs/a.txt", "docs/sub/b.txt"]);
}

#[test]
fn live_paths_under_matches_an_exact_file() {
    let mut s = store();
    s.put_bytes("notes.txt", b"x", 0).unwrap();
    assert_eq!(s.db().live_paths_under("notes.txt"), vec!["notes.txt"]);
}

#[test]
fn live_paths_under_treats_wildcards_literally() {
    // A directory named "100%" must not behave as a LIKE pattern.
    let mut s = store();
    s.put_bytes("100%/real.txt", b"x", 0).unwrap();
    s.put_bytes("100x/other.txt", b"x", 0).unwrap();
    s.put_bytes("a_b/under.txt", b"x", 0).unwrap();
    s.put_bytes("axb/decoy.txt", b"x", 0).unwrap();

    assert_eq!(s.db().live_paths_under("100%"), vec!["100%/real.txt"]);
    assert_eq!(s.db().live_paths_under("a_b"), vec!["a_b/under.txt"]);
}

#[test]
fn live_paths_under_excludes_deleted_files() {
    let mut s = store();
    s.put_bytes("d/keep.txt", b"x", 0).unwrap();
    s.put_bytes("d/gone.txt", b"x", 0).unwrap();
    s.delete_file("d/gone.txt").unwrap();

    assert_eq!(s.db().live_paths_under("d"), vec!["d/keep.txt"]);
}

#[test]
fn rewriting_content_that_collection_just_removed_succeeds() {
    // The race, forced rather than waited for. Content is written, deleted, and
    // collected, so its chunks are gone from both the index and the disk, and
    // then the identical content is written again. A writer that trusted a
    // stale check would reference chunks that no longer exist.
    let mut store = store();

    let content = data(7, 512 << 10);
    for round in 0..5 {
        store.put_bytes("recreated.bin", &content, round).unwrap();
        store.delete_file("recreated.bin").unwrap();
        store.gc(NOW);
        store.gc(NOW);

        // Everything is gone, including the payloads.
        assert_eq!(store.db().chunk_count(), 0, "round {round}: collection left chunks");

        store.put_bytes("recreated.bin", &content, round + 1).unwrap();
        assert_eq!(store.read_file("recreated.bin").unwrap(), content, "round {round}");
        assert!(store.verify(true).unwrap().is_healthy(), "round {round}");
    }
}

// -- adopting ----------------------------------------------------------------

fn vector(pairs: &[(u8, u64)]) -> VersionVector {
    let mut v = VersionVector::new();
    for (d, n) in pairs {
        v.set(DeviceId::from_bytes([*d; 32]), *n);
    }
    v
}

#[test]
fn an_adopted_version_keeps_its_history() {
    let mut s = store();
    let them = DeviceId::from_bytes([7; 32]);
    let content = data(20, 100_000);
    let version = FileVersion::file(
        "theirs.txt",
        hash_of(&content),
        content.len() as u64,
        vector(&[(7, 3)]),
        them,
        1234,
    );
    let disk = s.disk("theirs.txt");
    let (stats, sealed) =
        s.db.adopt(&s.key, &version, Some(&content), 0, &disk, s.now).unwrap();
    assert_eq!(stats.chunks_written, sealed.len());
    for payload in sealed {
        s.payloads.insert(payload.hash, payload.bytes);
    }
    assert_eq!(s.db().version("theirs.txt"), Some(version));
    assert_eq!(s.db().counter, 0, "adopting is not a change made here");
    assert_eq!(s.read_file("theirs.txt").unwrap(), content);
}

#[test]
fn adopting_content_needs_the_content() {
    let mut s = store();
    let them = DeviceId::from_bytes([7; 32]);
    let version = FileVersion::file("x", [1; 32], 5, vector(&[(7, 1)]), them, 1);
    let disk = s.disk("x");
    match s.db.adopt(&s.key, &version, None, 0, &disk, s.now) {
        Err(e) => assert_eq!(e, Error::NotFound { path: "x (no content supplied)".to_string() }),
        Ok(_) => panic!("adopted nothing"),
    }
}

#[test]
fn a_tombstone_for_an_unknown_path_is_recorded() {
    let mut s = store();
    let them = DeviceId::from_bytes([7; 32]);
    let gone = FileVersion::tombstone("never-seen", vector(&[(7, 4)]), them, 99);
    let disk = s.disk("never-seen");
    s.db.adopt(&s.key, &gone, None, 0, &disk, s.now).unwrap();
    assert_eq!(s.db().version("never-seen"), Some(gone));
    assert!(s.list().is_empty());
}

#[test]
fn merging_a_version_moves_no_content() {
    let mut s = store();
    s.put_bytes("a", b"same", 0).unwrap();
    let mut version = s.db().version("a").unwrap();
    version.vector.merge(&vector(&[(7, 2)]));
    version.modified_at = 5;
    s.db.merge_version(&version);
    assert_eq!(s.db().version("a"), Some(version));
    assert_eq!(s.read_file("a").unwrap(), b"same");
}

#[test]
fn a_local_change_comes_after_the_last() {
    let mut s = store();
    s.put_bytes("a", b"one", 0).unwrap();
    let first = s.db().version("a").unwrap().vector;
    s.put_bytes("a", b"one", 9).unwrap();
    assert_eq!(s.db().version("a").unwrap().vector, first, "nothing changed");
    s.put_bytes("a", b"two", 0).unwrap();
    let second = s.db().version("a").unwrap().vector;
    assert_eq!(second.compare(&first), Causality::After);
    s.delete_file("a").unwrap();
    let third = s.db().version("a").unwrap();
    assert!(third.is_deleted());
    assert_eq!(third.vector.compare(&second), Causality::After);
}

#[test]
fn deleting_or_restoring_what_is_not_there_is_refused() {
    let mut s = store();
    let missing = Error::NotFound { path: "no".to_string() };
    assert_eq!(s.delete_file("no"), Err(missing.clone()));
    assert_eq!(s.restore_file("no"), Err(missing.clone()));
    assert_eq!(s.read_file("no"), Err(missing));
    s.put_bytes("yes", b"x", 0).unwrap();
    s.delete_file("yes").unwrap();
    assert!(s.delete_file("yes").is_err(), "deleted twice");
}

#[test]
fn a_damaged_payload_is_written_again_for_repair() {
    let mut s = store();
    let content = data(21, 300_000);
    s.put_bytes("a", &content, 0).unwrap();
    let version = s.db().version("a").unwrap();
    s.payloads.clear();
    assert!(s.read_file("a").is_err());
    let disk = s.disk("a");
    let (stats, sealed) =
        s.db.rewrite_payloads(&s.key, &version, &content, 0, &disk, s.now).unwrap();
    assert!(!stats.unchanged);
    for payload in sealed {
        s.payloads.insert(payload.hash, payload.bytes);
    }
    assert_eq!(s.read_file("a").unwrap(), content);
    assert!(s.db().audit_refcounts().is_empty());
}

#[test]
fn a_payload_under_the_wrong_name_is_not_taken_for_the_chunk() {
    let mut s = store();
    s.put_bytes("a", b"first", 0).unwrap();
    s.put_bytes("b", b"other", 0).unwrap();
    let (x, y) = (s.chunks_of("a")[0], s.chunks_of("b")[0]);
    let swapped = s.payloads[&y].clone();
    s.payloads.insert(x, swapped);
    let name: String = x.iter().map(|b| format!("{b:02x}")).collect();
    assert_eq!(s.read_file("a"), Err(Error::ChunkCorrupt { hash: name.clone() }));
    s.payloads.remove(&x);
    assert_eq!(s.read_file("a"), Err(Error::ChunkMissing { hash: name }));
}

#[test]
fn paths_that_differ_in_case_only_are_found() {
    let mut s = store();
    s.put_bytes("Docs/Read.me", b"x", 0).unwrap();
    assert_eq!(s.db().live_path_colliding_with("docs/read.ME").as_deref(), Some("Docs/Read.me"));
    assert_eq!(s.db().live_path_colliding_with("Docs/Read.me"), None);
    assert_eq!(s.db().live_path_colliding_with("docs/read"), None);
}

#[test]
fn what_would_be_damaged_by_a_lost_chunk_is_named() {
    let mut s = store();
    s.put_bytes("b", b"shared", 0).unwrap();
    s.put_bytes("a", b"shared", 0).unwrap();
    s.put_bytes("c", b"not shared", 0).unwrap();
    let chunk = s.chunks_of("a")[0];
    assert_eq!(s.db().live_paths_using_chunk(&chunk), vec!["a", "b"]);
    assert_eq!(s.db().live_path_with_content(&hash_of(b"not shared")).as_deref(), Some("c"));
    s.delete_file("c").unwrap();
    assert_eq!(s.db().live_path_with_content(&hash_of(b"not shared")), None);
    assert_eq!(s.db().any_path_with_content(&hash_of(b"not shared")).as_deref(), Some("c"));
    assert_eq!(s.db().size_totals().0, 16);
    assert_eq!(s.db().live_bytes(), 12);
}

#[test]
fn a_directory_of_another_case_is_another_directory() {
    let mut s = store();
    s.put_bytes("docs/a", b"x", 0).unwrap();
    s.put_bytes("DOCS/b", b"x", 0).unwrap();
    assert_eq!(s.db().live_paths_under("docs/"), vec!["docs/a"]);
    assert_eq!(s.db().live_paths_under("DOCS"), vec!["DOCS/b"]);
}

#[test]
fn rows_are_read_back_from_their_stored_form() {
    assert_eq!(to_hash(&[3; 32]), [3; 32]);
    assert_eq!(to_device(&[3; 32]), Some(DeviceId::from_bytes([3; 32])));
    assert_eq!(to_device(&[3; 31]), None);
    let v = vector(&[(1, 2), (5, 6)]);
    assert_eq!(to_vector(&v.encode()), v);
    assert_eq!(to_vector(&[1, 2, 3]), VersionVector::new());
}
