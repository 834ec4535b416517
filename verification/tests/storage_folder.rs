use qurb::storage::activity::Event;
use qurb::storage::chunker::ContentHash;
use qurb::storage::db::Db;
use qurb::storage::error::Error;
use qurb::storage::gc::GcStats;
use qurb::storage::health::VerifyReport;
use qurb::storage::reading::{read_chunk, Source};
use qurb::storage::sealing::ChunkKey;
use qurb::storage::store::{Disk, PutStats};
use qurb::storage::vault::Audience;
use qurb::sync::device::DeviceId;
use std::collections::HashMap;

/// A store whose payloads and folder are held in memory.
struct Store {
    db: Db,
    key: ChunkKey,
    payloads: HashMap<ContentHash, Vec<u8>>,
    tree: Option<HashMap<String, Vec<u8>>>,
    now: i64,
}

impl Store {
    fn open(key: ChunkKey) -> Self {
        Store {
            db: Db::new(DeviceId::from_bytes([0xD0; 32])),
            key,
            payloads: HashMap::new(),
            tree: None,
            now: 1_757_462_400,
        }
    }

    fn db(&self) -> &Db {
        &self.db
    }

    fn disk(&self, path: &str) -> Disk {
        Disk {
            has_tree: self.tree.is_some(),
            in_tree: self.tree.as_ref().map(|t| t.contains_key(path)).unwrap_or(false),
            held: self.payloads.keys().copied().collect(),
        }
    }

    fn put_bytes(&mut self, path: &str, data: &[u8], mtime_ns: i64) -> Result<PutStats, Error> {
        let disk = self.disk(path);
        let (stats, sealed) =
            self.db.put_bytes(&self.key, path, data, mtime_ns, &disk, self.now)?;
        for payload in sealed {
            self.payloads.entry(payload.hash).or_insert(payload.bytes);
        }
        Ok(stats)
    }

    fn source(&self, hash: &ContentHash) -> Source {
        let tree = match (&self.tree, self.db.locate_chunk(hash)) {
            (Some(tree), Some((path, offset, len))) => tree.get(&path).and_then(|bytes| {
                bytes.get(offset as usize..(offset + len) as usize).map(|b| b.to_vec())
            }),
            _ => None,
        };
        Source { stored: self.payloads.get(hash).cloned(), tree }
    }

    fn sources(&self, list: &[ContentHash]) -> Vec<Source> {
        list.iter().map(|h| self.source(h)).collect()
    }

    fn read_file(&self, path: &str) -> Result<Vec<u8>, Error> {
        let from = match self.db.file_chunks(path) {
            Some((list, _)) => self.sources(&list),
            None => Vec::new(),
        };
        self.db.read_file(&self.key, path, &from)
    }

    fn delete_file(&mut self, path: &str) -> Result<(), Error> {
        let disk = self.disk(path);
        self.db.delete_file(path, &disk, self.now)
    }

    fn list(&self) -> Vec<String> {
        self.db.live_paths()
    }

    fn verify(&self, deep: bool) -> Result<VerifyReport, Error> {
        let known: Vec<ContentHash> = self.db.chunks.iter().map(|c| c.hash).collect();
        let found: Vec<ContentHash> = self.payloads.keys().copied().collect();
        Ok(self.db.verify(&self.key, deep, &self.sources(&known), &found))
    }

    fn in_tree(mut self) -> Self {
        self.tree = Some(HashMap::new());
        self
    }

    fn read_content(&self, content: &ContentHash) -> Result<Option<Vec<u8>>, Error> {
        let from = match self.db.chunk_hashes_for_content(content) {
            Some(list) => self.sources(&list),
            None => Vec::new(),
        };
        self.db.read_content(&self.key, content, &from)
    }

    fn read_chunk(&self, hash: &ContentHash) -> Result<Vec<u8>, Error> {
        read_chunk(&self.key, hash, &self.source(hash))
    }

    fn has_chunk(&self, hash: &ContentHash) -> bool {
        self.db.can_produce(hash, &self.source(hash))
    }

    fn reclaim(&mut self) -> GcStats {
        let mut total = GcStats::default();
        let held: Vec<ContentHash> = self.payloads.keys().copied().collect();
        for hash in held {
            let size = self.payloads[&hash].len() as u64;
            let tree = self.source(&hash).tree;
            let stats = self.db.reclaim(self.tree.is_some(), &hash, size, &tree);
            if stats.chunks_removed > 0 {
                self.payloads.remove(&hash);
            }
            total.chunks_removed += stats.chunks_removed;
            total.bytes_reclaimed += stats.bytes_reclaimed;
        }
        total
    }

    fn evict(&mut self, path: &str) -> Result<u64, Error> {
        self.db.evict(path, self.tree.is_some())?;
        let freed = self.tree.as_mut().and_then(|t| t.remove(path)).map(|b| b.len() as u64);
        Ok(freed.unwrap_or(0))
    }

    /// Write a file into the folder, if there is one, and index it.
    fn put_file(&mut self, path: &str, data: &[u8]) -> PutStats {
        self.write(path, data);
        self.put_bytes(path, data, 0).unwrap()
    }

    fn write(&mut self, path: &str, data: &[u8]) {
        if let Some(tree) = &mut self.tree {
            tree.insert(path.to_string(), data.to_vec());
        }
    }

    fn has_file(&self, path: &str) -> bool {
        self.tree.as_ref().unwrap().contains_key(path)
    }

    fn note_replica(&mut self, content: &ContentHash, device: u8) {
        self.db.note_replica(content, &DeviceId::from_bytes([device; 32]), self.now);
    }

    fn send_to_vault(&mut self, path: &str, data: &[u8], to: &DeviceId) -> PutStats {
        let held: Vec<ContentHash> = self.payloads.keys().copied().collect();
        let (stats, sealed) =
            self.db.send_to_vault(&self.key, path, data, 0, to, &held, self.now).unwrap();
        for payload in sealed {
            self.payloads.entry(payload.hash).or_insert(payload.bytes);
        }
        stats
    }

    fn note_replica_in_vault(&mut self, content: &ContentHash, device: &DeviceId) {
        self.db.note_replica_in_vault(content, device, self.now);
    }

    fn release_held_payloads(&mut self) -> GcStats {
        let mut total = GcStats::default();
        let held: Vec<ContentHash> = self.payloads.keys().copied().collect();
        for hash in held {
            let size = self.payloads[&hash].len() as u64;
            let stats = self.db.release_held(&hash, size);
            if stats.chunks_removed > 0 {
                self.payloads.remove(&hash);
            }
            total.chunks_removed += stats.chunks_removed;
            total.bytes_reclaimed += stats.bytes_reclaimed;
        }
        total
    }

    fn chunk_bytes_on_disk(&self) -> u64 {
        self.payloads.values().map(|b| b.len() as u64).sum()
    }
}

fn hash_of(data: &[u8]) -> ContentHash {
    *blake3::hash(data).as_bytes()
}

fn store(key: u8) -> Store {
    Store::open(ChunkKey::from_bytes([key; 32]))
}

/// Incompressible, so nothing here is explained away by compression.
fn noisy(size: usize) -> Vec<u8> {
    seeded(size, 0x9e37_79b9)
}

/// The same, from a chosen seed. Two lengths of the default stream share a
/// prefix and therefore share their leading chunks, which is not what a test
/// about *changed* content wants.
fn seeded(size: usize, seed: u32) -> Vec<u8> {
    let mut out = vec![0u8; size];
    let mut x: u32 = seed;
    for byte in out.iter_mut() {
        x ^= x << 13;
        x ^= x >> 17;
        x ^= x << 5;
        *byte = x as u8;
    }
    out
}

/// The headline. A file in the tree costs its own size and no more.
#[test]
fn a_materialised_file_is_not_stored_twice() {
    let data = noisy(4 * 1024 * 1024);
    let mut store = store(3).in_tree();
    store.put_file("video.bin", &data);

    let on_disk = store.chunk_bytes_on_disk();
    assert!(
        on_disk < data.len() as u64 / 10,
        "the chunk store holds {on_disk} bytes for a {} byte file it need not copy",
        data.len()
    );
}

/// And the content must still be readable, from the file, through the same
/// call everything else uses.
#[test]
fn the_content_is_still_readable_chunk_by_chunk() {
    let data = noisy(3 * 1024 * 1024);
    let mut store = store(4).in_tree();
    store.put_file("doc.bin", &data);

    // Establish first that there is nothing to read *but* the tree. Without
    // this the assertion below passes just as well on a store that kept a
    // second copy, and proves nothing about where the bytes came from.
    let on_disk = store.chunk_bytes_on_disk();
    assert!(on_disk < data.len() as u64 / 10, "the chunk store still holds {on_disk} bytes");

    // read_file walks the manifest and reads every chunk, so this exercises
    // the tree fallback for each one and checks the whole-file hash at the end.
    assert_eq!(store.read_file("doc.bin").unwrap(), data);
}

/// A store with no tree keeps every payload, because nothing else has them.
/// This is what a storage-only replica is.
#[test]
fn without_a_tree_every_payload_is_kept() {
    let data = noisy(2 * 1024 * 1024);
    let mut store = store(5);
    store.put_file("elsewhere.bin", &data);

    let on_disk = store.chunk_bytes_on_disk();
    assert!(
        on_disk > data.len() as u64 / 2,
        "a replica must keep its payloads; it holds only {on_disk} bytes"
    );
    assert_eq!(store.read_file("elsewhere.bin").unwrap(), data);
}

/// A source outside the tree must still be copied in full. Skipping the write
/// because "there is a tree" would lose content the tree does not actually
/// hold, the one way this optimisation could destroy data.
#[test]
fn a_source_outside_the_tree_is_still_stored() {
    let data = noisy(1024 * 1024);
    let mut store = store(6).in_tree();
    // Indexed under a path the tree does *not* have a file at.
    store.put_bytes("outside.bin", &data, 0).unwrap();

    assert!(
        store.chunk_bytes_on_disk() > data.len() as u64 / 2,
        "content the tree does not hold was not stored"
    );
    assert_eq!(store.read_file("outside.bin").unwrap(), data);
}

/// Editing the file makes the old chunks unreadable rather than wrong.
///
/// The bytes a hash names are genuinely gone once the file changes. Returning
/// the new bytes under the old hash would corrupt whatever asked for them, so
/// the read must fail instead.
#[test]
fn an_edited_file_does_not_answer_for_its_old_chunks() {
    let mut store = store(7).in_tree();
    store.put_file("notes.bin", &noisy(1024 * 1024));

    let before = store.db().file_by_path("notes.bin").unwrap().content_hash;

    // Rewrite it with different bytes, without telling the store. A different
    // seed, so not one byte of the old content survives at the front.
    store.write("notes.bin", &seeded(1024 * 1024 + 7, 0x5bf0_3635));

    // Reading the *old* content must fail rather than return the new bytes.
    let hashes = store.db().chunk_hashes_for_content(&before).unwrap();
    let outcome = store.read_chunk(&hashes[0]);
    assert!(outcome.is_err(), "an edited file answered for content it no longer holds");
}

/// An existing store, written before the tree supplied anything, sheds its
/// second copy when asked, and the content stays readable afterwards.
#[test]
fn reclaim_drops_what_the_tree_already_holds() {
    let data = noisy(4 * 1024 * 1024);

    // Indexed with no tree attached: both copies exist.
    let mut store = store(9);
    store.put_file("old.bin", &data);
    let doubled = store.chunk_bytes_on_disk();
    assert!(doubled > data.len() as u64 / 2, "the setup did not store a second copy");

    let mut store = store.in_tree();
    store.write("old.bin", &data);
    let freed = store.reclaim();

    assert!(freed.chunks_removed > 0, "nothing was reclaimed");
    let after = store.chunk_bytes_on_disk();
    assert!(after < data.len() as u64 / 10, "the chunk store still holds {after} bytes");
    assert!(
        freed.bytes_reclaimed >= doubled - after,
        "reported {} freed but {} left the disk",
        freed.bytes_reclaimed,
        doubled - after
    );

    // The point of the exercise: the bytes survived.
    assert_eq!(store.read_file("old.bin").unwrap(), data);
    assert!(store.verify(true).unwrap().is_healthy(), "verify is unhappy after reclaim");
    assert_eq!(store.db().usage(true).chunks, 0);
}

/// A storage-only replica must not reclaim, because nothing else holds the
/// content. This is the guard against `reclaim` deleting the only copy.
#[test]
fn a_replica_with_no_tree_reclaims_nothing() {
    let data = noisy(1024 * 1024);
    let mut store = store(11);
    store.put_file("only.bin", &data);

    let freed = store.reclaim();
    assert_eq!(freed.chunks_removed, 0);
    assert!(store.chunk_bytes_on_disk() > data.len() as u64 / 2);
    assert_eq!(store.read_file("only.bin").unwrap(), data);
}

/// Content already in the folder must be recognised as held.
///
/// The caller that asks this is deciding whether to pull a file over the
/// network. A store that says "no" about content sitting in the folder does
/// not fail visibly: it silently re-transfers files the device already has.
#[test]
fn content_in_the_tree_counts_as_held() {
    let data = noisy(2 * 1024 * 1024);
    let mut store = store(13).in_tree();
    store.put_file("held.bin", &data);

    let hash = hash_of(&data);
    for chunk in store.db().chunk_hashes_for_content(&hash).unwrap() {
        assert!(store.has_chunk(&chunk), "a chunk the folder holds was called absent");
    }

    // And the whole-content read, which is the call that decides whether to
    // fetch, finds it locally.
    let list = store.db().chunk_hashes_for_content(&hash).unwrap();
    let from = store.sources(&list);
    let out = store.db().read_content_into(&store.key, &hash, &from).unwrap();
    assert!(out.is_some(), "content in the folder was not found by hash");
    assert_eq!(out.unwrap(), data);
}

#[test]
fn content_that_is_not_here_is_not_an_error() {
    let mut store = store(14);
    assert_eq!(store.read_content(&[1; 32]), Ok(None));
    let data = noisy(600_000);
    store.put_file("a", &data);
    let hash = hash_of(&data);
    let last = *store.db().chunk_hashes_for_content(&hash).unwrap().last().unwrap();
    store.payloads.remove(&last);
    assert_eq!(store.read_content(&hash), Ok(None), "collected content was not called absent");
    let from = store.sources(&store.db().chunk_hashes_for_content(&hash).unwrap());
    assert_eq!(store.db().read_content_into(&store.key, &hash, &from), Ok(None));
    assert!(!store.has_chunk(&last));
    assert!(!store.has_chunk(&[9; 32]));
}

/// What the folder was holding leaves with the file, and the index does not go
/// on claiming it.
#[test]
fn deleting_a_file_of_the_folder_lets_go_of_its_chunks() {
    let mut store = store(15).in_tree();
    let data = noisy(700_000);
    store.put_file("gone.bin", &data);
    let chunks = store.db().file_by_path("gone.bin").unwrap().chunks;
    store.tree.as_mut().unwrap().remove("gone.bin");
    store.delete_file("gone.bin").unwrap();
    assert!(store.db().file_by_path("gone.bin").unwrap().chunks.is_empty());
    for hash in chunks {
        assert_eq!(store.db().chunk(&hash).unwrap().refcount, 0);
    }
    assert!(store.db().audit_refcounts().is_empty());
    assert!(store.verify(true).unwrap().is_healthy());
}

// -- a limit on space --------------------------------------------------------

fn fixture() -> Store {
    store(21).in_tree()
}

fn written(f: &mut Store, name: &str, size: usize, seed: u32) -> Vec<u8> {
    let data = seeded(size, seed);
    f.put_file(name, &data);
    data
}

/// The refusal that makes the cap safe. Nothing else about it matters if
/// this one does not hold.
#[test]
fn the_only_copy_is_never_dropped() {
    let mut f = fixture();
    written(&mut f, "precious.bin", 512 * 1024, 0x1111_1111);

    let outcome = f.evict("precious.bin");
    assert!(outcome.is_err(), "a file no other device holds was dropped");
    assert!(f.has_file("precious.bin"), "the file was removed despite the refusal");
    assert_eq!(f.db().is_materialised("precious.bin"), Some(true));
}

/// Once another device has taken delivery, the bytes may go.
#[test]
fn content_another_device_holds_can_be_dropped() {
    let mut f = fixture();
    let data = written(&mut f, "holiday.mp4", 512 * 1024, 0x2222_2222);
    let hash = hash_of(&data);
    f.note_replica(&hash, 9);

    let freed = f.evict("holiday.mp4").unwrap();

    assert_eq!(freed, data.len() as u64);
    assert!(!f.has_file("holiday.mp4"), "the bytes are still on disk");
    assert_eq!(f.db().is_materialised("holiday.mp4"), Some(false));
}

/// Evicting frees space rather than merely moving it. With single-copy
/// storage there is no encrypted duplicate left behind to pay for.
#[test]
fn evicting_actually_frees_the_space() {
    let mut f = fixture();
    written(&mut f, "big.bin", 2 * 1024 * 1024, 0x3333_3333);
    let hash = f.db().file_by_path("big.bin").unwrap().content_hash;
    f.note_replica(&hash, 9);

    let before = f.db().usage(true);
    f.evict("big.bin").unwrap();
    let after = f.db().usage(true);

    assert!(before.total() >= 2 * 1024 * 1024, "usage did not account for the file");
    assert!(
        after.total() < before.total() / 10,
        "usage went from {} to {}, which is not freeing",
        before.total(),
        after.total()
    );
}

/// An evicted file is still a file. It keeps its place in the index, its
/// content hash, and its chunk list.
#[test]
fn an_evicted_file_is_still_known() {
    let mut f = fixture();
    let data = written(&mut f, "notes.txt", 256 * 1024, 0x4444_4444);
    let hash = hash_of(&data);
    f.note_replica(&hash, 9);
    f.evict("notes.txt").unwrap();

    assert!(
        f.list().contains(&"notes.txt".to_string()),
        "an evicted file vanished from the listing"
    );
    let row = f.db().file_by_path("notes.txt").unwrap();
    assert!(row.deleted_at.is_none(), "eviction wrote a tombstone");
    assert_eq!(row.content_hash, hash);
    assert!(!f.db().chunk_hashes_for_content(&hash).unwrap().is_empty());
    assert_eq!(f.db().evicted_paths(), vec!["notes.txt".to_string()]);
}

/// An evicted file must not answer for its own content out of the tree. The
/// bytes are gone from this device; a read has to fail so the caller fetches.
#[test]
fn an_evicted_file_does_not_answer_for_its_chunks() {
    let mut f = fixture();
    let data = written(&mut f, "gone.bin", 512 * 1024, 0x5555_5555);
    let hash = hash_of(&data);
    f.note_replica(&hash, 9);

    let chunks = f.db().chunk_hashes_for_content(&hash).unwrap();
    f.evict("gone.bin").unwrap();

    assert!(
        f.read_chunk(&chunks[0]).is_err(),
        "an evicted file answered for content this device no longer holds"
    );
}

/// Candidates come coldest-first, and only content that is safe to drop is
/// offered at all.
#[test]
fn candidates_are_the_cold_ones_that_are_safe() {
    let mut f = fixture();
    let shared = written(&mut f, "shared.bin", 256 * 1024, 0x6666_6666);
    written(&mut f, "alone.bin", 256 * 1024, 0x7777_7777);
    f.note_replica(&hash_of(&shared), 9);

    let candidates = f.db().evictable();
    let names: Vec<_> = candidates.iter().map(|(p, ..)| p.as_str()).collect();

    assert_eq!(names, vec!["shared.bin"], "offered a file no other device holds");
}

/// A storage-only replica holds the only copy of everything it has, so it
/// evicts nothing at all.
#[test]
fn a_replica_evicts_nothing() {
    let data = seeded(256 * 1024, 0x8888_8888);
    let mut store = store(22);
    store.put_file("payload.bin", &data);
    store.note_replica(&hash_of(&data), 9);

    assert!(store.evict("payload.bin").is_err(), "a replica dropped its only copy");
    assert_eq!(store.read_file("payload.bin").unwrap(), data);
}

#[test]
fn the_coldest_goes_first_and_of_those_the_largest() {
    let mut f = fixture();
    for (name, size, at) in [("warm", 10, 30), ("cold-small", 5, 10), ("cold-big", 50, 10)] {
        let data = written(&mut f, name, size, size as u32 + 1);
        f.db.touch(name, at);
        f.note_replica(&hash_of(&data), 9);
    }
    let candidates = f.db().evictable();
    let names: Vec<_> = candidates.iter().map(|(p, ..)| p.as_str()).collect();
    assert_eq!(names, vec!["cold-big", "cold-small", "warm"]);
}

#[test]
fn a_copy_in_a_vault_is_no_reason_to_drop_ours() {
    let mut f = fixture();
    let data = written(&mut f, "mine", 1000, 5);
    let hash = hash_of(&data);
    let them = DeviceId::from_bytes([9; 32]);
    f.db.note_replica_in_vault(&hash, &them, 1);
    assert_eq!(f.db().replica_count(&hash), 0);
    assert_eq!(
        f.evict("mine"),
        Err(Error::CannotEvict {
            path: "mine".to_string(),
            why: "no other device is known to hold this content".to_string(),
        })
    );
    f.db.note_replica(&hash, &them, 2);
    assert_eq!(f.db().replica_count(&hash), 1);
    f.db.note_replica_in_vault(&hash, &them, 3);
    assert_eq!(f.db().replica_count(&hash), 1, "a delivery taught us less than we knew");
    assert!(f.evict("mine").is_ok());
}

#[test]
fn what_was_dropped_can_be_asked_for() {
    let mut f = fixture();
    let data = written(&mut f, "a", 1000, 5);
    f.note_replica(&hash_of(&data), 9);
    f.evict("a").unwrap();
    assert!(f.db().wanted_paths().is_empty());
    assert!(f.db.want("a"));
    assert!(!f.db.want("nothing"));
    assert_eq!(f.db().wanted_paths(), vec!["a"]);
    f.put_file("a", &seeded(1000, 6));
    assert!(f.db().wanted_paths().is_empty(), "it is here again");
}

#[test]
fn deliveries_that_are_still_owed_are_listed() {
    let mut f = fixture();
    f.now = 100;
    let first = written(&mut f, "first", 100, 1);
    f.now = 200;
    written(&mut f, "second", 200, 2);
    let owed: Vec<_> = f.db().undelivered();
    assert_eq!(owed, vec![("second".to_string(), 200), ("first".to_string(), 100)]);
    f.note_replica(&hash_of(&first), 9);
    assert_eq!(f.db().undelivered(), vec![("second".to_string(), 200)]);
}

#[test]
fn a_maker_is_told_once_that_its_content_is_here() {
    let mut f = fixture();
    let me = f.db().local_device();
    let a = written(&mut f, "a", 100, 1);
    let b = written(&mut f, "b", 100, 2);
    written(&mut f, "copy-of-a", 100, 1);
    let mut told = f.db().unreported_to(&me, 10);
    told.sort();
    let mut expected = vec![hash_of(&a), hash_of(&b)];
    expected.sort();
    assert_eq!(told, expected);
    assert_eq!(f.db().unreported_to(&me, 1).len(), 1);
    f.db.note_reported(&me, &hash_of(&a), 5);
    assert_eq!(f.db().unreported_to(&me, 10), vec![hash_of(&b)]);
}

// -- vaults ------------------------------------------------------------------

#[test]
fn a_vault_is_shown_to_its_owner_alone() {
    let mut f = fixture();
    f.put_bytes("open", b"for all", 0).unwrap();
    f.put_bytes("sealed", b"for one", 0).unwrap();
    let owner = DeviceId::from_bytes([1; 32]);
    let other = DeviceId::from_bytes([2; 32]);
    assert_eq!(f.db.set_scope("sealed", Some(&owner)), Ok(true));
    assert_eq!(f.db().scope_of("sealed"), Some(owner));

    let seen = |audience: Audience| -> Vec<(String, bool)> {
        f.db().versions_for(audience).into_iter().map(|o| (o.version.path, o.private)).collect()
    };
    let open = ("open".to_string(), false);
    let sealed = ("sealed".to_string(), true);
    assert_eq!(seen(Audience::Device(&owner)), vec![open.clone(), sealed]);
    assert_eq!(seen(Audience::Device(&other)), vec![open.clone()]);
    assert_eq!(seen(Audience::Unplaced), vec![open]);
    assert_eq!(f.db().versions_for(Audience::Ourselves).len(), 2);

    let content = hash_of(b"for one");
    let chunk = f.db().chunk_hashes_for_content(&content).unwrap()[0];
    for (audience, may) in [
        (Audience::Ourselves, true),
        (Audience::Device(&owner), true),
        (Audience::Device(&other), false),
        (Audience::Unplaced, false),
    ] {
        assert_eq!(f.db().content_visible_to(&content, audience), may);
        assert_eq!(f.db().chunk_visible_to(&chunk, audience), may);
    }
}

#[test]
fn a_delivery_waits_until_it_is_taken() {
    let mut f = fixture();
    f.put_bytes("gift", b"payload", 0).unwrap();
    let them = DeviceId::from_bytes([1; 32]);
    let content = hash_of(b"payload");
    f.db.set_scope("gift", Some(&them)).unwrap();
    assert_eq!(f.db().pending_deliveries(), vec![("gift".to_string(), 7, them)]);
    assert_eq!(f.db().awaiting_collection(), vec![them]);
    assert_eq!(f.db().vault_path_for(&content, &them).as_deref(), Some("gift"));
    assert!(f.db().delivery_is_vault_only(&content, &them));
    assert!(f.db().live_path_anywhere("gift"));
    assert!(!f.db().vault_knows(&content), "it is not our own vault");
    assert!(f.db().releasable_held_chunks().is_empty(), "nobody has taken it");

    f.db.note_replica_in_vault(&content, &them, 1);
    assert!(f.db().pending_deliveries().is_empty());
    assert!(f.db().awaiting_collection().is_empty());
    assert_eq!(f.db().releasable_held_chunks().len(), 1);
}

#[test]
fn a_chunk_that_somebody_still_needs_is_not_released() {
    let mut f = fixture();
    f.put_bytes("theirs", b"payload", 0).unwrap();
    let them = DeviceId::from_bytes([1; 32]);
    f.db.set_scope("theirs", Some(&them)).unwrap();
    f.db.note_replica_in_vault(&hash_of(b"payload"), &them, 1);
    f.put_bytes("mine", b"payload", 0).unwrap();
    assert_eq!(f.db().is_materialised("mine"), Some(false));
    assert!(f.db().releasable_held_chunks().is_empty(), "that payload is somebody's only copy");
    f.note_replica(&hash_of(b"payload"), 7);
    assert_eq!(f.db().releasable_held_chunks().len(), 1, "now it can be had elsewhere");
}

#[test]
fn one_place_holds_a_path_once() {
    let mut f = fixture();
    let them = DeviceId::from_bytes([1; 32]);
    f.put_bytes("p", b"one", 0).unwrap();
    f.db.set_scope("p", Some(&them)).unwrap();
    f.put_bytes("p", b"two", 0).unwrap();
    assert_eq!(
        f.db.set_scope("p", None),
        Err(Error::Db { detail: "UNIQUE constraint failed: files.path".to_string() })
    );
    assert_eq!(
        f.db.set_scope("p", Some(&them)),
        Err(Error::Db { detail: "UNIQUE constraint failed: files.scope, files.path".to_string() })
    );
    assert_eq!(f.db.set_scope("nothing", None), Ok(false));
    assert_eq!(f.read_file("p").unwrap(), b"two");
    assert_eq!(f.read_content(&hash_of(b"one")).unwrap().unwrap(), b"one");
}

fn recipient() -> DeviceId {
    DeviceId::from_bytes([9; 32])
}

#[test]
fn a_file_sent_to_a_vault_is_readable_without_the_senders_folder_copy() {
    let mut f = store(7).in_tree();
    let payload = noisy(300_000);

    let stats = f.send_to_vault("report.pdf", &payload, &recipient());
    assert!(stats.bytes_written > 0, "the payload must actually be stored");

    // Nothing was put in the sender's own folder: the recipient's path is the
    // recipient's business.
    assert!(!f.has_file("report.pdf"));

    // And the sender deleting the original changes nothing.
    let read = f.read_content(&hash_of(&payload)).unwrap().expect("still readable");
    assert_eq!(read, payload);
}

#[test]
fn a_vault_send_does_not_collide_with_the_senders_own_file_of_that_name() {
    let mut f = store(7).in_tree();
    let mine = noisy(40_000);
    let theirs = noisy(90_000);

    f.put_file("notes.txt", &mine);
    f.send_to_vault("notes.txt", &theirs, &recipient());

    // Two live rows, same path, different scopes, and the sender's own file
    // still reads as their own.
    assert_eq!(f.db().scope_of("notes.txt"), None);
    assert_eq!(f.read_file("notes.txt").unwrap(), mine);
    assert_eq!(f.read_content(&hash_of(&theirs)).unwrap().unwrap(), theirs);
}

#[test]
fn the_same_name_can_be_sent_to_two_different_devices() {
    let mut f = store(7).in_tree();
    let first = noisy(20_000);
    let second = noisy(30_000);

    f.send_to_vault("photo.jpg", &first, &DeviceId::from_bytes([1; 32]));
    f.send_to_vault("photo.jpg", &second, &DeviceId::from_bytes([2; 32]));

    assert_eq!(f.read_content(&hash_of(&first)).unwrap().unwrap(), first);
    assert_eq!(f.read_content(&hash_of(&second)).unwrap().unwrap(), second);
}

#[test]
fn held_content_is_kept_until_the_recipient_has_it() {
    let mut f = store(7).in_tree();
    let payload = noisy(400_000);
    f.send_to_vault("big.bin", &payload, &recipient());

    // Nobody has collected it. Releasing must free nothing at all: this is the
    // only copy the recipient will ever get.
    let released = f.release_held_payloads();
    assert_eq!(released.chunks_removed, 0);
    assert_eq!(released.bytes_reclaimed, 0);
    assert!(f.read_content(&hash_of(&payload)).unwrap().is_some());
}

#[test]
fn held_content_is_released_once_the_recipient_has_it() {
    let mut f = store(7).in_tree();
    let payload = noisy(400_000);
    f.send_to_vault("big.bin", &payload, &recipient());

    let before = f.db().usage(true).chunks;
    assert!(before > 0);

    // The recipient reports it. Now the sender's copy is a courtesy, not a
    // lifeline.
    f.note_replica_in_vault(&hash_of(&payload), &recipient());

    let released = f.release_held_payloads();
    assert!(released.chunks_removed > 0, "expected chunks to be released");
    assert!(released.bytes_reclaimed > 0);
    assert!(f.db().usage(true).chunks < before);
}

#[test]
fn releasing_never_takes_the_last_copy_of_a_shared_chunk() {
    let mut f = store(7).in_tree();
    let payload = noisy(250_000);

    // The same bytes exist twice: sent to a device that has collected them,
    // and as a file in the shared area that this device has evicted and can
    // only get back from the chunk store. Deduplication means both point at
    // one payload.
    f.send_to_vault("theirs.bin", &payload, &recipient());

    f.put_file("mine.bin", &payload);
    f.tree.as_mut().unwrap().remove("mine.bin");
    f.db.set_materialised("mine.bin", false);

    // The recipient collected it, into *their* vault, which this device
    // cannot read back. That frees the sender of holding it for them and
    // leaves the sender's own evicted file exactly as stranded as before.
    f.note_replica_in_vault(&hash_of(&payload), &recipient());

    let released = f.release_held_payloads();
    assert_eq!(released.chunks_removed, 0, "that payload is somebody's only copy");
    assert_eq!(f.read_content(&hash_of(&payload)).unwrap().unwrap(), payload);
}

// -- peers -------------------------------------------------------------------

#[test]
fn a_device_is_trusted_under_one_identity() {
    let mut f = fixture();
    let (a, b) = (DeviceId::from_bytes([1; 32]), DeviceId::from_bytes([2; 32]));
    f.db.trust_peer(&a, &[0xA; 32], "zoe's phone", 10).unwrap();
    f.db.trust_peer(&b, &[0xB; 32], "desk", 20).unwrap();
    let names: Vec<String> = f.db().trusted_peers().into_iter().map(|p| p.name).collect();
    assert_eq!(names, vec!["desk", "zoe's phone"]);

    assert_eq!(
        f.db.trust_peer(&a, &[0xB; 32], "imposter", 30),
        Err(Error::Db { detail: "UNIQUE constraint failed: peers.fingerprint".to_string() })
    );
    f.db.trust_peer(&a, &[0xC; 32], "new phone", 40).unwrap();
    assert_eq!(f.db().peer_by_fingerprint(&[0xA; 32]), None);
    let peer = f.db().peer_by_fingerprint(&[0xC; 32]).unwrap();
    assert_eq!((peer.device_id, peer.paired_at, peer.last_seen), (a, 10, None));
    f.db.mark_peer_seen(&[0xC; 32], 50);
    assert_eq!(f.db().peer_by_fingerprint(&[0xC; 32]).unwrap().last_seen, Some(50));

    assert_eq!(f.db().activity(10, None).len(), 2, "re-pairing is not news");
    assert!(f.db.forget_peer(&a));
    assert!(!f.db.forget_peer(&a));
    assert_eq!(f.db().trusted_peers().len(), 1);
}

// -- history -----------------------------------------------------------------

fn history() -> Db {
    Db::new(DeviceId::from_bytes([0xD0; 32]))
}

const MOMENT: i64 = 1_757_462_400;

#[test]
fn what_happened_comes_back_newest_first() {
    let mut db = history();

    for path in ["first.txt", "second.txt", "third.txt"] {
        db.note(&Event::Stored, path, MOMENT);
    }

    let rows = db.activity(10, None);
    assert_eq!(
        rows.iter().map(|r| r.path.as_deref().unwrap()).collect::<Vec<_>>(),
        vec!["third.txt", "second.txt", "first.txt"]
    );
}

/// Three events in the same second are indistinguishable by time, so paging by
/// time alone would repeat or skip one at every boundary. Paging is by id.
#[test]
fn paging_neither_repeats_nor_skips_within_one_second() {
    let mut db = history();
    for i in 0..10 {
        db.note(&Event::Stored, &format!("file-{i}.txt"), MOMENT);
    }

    let mut seen = Vec::new();
    let mut before = None;
    loop {
        let page = db.activity(3, before);
        if page.is_empty() {
            break;
        }
        before = Some(page.last().unwrap().id);
        seen.extend(page.into_iter().map(|r| r.path.unwrap()));
    }

    assert_eq!(seen.len(), 10, "paging lost or repeated rows: {seen:?}");
    let unique: std::collections::HashSet<_> = seen.iter().collect();
    assert_eq!(unique.len(), 10);
}

#[test]
fn one_paths_history_is_answerable_on_its_own() {
    let mut db = history();

    db.note(&Event::Stored, "report.pdf", MOMENT);
    db.note(&Event::Stored, "other.txt", MOMENT);
    db.record(
        &Event::Evicted,
        Some("report.pdf"),
        Some(4096),
        None,
        Some("dropped to stay under the storage limit"),
        MOMENT,
    );

    let history = db.activity_for("report.pdf", 10);
    assert_eq!(history.len(), 2);
    assert_eq!(history[0].kind, Event::Evicted);
    assert_eq!(history[0].size, Some(4096));
    assert!(history[0].detail.as_deref().unwrap().contains("storage limit"));
}

#[test]
fn the_other_device_is_remembered_by_id_not_by_name() {
    let mut db = history();
    let phone = DeviceId::from_bytes([0x5A; 32]);
    db.record(&Event::Sent, Some("holiday.jpg"), Some(900), Some(&phone), None, MOMENT);

    let rows = db.activity(10, None);
    assert_eq!(rows[0].device, Some(phone), "a name would change; an id does not");
}

/// Both limits, because they fail differently: age alone lets a busy week grow
/// without bound, a count alone lets a quiet device keep rows from years ago.
#[test]
fn history_is_pruned_by_age_and_by_count() {
    let mut db = history();

    for i in 0..50 {
        db.note(&Event::Stored, &format!("file-{i}.txt"), MOMENT);
    }
    // Backdate half of them past any plausible window.
    for row in db.history.iter_mut().filter(|r| r.id <= 25) {
        row.at -= 100000;
    }

    let gone = db.prune_activity(3600, 10_000, MOMENT);
    assert_eq!(gone, 25, "the old rows should have gone and the recent ones stayed");
    assert_eq!(db.activity(100, None).len(), 25);

    let gone = db.prune_activity(3600, 5, MOMENT);
    assert_eq!(gone, 20);
    let left = db.activity(100, None);
    assert_eq!(left.len(), 5);
    assert_eq!(left[0].path.as_deref().unwrap(), "file-49.txt", "the newest must survive");
}

/// A build that knew a kind this one does not should not lose the row. Showing
/// one unfamiliar word is better than a gap in somebody's history.
#[test]
fn an_unknown_kind_is_kept_rather_than_dropped() {
    let mut db = history();
    db.note(&Event::parse("teleported"), "x.txt", MOMENT);

    let rows = db.activity(10, None);
    assert_eq!(rows.len(), 1);
    assert_eq!(rows[0].kind, Event::Other("teleported".into()));
    assert_eq!(rows[0].kind.as_str(), "teleported");
}

#[test]
fn a_later_event_comes_first_whatever_its_number() {
    let mut db = history();
    db.note(&Event::Failed, "late", MOMENT + 5);
    db.note(&Event::Failed, "early", MOMENT);
    let rows = db.activity(1, None);
    assert_eq!(rows.len(), 1);
    assert_eq!(rows[0].path.as_deref(), Some("late"));
    assert_eq!(Event::Failed.to_string(), "failed");
}
