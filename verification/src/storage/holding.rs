//! Which bytes this device holds, and which it may let go of.
//!
//! A storage cap is a promise about disk, not about data: bytes are dropped only
//! where another device is known to hold them and could be asked for them.

use vstd::prelude::*;

use super::chunker::ContentHash;
use super::db;
use super::db::{has_hash, ChunkFacts, ChunkRow, Db, File, FileRow, Index, ReplicaRow, ReportRow};
use super::error::{Error, Fault};
use super::gc::GcStats;
use super::listing;
use super::promises;
use super::queries;
use super::reading;
use super::reading::is_supplied;
use super::removal;
use crate::keyed;
use crate::order::same_bytes;
use crate::sync::device::DeviceId;

verus! {

/// A delivery recorded. A device that acquires content in the shared area is an
/// ordinary holder from then on; the reverse never happens, because knowing less
/// than before is not something a delivery can teach us.
pub open spec fn noted(
    replicas: Map<(Seq<u8>, Seq<u8>), (i64, bool)>,
    content: Seq<u8>,
    device: Seq<u8>,
    private: bool,
    now: i64,
) -> Map<(Seq<u8>, Seq<u8>), (i64, bool)> {
    let k = (content, device);
    replicas.insert(
        k,
        (
            now,
            if replicas.contains_key(k) {
                replicas[k].1 && private
            } else {
                private
            },
        ),
    )
}

/// The devices that hold the content where we could ask for it.
pub open spec fn holders(ix: Index, content: Seq<u8>) -> Set<(Seq<u8>, Seq<u8>)> {
    ix.replicas.dom().filter(
        |k: (Seq<u8>, Seq<u8>)| k.0 == content && !ix.replicas[k].1,
    )
}

/// The index with what is recorded of one file of the shared area changed, if it
/// is live.
pub open spec fn live_changed(ix: Index, path: Seq<char>, f: spec_fn(File) -> File) -> Index {
    if removal::live(ix, path) {
        let i = db::shared(ix, path);
        Index { files: ix.files.update(i, f(ix.files[i])), ..ix }
    } else {
        ix
    }
}

/// The index once a path of the shared area was read or written.
pub open spec fn touched(ix: Index, path: Seq<char>, now: i64) -> Index {
    let i = db::shared(ix, path);
    if i >= 0 {
        Index { files: ix.files.update(i, File { touched_at: now, ..ix.files[i] }), ..ix }
    } else {
        ix
    }
}

/// The index once the bytes of a live path are held here, or are not.
pub open spec fn materialised(ix: Index, path: Seq<char>, held: bool) -> Index {
    live_changed(ix, path, |f: File| File { materialised: held, ..f })
}

/// The index once the bytes of a live path were dropped.
pub open spec fn evicted(ix: Index, path: Seq<char>) -> Index {
    materialised(ix, path, false)
}

/// The index once the bytes of a live path were asked for.
pub open spec fn asked_for(ix: Index, path: Seq<char>) -> Index {
    live_changed(ix, path, |f: File| File { wanted: true, ..f })
}

/// Why the bytes of a path may not be dropped, if they may not.
pub open spec fn refusal(ix: Index, path: Seq<char>, has_tree: bool) -> Option<Fault> {
    if !has_tree {
        Some(
            Fault::CannotEvict {
                path,
                why: "this device has no folder, so it is the only holder"@,
            },
        )
    } else if !removal::live(ix, path) {
        Some(Fault::NotFound { path })
    } else if !listing::reachable(ix, ix.files[db::shared(ix, path)].content_hash) {
        Some(
            Fault::CannotEvict { path, why: "no other device is known to hold this content"@ },
        )
    } else {
        None
    }
}

/// Content that a device made, that is held here, and that it was not told of.
pub open spec fn unreported(ix: Index, device: Seq<u8>, f: File) -> bool {
    f.deleted_at is None && f.materialised && f.modified_by == Some(device)
        && !ix.reported.contains_key((device, f.content_hash))
}

impl Db {
    fn record_replica(&mut self, content: &ContentHash, device: &DeviceId, private: bool, now: i64)
        requires
            old(self).wf(),
        ensures
            final(self).wf(),
            final(self)@ == (Index {
                replicas: noted(old(self)@.replicas, content@, device@, private, now),
                ..old(self)@
            }),
    {
        let ghost s = db::replica_pairs(self.replicas@);
        let ghost k = (content@, device@);
        let mut i: usize = 0;
        while i < self.replicas.len()
            invariant
                i <= self.replicas@.len(),
                *self == *old(self),
                self.wf(),
                k == (content@, device@),
                s == db::replica_pairs(self.replicas@),
                forall|j: int| 0 <= j < i ==> (#[trigger] s[j]).0 != k,
            decreases self.replicas@.len() - i,
        {
            let row: ReplicaRow = self.replicas[i];
            assert(s[i as int].0 == (row.content_hash@, row.device_id@));
            if row.device_id == *device && same_bytes(&row.content_hash, content) {
                let next: ReplicaRow = ReplicaRow {
                    content_hash: *content,
                    device_id: *device,
                    at: now,
                    private: row.private && private,
                };
                proof {
                    keyed::entry_in_map(s, i as int);
                    keyed::replaced(s, i as int, (k, (now, row.private && private)));
                }
                self.replicas.set(i, next);
                assert(db::replica_pairs(self.replicas@) =~= s.update(
                    i as int,
                    (k, (now, row.private && private)),
                ));
                return;
            }
            i += 1;
        }
        proof {
            keyed::key_in_map(s, k);
            keyed::pushed(s, (k, (now, private)));
        }
        self.replicas.push(
            ReplicaRow { content_hash: *content, device_id: *device, at: now, private },
        );
        assert(db::replica_pairs(self.replicas@) =~= s.push((k, (now, private))));
    }

    /// Record that `device` has taken delivery of this content.
    pub fn note_replica(&mut self, content: &ContentHash, device: &DeviceId, now: i64)
        requires
            old(self).wf(),
        ensures
            final(self).wf(),
            final(self)@ == (Index {
                replicas: noted(old(self)@.replicas, content@, device@, false, now),
                ..old(self)@
            }),
    {
        self.record_replica(content, device, false, now);
    }

    /// Record that `device` took these bytes into its own private vault.
    ///
    /// Distinguished from an ordinary delivery because this device cannot ask for
    /// them back. The row is enough to release content held *for* that device,
    /// and not enough to evict anything from this device's shared area.
    pub fn note_replica_in_vault(&mut self, content: &ContentHash, device: &DeviceId, now: i64)
        requires
            old(self).wf(),
        ensures
            final(self).wf(),
            final(self)@ == (Index {
                replicas: noted(old(self)@.replicas, content@, device@, true, now),
                ..old(self)@
            }),
    {
        self.record_replica(content, device, true, now);
    }

    /// How many other devices hold these bytes somewhere we could ask for them.
    ///
    /// Vault deliveries are excluded on purpose: they are copies that exist and
    /// cannot be retrieved, which is no help to a device deciding whether it is
    /// safe to drop its own.
    pub fn replica_count(&self, content: &ContentHash) -> (n: usize)
        requires
            self.wf(),
        ensures
            n == holders(self@, content@).len(),
    {
        let ghost s = db::replica_pairs(self.replicas@);
        let ghost mut seen: Set<(Seq<u8>, Seq<u8>)> = Set::empty();
        let len: usize = self.replicas.len();
        let mut n: usize = 0;
        let mut i: usize = 0;
        while i < len
            invariant
                i <= len == self.replicas@.len(),
                n <= i,
                self.wf(),
                s == db::replica_pairs(self.replicas@),
                seen.finite(),
                n == seen.len(),
                forall|k: (Seq<u8>, Seq<u8>)| #[trigger]
                    seen.contains(k) ==> holders(self@, content@).contains(k) && exists|j: int|
                        0 <= j < i && (#[trigger] s[j]).0 == k,
                forall|j: int|
                    #![trigger s[j]]
                    0 <= j < i && s[j].0.0 == content@ && !s[j].1.1 ==> seen.contains(s[j].0),
            decreases len - i,
        {
            let row: ReplicaRow = self.replicas[i];
            proof {
                keyed::entry_in_map(s, i as int);
                assert(s[i as int].0 == (row.content_hash@, row.device_id@));
                if seen.contains(s[i as int].0) {
                    let j = choose|j: int| 0 <= j < i && (#[trigger] s[j]).0 == s[i as int].0;
                    keyed::one_position(s, i as int, j);
                }
            }
            if !row.private && same_bytes(&row.content_hash, content) {
                n += 1;
                proof {
                    seen = seen.insert(s[i as int].0);
                }
            }
            i += 1;
        }
        proof {
            assert forall|k: (Seq<u8>, Seq<u8>)| holders(self@, content@).contains(k) implies seen.contains(
                k,
            ) by {
                keyed::key_in_map(s, k);
                let j = keyed::position(s, k);
                keyed::entry_in_map(s, j);
                assert(s[j].0 == k);
            }
            assert(seen =~= holders(self@, content@));
        }
        n
    }

    /// Note that a path was just read or written here.
    pub fn touch(&mut self, path: &str, now: i64)
        requires
            old(self).wf(),
        ensures
            final(self).wf(),
            final(self)@ == touched(old(self)@, path@, now),
    {
        proof {
            db::find_finds(self@.files, path@, None);
        }
        if let Some(i) = self.position(path, &None) {
            let mut row: FileRow = self.copy_row(i);
            row.touched_at = now;
            self.retouch(i, row);
        }
    }

    /// Where a live file of the shared area stands.
    fn live_position(&self, path: &str) -> (found: Option<usize>)
        ensures
            match found {
                Some(i) => removal::live(self@, path@) && i == db::shared(self@, path@) && i
                    < self.files@.len(),
                None => !removal::live(self@, path@),
            },
    {
        match self.position(path, &None) {
            None => None,
            Some(i) => {
                assert(self@.files[i as int] == self.files@[i as int]@);
                if self.files[i].deleted_at.is_none() {
                    Some(i)
                } else {
                    None
                }
            },
        }
    }

    /// Mark a path as held or not held here. Returns whether there is such a
    /// live path.
    pub fn set_materialised(&mut self, path: &str, held: bool) -> (changed: bool)
        requires
            old(self).wf(),
        ensures
            final(self).wf(),
            changed == removal::live(old(self)@, path@),
            final(self)@ == materialised(old(self)@, path@, held),
    {
        match self.live_position(path) {
            Some(i) => {
                let mut row: FileRow = self.copy_row(i);
                row.materialised = held;
                self.retouch(i, row);
                true
            },
            None => false,
        }
    }

    /// Whether this device holds the bytes of a live path.
    ///
    /// `None` when the path is not live here at all, which is a different
    /// question from "evicted" and must not be confused with it.
    pub fn is_materialised(&self, path: &str) -> (held: Option<bool>)
        ensures
            held == if removal::live(self@, path@) {
                Some(self@.files[db::shared(self@, path@)].materialised)
            } else {
                None
            },
    {
        match self.live_position(path) {
            Some(i) => {
                assert(self@.files[i as int] == self.files@[i as int]@);
                Some(self.files[i].materialised)
            },
            None => None,
        }
    }

    /// Ask for a file's bytes back. Acted on the next time a peer is reachable.
    pub fn want(&mut self, path: &str) -> (changed: bool)
        requires
            old(self).wf(),
        ensures
            final(self).wf(),
            changed == removal::live(old(self)@, path@),
            final(self)@ == asked_for(old(self)@, path@),
    {
        match self.live_position(path) {
            Some(i) => {
                let mut row: FileRow = self.copy_row(i);
                row.wanted = true;
                self.retouch(i, row);
                true
            },
            None => false,
        }
    }

    /// Drop a file's bytes, keeping everything the index knows about it.
    ///
    /// Afterwards the path still syncs, still appears in listings, and still has
    /// a content hash and a chunk list: it simply has no local content until
    /// something fetches it back.
    ///
    /// Refuses when no other device is known to hold the content. That check is
    /// the difference between eviction and data loss. The index is to be kept
    /// before the file is removed from the folder: the other order leaves a
    /// window in which a scan would read the file as deleted by the user.
    pub fn evict(&mut self, path: &str, has_tree: bool) -> (result: Result<(), Error>)
        requires
            old(self).wf(),
        ensures
            final(self).wf(),
            match result {
                Ok(_) => {
                    &&& refusal(old(self)@, path@, has_tree) is None
                    &&& final(self)@ == evicted(old(self)@, path@)
                    &&& forall|i: int|
                        #![trigger final(self)@.files[i]]
                        0 <= i < old(self)@.files.len() ==> queries::version_of(
                            final(self)@.files[i],
                        ) == queries::version_of(old(self)@.files[i])
                },
                Err(e) => {
                    &&& refusal(old(self)@, path@, has_tree) == Some(e@)
                    &&& final(self)@ == old(self)@
                },
            },
    {
        if !has_tree {
            return Err(
                Error::CannotEvict {
                    path: path.to_owned(),
                    why: "this device has no folder, so it is the only holder".to_owned(),
                },
            );
        }
        match self.live_position(path) {
            None => Err(Error::NotFound { path: path.to_owned() }),
            Some(i) => {
                assert(self@.files[i as int] == self.files@[i as int]@);
                if !self.has_replica(&self.files[i].content_hash, &None, true) {
                    return Err(
                        Error::CannotEvict {
                            path: path.to_owned(),
                            why: "no other device is known to hold this content".to_owned(),
                        },
                    );
                }
                self.set_materialised(path, false);
                proof {
                    promises::law_an_eviction_is_told_to_nobody(old(self)@, path@);
                }
                Ok(())
            },
        }
    }

    /// Content `device` made and this one holds, that it has not been told about
    /// yet: at most `limit`, and all of it where there is less.
    pub fn unreported_to(&self, device: &DeviceId, limit: usize) -> (list: Vec<ContentHash>)
        requires
            self.wf(),
        ensures
            list@.len() <= limit,
            db::hashes(list@).no_duplicates(),
            forall|h: Seq<u8>| #[trigger]
                db::hashes(list@).contains(h) ==> exists|i: int|
                    0 <= i < self@.files.len() && unreported(
                        self@,
                        device@,
                        #[trigger] self@.files[i],
                    ) && self@.files[i].content_hash == h,
            list@.len() < limit ==> forall|i: int|
                0 <= i < self@.files.len() && unreported(self@, device@, #[trigger] self@.files[i])
                    ==> db::hashes(list@).contains(self@.files[i].content_hash),
    {
        let ghost all = self@.files;
        let mut list: Vec<ContentHash> = Vec::new();
        let mut i: usize = 0;
        while i < self.files.len() && list.len() < limit
            invariant
                i <= self.files@.len(),
                all == self@.files,
                self.wf(),
                list@.len() <= limit,
                db::hashes(list@).no_duplicates(),
                forall|h: Seq<u8>| #[trigger]
                    db::hashes(list@).contains(h) ==> exists|j: int|
                        0 <= j < all.len() && unreported(self@, device@, #[trigger] all[j])
                            && all[j].content_hash == h,
                forall|j: int|
                    0 <= j < i && unreported(self@, device@, #[trigger] all[j]) ==> db::hashes(
                        list@,
                    ).contains(all[j].content_hash),
            decreases self.files@.len() - i,
        {
            let f: &FileRow = &self.files[i];
            assert(all[i as int] == f@);
            let theirs: bool = match f.modified_by {
                Some(d) => d == *device,
                None => false,
            };
            if f.deleted_at.is_none() && f.materialised && theirs && !self.was_reported(
                device,
                &f.content_hash,
            ) && !has_hash(&list, &f.content_hash) {
                let ghost before = db::hashes(list@);
                let ghost h = f.content_hash@;
                list.push(f.content_hash);
                proof {
                    assert(db::hashes(list@) =~= before.push(h));
                    assert(before.push(h)[before.len() as int] == h);
                    assert forall|g: Seq<u8>| #[trigger] before.contains(g) implies before.push(
                        h,
                    ).contains(g) by {
                        let n = choose|n: int| 0 <= n < before.len() && before[n] == g;
                        assert(before.push(h)[n] == g);
                    }
                    assert forall|g: Seq<u8>| #[trigger] before.push(h).contains(g) implies exists|
                        j: int,
                    |
                        0 <= j < all.len() && unreported(self@, device@, #[trigger] all[j])
                            && all[j].content_hash == g by {
                        let n = choose|n: int|
                            0 <= n < before.push(h).len() && before.push(h)[n] == g;
                        if n < before.len() {
                            assert(before[n] == g);
                            assert(before.contains(g));
                        } else {
                            assert(unreported(self@, device@, all[i as int]));
                        }
                    }
                }
            }
            i += 1;
        }
        list
    }

    /// Whether `device` has been told this content is held here.
    fn was_reported(&self, device: &DeviceId, content: &ContentHash) -> (yes: bool)
        requires
            self.wf(),
        ensures
            yes == self@.reported.contains_key((device@, content@)),
    {
        self.report_at(device, content).is_some()
    }

    fn report_at(&self, device: &DeviceId, content: &ContentHash) -> (found: Option<usize>)
        requires
            self.wf(),
        ensures
            match found {
                Some(i) => {
                    &&& i < self.reported@.len()
                    &&& db::report_pairs(self.reported@)[i as int].0 == (device@, content@)
                    &&& self@.reported.contains_key((device@, content@))
                },
                None => !self@.reported.contains_key((device@, content@)),
            },
    {
        let ghost s = db::report_pairs(self.reported@);
        let mut i: usize = 0;
        while i < self.reported.len()
            invariant
                i <= self.reported@.len(),
                self.wf(),
                s == db::report_pairs(self.reported@),
                forall|j: int| 0 <= j < i ==> (#[trigger] s[j]).0 != (device@, content@),
            decreases self.reported@.len() - i,
        {
            let row: ReportRow = self.reported[i];
            assert(s[i as int].0 == (row.device_id@, row.content_hash@));
            if row.device_id == *device && same_bytes(&row.content_hash, content) {
                proof {
                    keyed::entry_in_map(s, i as int);
                }
                return Some(i);
            }
            i += 1;
        }
        proof {
            keyed::key_in_map(s, (device@, content@));
        }
        None
    }

    /// Remember that `device` has been told this content is held here.
    pub fn note_reported(&mut self, device: &DeviceId, content: &ContentHash, now: i64)
        requires
            old(self).wf(),
        ensures
            final(self).wf(),
            final(self)@ == (Index {
                reported: old(self)@.reported.insert((device@, content@), now),
                ..old(self)@
            }),
    {
        let ghost s = db::report_pairs(self.reported@);
        let ghost e = ((device@, content@), now);
        let row: ReportRow = ReportRow { device_id: *device, content_hash: *content, at: now };
        match self.report_at(device, content) {
            Some(i) => {
                proof {
                    keyed::replaced(s, i as int, e);
                }
                self.reported.set(i, row);
                assert(db::report_pairs(self.reported@) =~= s.update(i as int, e));
            },
            None => {
                proof {
                    keyed::pushed(s, e);
                }
                self.reported.push(row);
                assert(db::report_pairs(self.reported@) =~= s.push(e));
            },
        }
    }

    /// A chunk takes nothing in the chunk store from now on.
    pub(crate) fn empty_chunk(&mut self, hash: &ContentHash)
        requires
            old(self).wf(),
        ensures
            final(self).wf(),
            final(self)@ == (Index {
                chunks: emptied(old(self)@.chunks, hash@),
                ..old(self)@
            }),
    {
        match self.chunk_at(hash) {
            Some(at) => {
                let row: ChunkRow = self.chunks[at];
                self.set_chunk(at, ChunkRow { stored_size: 0, ..row });
            },
            None => {},
        }
    }

    /// Drop one payload if the folder can supply it, and say what that freed.
    ///
    /// The chunk is verified out of the folder *before* its payload is deleted,
    /// so a chunk is only ever dropped once the bytes are known to be readable
    /// somewhere else. A replica without a folder reclaims nothing: it is the
    /// only holder.
    pub fn reclaim(
        &mut self,
        has_tree: bool,
        hash: &ContentHash,
        size: u64,
        tree: &Option<Vec<u8>>,
    ) -> (stats: GcStats)
        requires
            old(self).wf(),
        ensures
            final(self).wf(),
            if has_tree && reading::supplied(hash@, reading::bytes_view(*tree)) {
                &&& final(self)@ == (Index {
                    chunks: emptied(old(self)@.chunks, hash@),
                    ..old(self)@
                })
                &&& stats == (GcStats {
                    tombstones_expired: 0,
                    chunks_removed: 1,
                    bytes_reclaimed: size,
                })
            } else {
                &&& final(self)@ == old(self)@
                &&& stats == (GcStats {
                    tombstones_expired: 0,
                    chunks_removed: 0,
                    bytes_reclaimed: 0,
                })
            },
    {
        let mut stats: GcStats = GcStats::default();
        if has_tree && is_supplied(hash, tree) {
            self.empty_chunk(hash);
            stats.chunks_removed = 1;
            stats.bytes_reclaimed = size;
        }
        stats
    }
}

/// The chunks once one takes nothing in the chunk store.
pub open spec fn emptied(chunks: Map<Seq<u8>, ChunkFacts>, hash: Seq<u8>) -> Map<
    Seq<u8>,
    ChunkFacts,
> {
    if chunks.contains_key(hash) {
        chunks.insert(hash, ChunkFacts { stored_size: 0, ..chunks[hash] })
    } else {
        chunks
    }
}

/// A device that took content into its vault counts as a holder only once it has
/// it in the shared area, and from then on always.
pub proof fn law_holding_is_never_unlearned(
    replicas: Map<(Seq<u8>, Seq<u8>), (i64, bool)>,
    content: Seq<u8>,
    device: Seq<u8>,
    private: bool,
    now: i64,
    k: (Seq<u8>, Seq<u8>),
)
    requires
        replicas.contains_key(k),
        !replicas[k].1,
    ensures
        noted(replicas, content, device, private, now).contains_key(k),
        !noted(replicas, content, device, private, now)[k].1,
{
}

/// The only copy is never dropped: where an eviction is not refused, another
/// device is known to hold the content outside a vault.
pub proof fn law_the_only_copy_is_never_evicted(ix: Index, path: Seq<char>, has_tree: bool)
    requires
        ix.replicas.dom().finite(),
        refusal(ix, path, has_tree) is None,
    ensures
        removal::live(ix, path),
        holders(ix, ix.files[db::shared(ix, path)].content_hash).len() > 0,
{
    let content = ix.files[db::shared(ix, path)].content_hash;
    let d = choose|d: Seq<u8>|
        #![trigger ix.replicas.contains_key((content, d))]
        ix.replicas.contains_key((content, d)) && !ix.replicas[(content, d)].1;
    assert(holders(ix, content).contains((content, d)));
    vstd::set_lib::lemma_set_empty_equivalency_len(holders(ix, content));
}

/// A delivery that is noted is known from then on, as noted now. It counts where
/// the device could be asked for the content, unless every delivery of it to that
/// device went into its vault. What is known of other content and other devices
/// stays as it was.
pub proof fn law_a_delivery_is_noted(
    replicas: Map<(Seq<u8>, Seq<u8>), (i64, bool)>,
    content: Seq<u8>,
    device: Seq<u8>,
    private: bool,
    now: i64,
)
    ensures
        ({
            let k = (content, device);
            let after = noted(replicas, content, device, private, now);
            &&& after.contains_key(k)
            &&& after[k].0 == now
            &&& !private ==> !after[k].1
            &&& private && !replicas.contains_key(k) ==> after[k].1
            &&& private && replicas.contains_key(k) ==> after[k].1 == replicas[k].1
            &&& forall|other: (Seq<u8>, Seq<u8>)|
                other != k ==> (#[trigger] after.contains_key(other) <==> replicas.contains_key(
                    other,
                ))
            &&& forall|other: (Seq<u8>, Seq<u8>)|
                other != k && #[trigger] replicas.contains_key(other) ==> after[other]
                    == replicas[other]
        }),
{
}

/// The devices that hold the content where it could be asked for are those it was
/// delivered to outside a vault.
pub proof fn law_holders_can_be_asked(ix: Index, content: Seq<u8>, device: Seq<u8>)
    ensures
        forall|k: (Seq<u8>, Seq<u8>)| #[trigger]
            holders(ix, content).contains(k) <==> k.0 == content && ix.replicas.contains_key(k)
                && !ix.replicas[k].1,
{
}

/// Bytes may be dropped exactly where there is a folder, the path holds a live
/// file, and another device is known to hold its content where it could be asked
/// for. Each of the three reasons against it is told for what it is.
pub proof fn law_an_eviction_is_refused_for_a_reason(
    ix: Index,
    path: Seq<char>,
    has_tree: bool,
    f: File,
)
    requires
        db::files_distinct(ix.files),
    ensures
        !has_tree ==> refusal(ix, path, has_tree) == Some(
            Fault::CannotEvict {
                path,
                why: "this device has no folder, so it is the only holder"@,
            },
        ),
        has_tree && (forall|i: int|
            #![trigger ix.files[i]]
            0 <= i < ix.files.len() && ix.files[i].path == path && ix.files[i].scope is None
                ==> ix.files[i].deleted_at is Some) ==> refusal(ix, path, has_tree) == Some(
            Fault::NotFound { path },
        ),
        has_tree && ix.files.contains(f) && f.path == path && f.scope is None
            && f.deleted_at is None ==> {
            &&& refusal(ix, path, has_tree) is None <==> exists|d: Seq<u8>|
                #![trigger ix.replicas.contains_key((f.content_hash, d))]
                ix.replicas.contains_key((f.content_hash, d)) && !ix.replicas[(
                    f.content_hash,
                    d,
                )].1
            &&& refusal(ix, path, has_tree) is Some ==> refusal(ix, path, has_tree) == Some(
                Fault::CannotEvict { path, why: "no other device is known to hold this content"@ },
            )
        },
{
    db::find_finds(ix.files, path, None);
    if ix.files.contains(f) && f.path == path && f.scope is None {
        let i = choose|i: int| 0 <= i < ix.files.len() && ix.files[i] == f;
        db::found_is_unique(ix.files, i);
    }
}

/// Changing what is recorded of a live path changes that file and no other, and
/// nothing where the path is not live.
pub proof fn law_a_live_file_alone_is_changed(
    ix: Index,
    path: Seq<char>,
    change: spec_fn(File) -> File,
)
    requires
        db::files_distinct(ix.files),
    ensures
        ({
            let after = live_changed(ix, path, change);
            &&& after.files.len() == ix.files.len()
            &&& forall|i: int|
                #![trigger after.files[i]]
                0 <= i < ix.files.len() ==> after.files[i] == if ix.files[i].path == path
                    && ix.files[i].scope is None && ix.files[i].deleted_at is None {
                    change(ix.files[i])
                } else {
                    ix.files[i]
                }
            &&& after == (Index { files: after.files, ..ix })
        }),
{
    let after = live_changed(ix, path, change);
    db::find_finds(ix.files, path, None);
    let k = db::shared(ix, path);
    assert forall|i: int| #![trigger after.files[i]] 0 <= i < ix.files.len() implies after.files[i]
        == if ix.files[i].path == path && ix.files[i].scope is None
        && ix.files[i].deleted_at is None {
        change(ix.files[i])
    } else {
        ix.files[i]
    } by {
        if ix.files[i].path == path && ix.files[i].scope is None {
            db::found_is_unique(ix.files, i);
        }
    }
}

/// A device is owed a report of what it made and is held here, until it was told:
/// live content, wherever it is kept, that it was the last to change.
pub proof fn law_a_report_is_owed_until_it_is_made(ix: Index, device: Seq<u8>, f: File, now: i64)
    ensures
        unreported(ix, device, f) <==> f.deleted_at is None && f.materialised && f.modified_by
            == Some(device) && !ix.reported.contains_key((device, f.content_hash)),
        !unreported(
            Index { reported: ix.reported.insert((device, f.content_hash), now), ..ix },
            device,
            f,
        ),
        forall|other: Seq<u8>|
            other != device ==> (#[trigger] unreported(
                Index { reported: ix.reported.insert((device, f.content_hash), now), ..ix },
                other,
                f,
            ) <==> unreported(ix, other, f)),
{
}

/// A chunk whose payload is dropped takes nothing in the chunk store, and keeps
/// everything else that is known of it; other chunks stay as they are.
pub proof fn law_a_dropped_payload_takes_nothing(
    chunks: Map<Seq<u8>, ChunkFacts>,
    hash: Seq<u8>,
)
    ensures
        ({
            let after = emptied(chunks, hash);
            &&& after.dom() == chunks.dom()
            &&& chunks.contains_key(hash) ==> after[hash].stored_size == 0 && after[hash].size
                == chunks[hash].size && after[hash].refcount == chunks[hash].refcount
                && after[hash].unreferenced_at == chunks[hash].unreferenced_at
            &&& forall|h: Seq<u8>|
                h != hash && #[trigger] chunks.contains_key(h) ==> after[h] == chunks[h]
        }),
{
    assert(emptied(chunks, hash).dom() =~= chunks.dom());
}

/// Asking for the bytes of a live path makes a standing request for that file, and
/// changes nothing else; where the path is not live it changes nothing.
pub proof fn law_bytes_that_are_asked_for_are_wanted(ix: Index, path: Seq<char>)
    requires
        db::files_distinct(ix.files),
    ensures
        ({
            let after = asked_for(ix, path);
            &&& after.files.len() == ix.files.len()
            &&& forall|i: int|
                #![trigger after.files[i]]
                0 <= i < ix.files.len() ==> {
                    &&& after.files[i] == (File { wanted: after.files[i].wanted, ..ix.files[i] })
                    &&& after.files[i].wanted <==> ix.files[i].wanted || (ix.files[i].path == path
                        && ix.files[i].scope is None && ix.files[i].deleted_at is None)
                }
            &&& after == (Index { files: after.files, ..ix })
        }),
{
    law_a_live_file_alone_is_changed(ix, path, |f: File| File { wanted: true, ..f });
}

/// Saying that the bytes of a live path are held here, or are not, is all that
/// changes; where the path is not live nothing does.
pub proof fn law_what_is_held_is_said_of_one_file(ix: Index, path: Seq<char>, held: bool)
    requires
        db::files_distinct(ix.files),
    ensures
        ({
            let after = materialised(ix, path, held);
            &&& after.files.len() == ix.files.len()
            &&& forall|i: int|
                #![trigger after.files[i]]
                0 <= i < ix.files.len() ==> {
                    &&& after.files[i] == (File {
                        materialised: after.files[i].materialised,
                        ..ix.files[i]
                    })
                    &&& after.files[i].materialised == if ix.files[i].path == path
                        && ix.files[i].scope is None && ix.files[i].deleted_at is None {
                        held
                    } else {
                        ix.files[i].materialised
                    }
                }
            &&& after == (Index { files: after.files, ..ix })
        }),
{
    law_a_live_file_alone_is_changed(ix, path, |f: File| File { materialised: held, ..f });
}

/// Touching a path notes the time of that file and changes nothing else.
pub proof fn law_a_touch_notes_the_time(ix: Index, path: Seq<char>, now: i64)
    requires
        db::files_distinct(ix.files),
    ensures
        ({
            let after = touched(ix, path, now);
            &&& after.files.len() == ix.files.len()
            &&& forall|i: int|
                #![trigger after.files[i]]
                0 <= i < ix.files.len() ==> {
                    &&& after.files[i] == (File {
                        touched_at: after.files[i].touched_at,
                        ..ix.files[i]
                    })
                    &&& after.files[i].touched_at == if ix.files[i].path == path
                        && ix.files[i].scope is None {
                        now
                    } else {
                        ix.files[i].touched_at
                    }
                }
            &&& after == (Index { files: after.files, ..ix })
        }),
{
    let after = touched(ix, path, now);
    db::find_finds(ix.files, path, None);
    assert forall|i: int|
        #![trigger after.files[i]]
        0 <= i < ix.files.len() && ix.files[i].path == path
            && ix.files[i].scope is None implies i == db::shared(ix, path) by {
        db::found_is_unique(ix.files, i);
    }
}

} // verus!
