//! Sending a file into another device's vault.
//!
//! Two things have to hold at once. The sender must *keep* the bytes: a recipient
//! that is switched off cannot collect anything. And it must not pay for them
//! forever: content held purely on somebody else's behalf, which that somebody
//! has already collected, is the first thing released when the disk fills.

use vstd::prelude::*;

use super::chunker;
use super::chunker::{chunk_bytes, ContentHash, Manifest};
use super::db;
use super::db::{Db, File, FileRow, Index};
use super::error::Error;
use super::gc::GcStats;
use super::holding;
use super::laws;
use super::refcount;
use super::sealing::ChunkKey;
use super::store;
use super::store::{Circumstances, Disk, Payload, Payloads, PutStats};
use super::vault;
use crate::digest;
use crate::sync::clock;
use crate::sync::clock::{Counts, VersionVector};
use crate::sync::device::DeviceId;

verus! {

/// Where a vault holds a path, or -1.
pub open spec fn in_vault(ix: Index, path: Seq<char>, device: Seq<u8>) -> int {
    db::find(ix.files, path, Some(device))
}

/// The vector that a delivery carries: what the vault knew of the path, with this
/// device's entry advanced.
pub open spec fn sent_vector(ix: Index, path: Seq<char>, device: Seq<u8>) -> Counts {
    let i = in_vault(ix, path, device);
    let base = if i >= 0 {
        ix.files[i].vector
    } else {
        Map::empty()
    };
    base.insert(ix.device, (ix.counter + 1) as u64)
}

/// A delivery. Nothing of it lies in the sender's own folder.
pub open spec fn delivery(
    before: Option<File>,
    id: i64,
    path: Seq<char>,
    device: Seq<u8>,
    m: Manifest,
    mtime_ns: i64,
    vector: Counts,
    by: Seq<u8>,
    now: i64,
) -> File {
    File {
        id: match before {
            Some(f) => f.id,
            None => id,
        },
        path,
        scope: Some(device),
        size: m.size,
        content_hash: m.file_hash@,
        mtime_ns,
        created_at: match before {
            Some(f) => f.created_at,
            None => now,
        },
        updated_at: now,
        deleted_at: None,
        vector,
        modified_by: Some(by),
        materialised: false,
        touched_at: now,
        wanted: false,
        chunks: store::chunk_list(m),
    }
}

/// What decides about the chunks of a delivery: the folder supplies none.
pub open spec fn sending(ix: Index, held: Seq<Seq<u8>>) -> Circumstances {
    Circumstances { trust: true, known: ix.chunks.dom(), held, in_tree: false }
}

/// The index once a file was sent.
pub open spec fn sent(
    ix: Index,
    path: Seq<char>,
    device: Seq<u8>,
    m: Manifest,
    data: Seq<u8>,
    mtime_ns: i64,
    held: Seq<Seq<u8>>,
    now: i64,
) -> Index {
    let known = Index {
        counter: (ix.counter + 1) as u64,
        chunks: store::recorded(
            ix.chunks,
            store::records(m.chunks@, m.chunks@.len() as int, data, sending(ix, held)),
            now,
        ),
        ..ix
    };
    let i = in_vault(ix, path, device);
    let f = delivery(
        if i >= 0 {
            Some(ix.files[i])
        } else {
            None
        },
        store::next_id(ix.files) as i64,
        path,
        device,
        m,
        mtime_ns,
        sent_vector(ix, path, device),
        ix.device,
        now,
    );
    if i >= 0 {
        refcount::with_file(known, i, f, now)
    } else {
        refcount::with_new_file(known, f)
    }
}

/// What sending a buffer leads to.
pub open spec fn data_sent(
    before: Index,
    key: Seq<u8>,
    path: Seq<char>,
    device: Seq<u8>,
    data: Seq<u8>,
    mtime_ns: i64,
    held: Seq<Seq<u8>>,
    now: i64,
    after: Index,
    stats: PutStats,
    sealed: Seq<Payload>,
) -> bool {
    exists|m: Manifest|
        chunker::manifest_for(m, data) && #[trigger] sending_done(
            before,
            key,
            path,
            device,
            m,
            data,
            mtime_ns,
            held,
            now,
            after,
            stats,
            sealed,
        )
}

/// What sending a file leads to.
pub open spec fn sending_done(
    before: Index,
    key: Seq<u8>,
    path: Seq<char>,
    device: Seq<u8>,
    m: Manifest,
    data: Seq<u8>,
    mtime_ns: i64,
    held: Seq<Seq<u8>>,
    now: i64,
    after: Index,
    stats: PutStats,
    sealed: Seq<Payload>,
) -> bool {
    let n = m.chunks@.len() as int;
    let at = sending(before, held);
    &&& after == sent(before, path, device, m, data, mtime_ns, held, now)
    &&& stats.chunks_total == n
    &&& stats.chunks_written == store::cost(m.chunks@, n, data, at).0
    &&& stats.bytes_written == store::cost(m.chunks@, n, data, at).1
    &&& stats.bytes_deduplicated == store::cost(m.chunks@, n, data, at).2
    &&& !stats.unchanged
    &&& store::sealed_for(key, sealed, store::writes(m.chunks@, n, data, at))
}

impl Db {
    /// Put a file into another device's vault, and say which payloads to write
    /// first.
    ///
    /// The payloads are kept in the chunk store whatever the folder holds: the
    /// recipient's path is the recipient's business, and the sender deleting the
    /// original must change nothing.
    pub fn send_to_vault(
        &mut self,
        key: &ChunkKey,
        path: &str,
        data: &[u8],
        mtime_ns: i64,
        device: &DeviceId,
        held: &Vec<ContentHash>,
        now: i64,
    ) -> (result: Result<(PutStats, Vec<Payload>), Error>)
        requires
            old(self).wf(),
            data@.len() <= 0xff_ffff_ffff_ffff,
            old(self).counter < u64::MAX,
            store::next_id(old(self)@.files) <= i64::MAX,
        ensures
            final(self).wf(),
            match result {
                Ok((stats, sealed)) => data_sent(
                    old(self)@,
                    key@,
                    path@,
                    device@,
                    data@,
                    mtime_ns,
                    db::hashes(held@),
                    now,
                    final(self)@,
                    stats,
                    sealed@,
                ),
                Err(_) => false,
            },
    {
        let ghost before = self@;
        let manifest: Manifest = chunk_bytes(data);
        let disk: Disk = Disk {
            has_tree: false,
            in_tree: false,
            held: store::copy_list(held),
        };
        let vault: Option<DeviceId> = Some(*device);
        let found: Option<usize> = self.position(path, &vault);
        proof {
            db::find_finds(before.files, path@, Some(device@));
            assert(db::device_view(vault) == Some(device@));
        }
        let mut vector: VersionVector = match found {
            Some(i) => self.files[i].vector.clone(),
            None => VersionVector::new(),
        };
        self.counter = self.counter + 1;
        vector.set(self.device, self.counter);
        assert(store::circumstances(self@, Payloads::TrustIndex, disk) == sending(
            before,
            db::hashes(held@),
        ));
        let plan: store::Plan = match self.plan(
            key,
            &manifest,
            data,
            Payloads::TrustIndex,
            &disk,
        ) {
            Ok(plan) => plan,
            Err(e) => {
                return Err(e);
            },
        };
        self.record_chunks(&plan.records, now);
        let ghost known = self@;
        let id: i64 = self.new_id();
        let (row_id, created_at): (i64, i64) = match found {
            Some(i) => (self.files[i].id, self.files[i].created_at),
            None => (id, now),
        };
        let row: FileRow = FileRow {
            id: row_id,
            path: path.to_owned(),
            scope: vault,
            size: manifest.size,
            content_hash: manifest.file_hash,
            mtime_ns,
            created_at,
            updated_at: now,
            deleted_at: None,
            vector,
            modified_by: Some(self.device),
            materialised: false,
            touched_at: now,
            wanted: false,
            chunks: store::list_of(&manifest),
        };
        match found {
            Some(i) => {
                assert(row@ == delivery(
                    Some(known.files[i as int]),
                    id,
                    path@,
                    device@,
                    manifest,
                    mtime_ns,
                    sent_vector(before, path@, device@),
                    before.device,
                    now,
                ));
                self.replace_row(i, row, now);
            },
            None => {
                assert(row@ == delivery(
                    None,
                    id,
                    path@,
                    device@,
                    manifest,
                    mtime_ns,
                    sent_vector(before, path@, device@),
                    before.device,
                    now,
                ));
                self.add_row(row);
            },
        }
        proof {
            assert(sending_done(
                before,
                key@,
                path@,
                device@,
                manifest,
                data@,
                mtime_ns,
                db::hashes(held@),
                now,
                self@,
                plan.stats,
                plan.payloads@,
            ));
        }
        Ok((plan.stats, plan.payloads))
    }

    /// Let go of one payload if it is held on another device's behalf only, and
    /// that device has it. Says what that frees.
    pub fn release_held(&mut self, hash: &ContentHash, size: u64) -> (stats: GcStats)
        requires
            old(self).wf(),
        ensures
            final(self).wf(),
            if vault::releasable(old(self)@, hash@) {
                &&& final(self)@ == (Index {
                    chunks: holding::emptied(old(self)@.chunks, hash@),
                    ..old(self)@
                })
                &&& stats == (GcStats {
                    tombstones_expired: 0,
                    chunks_removed: 1,
                    bytes_reclaimed: size,
                })
            } else {
                &&& final(self)@ == old(self)@
                &&& stats == (GcStats {
                    tombstones_expired: 0,
                    chunks_removed: 0,
                    bytes_reclaimed: 0,
                })
            },
    {
        let mut stats: GcStats = GcStats::default();
        if self.is_releasable(hash) {
            self.empty_chunk(hash);
            stats.chunks_removed = 1;
            stats.bytes_reclaimed = size;
        }
        stats
    }
}

/// Sending a file keeps the index sound.
pub proof fn law_sending_keeps_the_index_sound(
    before: Index,
    path: Seq<char>,
    device: Seq<u8>,
    m: Manifest,
    data: Seq<u8>,
    mtime_ns: i64,
    held: Seq<Seq<u8>>,
    now: i64,
)
    requires
        laws::sound(before),
        refcount::countable(sent(before, path, device, m, data, mtime_ns, held, now).files),
    ensures
        laws::sound(sent(before, path, device, m, data, mtime_ns, held, now)),
{
    let after = sent(before, path, device, m, data, mtime_ns, held, now);
    let i = in_vault(before, path, device);
    db::find_finds(before.files, path, Some(device));
    let n = m.chunks@.len() as int;
    let at = sending(before, held);
    let list = store::records(m.chunks@, n, data, at);
    let counted = Index { counter: (before.counter + 1) as u64, ..before };
    laws::sound_whatever_the_counter(before, counted);
    laws::recording_all(counted, list, now);
    let known = Index { chunks: store::recorded(before.chunks, list, now), ..counted };
    let f = if i >= 0 {
        after.files[i]
    } else {
        after.files.last()
    };
    assert forall|k: int| #![trigger f.chunks[k]] 0 <= k < f.chunks.len() implies known.chunks.contains_key(
        f.chunks[k],
    ) by {
        laws::all_recorded(m.chunks@, n, data, at, k);
        if at.known.contains(m.chunks@[k].hash@) {
            assert(before.chunks.contains_key(m.chunks@[k].hash@));
        } else {
            let r = choose|r: int|
                0 <= r < list.len() && (#[trigger] list[r]).0 == m.chunks@[k].hash@;
            assert(known.chunks.contains_key(list[r].0));
        }
    }
    if i >= 0 {
        assert(after == refcount::with_file(known, i, f, now));
        laws::known_with_file(known, i, f, now);
    } else {
        assert(after == refcount::with_new_file(known, f));
        laws::known_with_new_file(known, f);
    }
}

/// A delivery is kept until its recipient has it: nothing that it is made of can
/// be released before.
pub proof fn law_a_delivery_is_kept_until_it_is_taken(ix: Index, i: int, h: Seq<u8>)
    requires
        0 <= i < ix.files.len(),
        ix.files[i].deleted_at is None,
        ix.files[i].scope is Some,
        !ix.files[i].materialised,
        forall|d: Seq<u8>| !#[trigger] ix.replicas.contains_key((ix.files[i].content_hash, d)),
        ix.files[i].chunks.contains(h),
    ensures
        !vault::releasable(ix, h),
{
    assert(!ix.replicas.contains_key((ix.files[i].content_hash, ix.files[i].scope->0)));
    assert(vault::needs_the_payload(ix, ix.files[i]));
}

/// A delivery is recorded as it was made: in the vault of the device it is for,
/// live, with the data's hash and length, made here and now, with the next count of
/// this device. Nothing of it is in the folder here. Whatever else has the path, in
/// the shared area or in another vault, stays as it is.
pub proof fn law_a_delivery_is_recorded_as_it_was_made(
    before: Index,
    key: Seq<u8>,
    path: Seq<char>,
    device: Seq<u8>,
    data: Seq<u8>,
    mtime_ns: i64,
    held: Seq<Seq<u8>>,
    now: i64,
    after: Index,
    stats: PutStats,
    sealed: Seq<Payload>,
)
    requires
        db::files_distinct(before.files),
        store::next_id(before.files) <= i64::MAX,
        before.counter < u64::MAX,
        data_sent(
            before,
            key,
            path,
            device,
            data,
            mtime_ns,
            held,
            now,
            after,
            stats,
            sealed,
        ),
    ensures
        exists|f: File| #[trigger]
            after.files.contains(f) && f.path == path && f.scope == Some(device),
        forall|f: File| #[trigger]
            after.files.contains(f) && f.path == path && f.scope == Some(device) ==> {
                &&& f.deleted_at is None
                &&& f.content_hash == digest::blake3_digest(data)
                &&& f.size == data.len()
                &&& f.mtime_ns == mtime_ns
                &&& f.updated_at == now
                &&& f.modified_by == Some(before.device)
                &&& clock::count(f.vector, before.device) == before.counter + 1
                &&& !f.materialised
                &&& !f.wanted
                &&& forall|g: File| #[trigger]
                    before.files.contains(g) && g.path == path && g.scope == Some(device) ==> {
                        &&& f.id == g.id
                        &&& f.created_at == g.created_at
                        &&& forall|d: Seq<u8>|
                            d != before.device ==> #[trigger] clock::count(f.vector, d)
                                == clock::count(g.vector, d)
                    }
            },
        forall|f: File|
            !(f.path == path && f.scope == Some(device)) ==> (#[trigger] after.files.contains(f)
                <==> before.files.contains(f)),
        after.counter == before.counter + 1,
        after.device == before.device,
        after.replicas == before.replicas,
        after.reported == before.reported,
        after.history == before.history,
        after.peers == before.peers,
        !stats.unchanged,
{
    let m = choose|m: Manifest|
        chunker::manifest_for(m, data) && #[trigger] sending_done(
            before,
            key,
            path,
            device,
            m,
            data,
            mtime_ns,
            held,
            now,
            after,
            stats,
            sealed,
        );
    let i = in_vault(before, path, device);
    db::find_finds(before.files, path, Some(device));
    let n = before.files.len() as int;
    let k = if i >= 0 {
        i
    } else {
        n
    };
    let f = after.files[k];
    assert(f.content_hash == digest::blake3_digest(data));
    if i >= 0 {
        assert(after.files == before.files.update(i, f));
        store::distinct_after_update(before.files, i, f);
    } else {
        assert(after.files == before.files.push(f));
        store::distinct_after_push(before.files, f);
    }
    assert(after.files.contains(f));
    assert forall|g: File| #[trigger]
        after.files.contains(g) && g.path == path && g.scope == Some(device) implies g == f by {
        let j = choose|j: int| 0 <= j < after.files.len() && after.files[j] == g;
        db::found_is_unique(after.files, j);
        db::found_is_unique(after.files, k);
    }
    assert forall|g: File| #[trigger]
        before.files.contains(g) && g.path == path && g.scope == Some(device) implies i >= 0 && g
        == before.files[i] by {
        let j = choose|j: int| 0 <= j < before.files.len() && before.files[j] == g;
        db::found_is_unique(before.files, j);
    }
    assert forall|g: File| !(g.path == path && g.scope == Some(device)) implies (
    #[trigger] after.files.contains(g) <==> before.files.contains(g)) by {
        if after.files.contains(g) {
            let j = choose|j: int| 0 <= j < after.files.len() && after.files[j] == g;
            assert(j != k);
            assert(before.files[j] == g);
        }
        if before.files.contains(g) {
            let j = choose|j: int| 0 <= j < before.files.len() && before.files[j] == g;
            assert(after.files[j] == g);
        }
    }
}

} // verus!
