//! Writing content down.

use vstd::prelude::*;

use super::chunker;
use super::chunker::{chunk_bytes, Manifest};
use super::db;
use super::db::{Db, File, FileRow, Index};
use super::error::{Error, Fault};
use super::promises;
use super::removal;
use super::sealing::ChunkKey;
use super::store;
use super::store::{Disk, Payload, Payloads, PutStats, Stamp};
use crate::digest;
use crate::sync::clock::{Counts, VersionVector};
use crate::sync::device::DeviceId;
use crate::sync::version::{Content, FileVersion, Held};

verus! {

/// Storing a buffer, chunked as it always is, leads to this.
pub open spec fn data_put(
    before: Index,
    key: Seq<u8>,
    path: Seq<char>,
    data: Seq<u8>,
    mtime_ns: i64,
    stamp: Stamp,
    payloads: Payloads,
    disk: Disk,
    now: i64,
    after: Index,
    stats: PutStats,
    sealed: Seq<Payload>,
) -> bool {
    exists|m: Manifest|
        chunker::manifest_for(m, data) && #[trigger] store::put_done(
            before,
            key,
            path,
            m,
            data,
            mtime_ns,
            stamp,
            payloads,
            disk,
            now,
            after,
            stats,
            sealed,
        )
}

/// The index once a path of the shared area has been stamped.
pub open spec fn versioned(
    ix: Index,
    path: Seq<char>,
    vector: Counts,
    by: Seq<u8>,
    at: i64,
) -> Index {
    let i = db::shared(ix, path);
    if i < 0 {
        ix
    } else {
        Index {
            files: ix.files.update(
                i,
                File { vector, modified_by: Some(by), updated_at: at, ..ix.files[i] },
            ),
            ..ix
        }
    }
}

impl Db {
    /// Chunks a buffer and records it.
    fn put_data(
        &mut self,
        key: &ChunkKey,
        path: &str,
        data: &[u8],
        mtime_ns: i64,
        stamp: Stamp<'_>,
        payloads: Payloads,
        disk: &Disk,
        now: i64,
    ) -> (result: Result<(PutStats, Vec<Payload>), Error>)
        requires
            old(self).wf(),
            data@.len() <= 0xff_ffff_ffff_ffff,
            old(self).counter < u64::MAX,
            store::next_id(old(self)@.files) <= i64::MAX,
        ensures
            final(self).wf(),
            match result {
                Ok((stats, sealed)) => data_put(
                    old(self)@,
                    key@,
                    path@,
                    data@,
                    mtime_ns,
                    stamp,
                    payloads,
                    *disk,
                    now,
                    final(self)@,
                    stats,
                    sealed@,
                ),
                Err(_) => false,
            },
            promises::holds_content(final(self)@.files, path@, digest::blake3_digest(data@)),
    {
        let ghost before = self@;
        let manifest: Manifest = chunk_bytes(data);
        assert(chunker::manifest_for(manifest, data@));
        let done: Result<(PutStats, Vec<Payload>), Error> = self.put_manifest(
            key,
            path,
            &manifest,
            data,
            mtime_ns,
            stamp,
            payloads,
            disk,
            now,
        );
        proof {
            if let Ok((stats, sealed)) = &done {
                promises::law_a_write_leaves_what_was_written(
                    before,
                    key@,
                    path@,
                    data@,
                    mtime_ns,
                    stamp,
                    payloads,
                    *disk,
                    now,
                    self@,
                    *stats,
                    sealed@,
                );
            }
        }
        done
    }

    /// Store a buffer under a logical path, as a change made here.
    pub fn put_bytes(
        &mut self,
        key: &ChunkKey,
        path: &str,
        data: &[u8],
        mtime_ns: i64,
        disk: &Disk,
        now: i64,
    ) -> (result: Result<(PutStats, Vec<Payload>), Error>)
        requires
            old(self).wf(),
            data@.len() <= 0xff_ffff_ffff_ffff,
            old(self).counter < u64::MAX,
            store::next_id(old(self)@.files) <= i64::MAX,
        ensures
            final(self).wf(),
            match result {
                Ok((stats, sealed)) => data_put(
                        old(self)@,
                        key@,
                        path@,
                        data@,
                        mtime_ns,
                        Stamp::Local,
                        Payloads::TrustIndex,
                        *disk,
                        now,
                        final(self)@,
                        stats,
                        sealed@,
                    ),
                Err(_) => false,
            },
            promises::holds_content(final(self)@.files, path@, digest::blake3_digest(data@)),
    {
        self.put_data(
            key,
            path,
            data,
            mtime_ns,
            Stamp::Local,
            Payloads::TrustIndex,
            disk,
            now,
        )
    }

    /// Take on a version decided elsewhere, keeping the vector it arrived with.
    ///
    /// `data` is required for content and ignored for a tombstone.
    pub fn adopt(
        &mut self,
        key: &ChunkKey,
        version: &FileVersion,
        data: Option<&[u8]>,
        mtime_ns: i64,
        disk: &Disk,
        now: i64,
    ) -> (result: Result<(PutStats, Vec<Payload>), Error>)
        requires
            old(self).wf(),
            data matches Some(d) ==> d@.len() <= 0xff_ffff_ffff_ffff,
            old(self).counter < u64::MAX,
            store::next_id(old(self)@.files) <= i64::MAX,
        ensures
            final(self).wf(),
            result is Ok ==> promises::is_taken_on(final(self)@.files, version@),
            match version@.content {
                Held::Deleted => {
                    &&& final(self)@ == removal::tombstoned(
                        old(self)@,
                        version@.path,
                        Stamp::Remote(version),
                        now,
                    )
                    &&& result matches Ok((stats, sealed)) && sealed@.len() == 0 && stats == (
                    PutStats {
                        chunks_total: 0,
                        chunks_written: 0,
                        bytes_written: 0,
                        bytes_deduplicated: 0,
                        unchanged: false,
                    })
                },
                Held::File { .. } => match data {
                    None => {
                        &&& final(self)@ == old(self)@
                        &&& result matches Err(e) && e@ == (Fault::NotFound {
                            path: version@.path + " (no content supplied)"@,
                        })
                    },
                    Some(d) => match result {
                        Ok((stats, sealed)) => data_put(
                                old(self)@,
                                key@,
                                version@.path,
                                d@,
                                mtime_ns,
                                Stamp::Remote(version),
                                Payloads::TrustIndex,
                                *disk,
                                now,
                                final(self)@,
                                stats,
                                sealed@,
                            ),
                        Err(_) => false,
                    },
                },
            },
    {
        let ghost before = self@;
        match version.content {
            Content::Deleted => {
                self.tombstone(version.path.as_str(), &Stamp::Remote(version), now);
                proof {
                    promises::law_an_adopted_deletion_is_the_version_held(before, *version, now);
                }
                Ok((PutStats::default(), Vec::new()))
            },
            Content::File { .. } => match data {
                None => Err(
                    Error::NotFound { path: version.path.clone().concat(" (no content supplied)") },
                ),
                Some(d) => {
                    let done: Result<(PutStats, Vec<Payload>), Error> = self.put_data(
                        key,
                        version.path.as_str(),
                        d,
                        mtime_ns,
                        Stamp::Remote(version),
                        Payloads::TrustIndex,
                        disk,
                        now,
                    );
                    proof {
                        if let Ok((stats, sealed)) = &done {
                            promises::law_an_adopted_version_is_the_version_held(
                                before,
                                key@,
                                *version,
                                d@,
                                mtime_ns,
                                Payloads::TrustIndex,
                                *disk,
                                now,
                                self@,
                                *stats,
                                sealed@,
                            );
                        }
                    }
                    done
                },
            },
        }
    }

    /// Write a file's payloads back, whatever the index currently believes.
    ///
    /// For repair only: it has just thrown a payload away on purpose, and needs
    /// the write to happen anyway.
    pub fn rewrite_payloads(
        &mut self,
        key: &ChunkKey,
        version: &FileVersion,
        data: &[u8],
        mtime_ns: i64,
        disk: &Disk,
        now: i64,
    ) -> (result: Result<(PutStats, Vec<Payload>), Error>)
        requires
            old(self).wf(),
            data@.len() <= 0xff_ffff_ffff_ffff,
            old(self).counter < u64::MAX,
            store::next_id(old(self)@.files) <= i64::MAX,
        ensures
            final(self).wf(),
            match result {
                Ok((stats, sealed)) => data_put(
                        old(self)@,
                        key@,
                        version@.path,
                        data@,
                        mtime_ns,
                        Stamp::Remote(version),
                        Payloads::Rewrite,
                        *disk,
                        now,
                        final(self)@,
                        stats,
                        sealed@,
                    ),
                Err(_) => false,
            },
    {
        self.put_data(
            key,
            version.path.as_str(),
            data,
            mtime_ns,
            Stamp::Remote(version),
            Payloads::Rewrite,
            disk,
            now,
        )
    }

    /// Record a version vector without touching content.
    ///
    /// The case this exists for: two devices reached the same bytes
    /// independently. Nothing needs to move, but leaving the versions concurrent
    /// would make the next edit on either side raise a conflict over content
    /// that never disagreed.
    pub fn merge_version(&mut self, version: &FileVersion)
        requires
            old(self).wf(),
        ensures
            final(self).wf(),
            final(self)@ == versioned(
                old(self)@,
                version@.path,
                version@.vector,
                version@.modified_by,
                version@.modified_at,
            ),
    {
        self.set_version(
            version.path.as_str(),
            &version.vector,
            &version.modified_by,
            version.modified_at,
        )
    }

    /// Stamp a path with a version vector.
    pub fn set_version(
        &mut self,
        path: &str,
        vector: &VersionVector,
        modified_by: &DeviceId,
        modified_at: i64,
    )
        requires
            old(self).wf(),
        ensures
            final(self).wf(),
            final(self)@ == versioned(old(self)@, path@, vector@, modified_by@, modified_at),
    {
        proof {
            db::find_finds(self@.files, path@, None);
        }
        match self.position(path, &None) {
            None => {},
            Some(i) => {
                let mut row: FileRow = self.copy_row(i);
                row.vector = vector.clone();
                row.modified_by = Some(*modified_by);
                row.updated_at = modified_at;
                self.retouch(i, row);
            },
        }
    }
}

} // verus!
