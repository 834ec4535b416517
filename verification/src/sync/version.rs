//! What a device believes about one file.

use vstd::prelude::*;

use super::clock::{Counts, VersionVector};
use super::device::DeviceId;
use crate::order::same_bytes;

verus! {

/// What a path currently holds.
#[derive(Debug, Clone, Copy, PartialEq, Eq)]
pub enum Content {
    File {
        /// BLAKE3 of the whole file, which is also what identifies the version.
        hash: [u8; 32],
        size: u64,
    },
    /// A tombstone.
    ///
    /// Deletion has to be recorded rather than inferred. The absence of a file
    /// is not self-describing: without a tombstone a peer cannot tell "deleted"
    /// from "not received yet", and would helpfully restore it.
    Deleted,
}

/// What a path holds, as values.
pub enum Held {
    File { hash: Seq<u8>, size: u64 },
    Deleted,
}

impl View for Content {
    type V = Held;

    open spec fn view(&self) -> Held {
        match *self {
            Content::File { hash, size } => Held::File { hash: hash@, size },
            Content::Deleted => Held::Deleted,
        }
    }
}

impl Content {
    pub fn is_deleted(&self) -> (deleted: bool)
        ensures
            deleted == (self@ is Deleted),
    {
        matches!(self, Content::Deleted)
    }

    pub fn hash(&self) -> (hash: Option<&[u8; 32]>)
        ensures
            match hash {
                Some(h) => self@ matches Held::File { hash: held, .. } && h@ == held,
                None => self@ is Deleted,
            },
    {
        match self {
            Content::File { hash, .. } => Some(hash),
            Content::Deleted => None,
        }
    }

    /// Whether the two hold the same bytes.
    fn same(&self, other: &Self) -> (same: bool)
        ensures
            same == (self@ == other@),
    {
        match (self, other) {
            (
                Content::File { hash: a, size: m },
                Content::File { hash: b, size: n },
            ) => same_bytes(a, b) && *m == *n,
            (Content::Deleted, Content::Deleted) => true,
            _ => false,
        }
    }
}

/// One device's view of one path.
#[derive(Debug, PartialEq, Eq)]
pub struct FileVersion {
    pub path: String,
    pub content: Content,
    pub vector: VersionVector,
    /// Which device made this change. Used for conflict filenames and for
    /// explaining to a user where a version came from.
    pub modified_by: DeviceId,
    /// Wall-clock time of the change, in unix seconds.
    ///
    /// **Never used to order versions.** Device clocks disagree, sometimes by
    /// a lot, and ordering by wall clock would let a device with a wrong clock
    /// win or lose every conflict systematically. Ordering is the version
    /// vector's job. This is for display and for conflict filenames only, and
    /// tells two records of one device apart that hold the same content.
    pub modified_at: i64,
}

/// One device's view of one path, as values.
pub struct Version {
    pub path: Seq<char>,
    pub content: Held,
    pub vector: Counts,
    pub modified_by: Seq<u8>,
    pub modified_at: i64,
}

impl View for FileVersion {
    type V = Version;

    open spec fn view(&self) -> Version {
        Version {
            path: self.path@,
            content: self.content@,
            vector: self.vector@,
            modified_by: self.modified_by@,
            modified_at: self.modified_at,
        }
    }
}

impl Clone for FileVersion {
    fn clone(&self) -> (out: Self)
        ensures
            out@ == self@,
    {
        FileVersion {
            path: self.path.clone(),
            content: self.content,
            vector: self.vector.clone(),
            modified_by: self.modified_by,
            modified_at: self.modified_at,
        }
    }
}

impl FileVersion {
    pub fn file(
        path: &str,
        hash: [u8; 32],
        size: u64,
        vector: VersionVector,
        modified_by: DeviceId,
        modified_at: i64,
    ) -> (version: Self)
        ensures
            version@ == (Version {
                path: path@,
                content: Held::File { hash: hash@, size },
                vector: vector@,
                modified_by: modified_by@,
                modified_at,
            }),
    {
        FileVersion {
            path: path.to_owned(),
            content: Content::File { hash, size },
            vector,
            modified_by,
            modified_at,
        }
    }

    pub fn tombstone(
        path: &str,
        vector: VersionVector,
        modified_by: DeviceId,
        modified_at: i64,
    ) -> (version: Self)
        ensures
            version@ == (Version {
                path: path@,
                content: Held::Deleted,
                vector: vector@,
                modified_by: modified_by@,
                modified_at,
            }),
    {
        FileVersion {
            path: path.to_owned(),
            content: Content::Deleted,
            vector,
            modified_by,
            modified_at,
        }
    }

    pub fn is_deleted(&self) -> (deleted: bool)
        ensures
            deleted == (self@.content is Deleted),
    {
        self.content.is_deleted()
    }

    /// Whether two versions hold the same bytes, regardless of history.
    ///
    /// Two devices can reach identical content independently: the same file
    /// copied into place on each. That is not a conflict even though the
    /// vectors are concurrent.
    pub fn same_content(&self, other: &Self) -> (same: bool)
        ensures
            same == (self@.content == other@.content),
    {
        self.content.same(&other.content)
    }
}

} // verus!
