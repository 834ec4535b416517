//! What can go wrong in storage.

use vstd::prelude::*;

verus! {

#[derive(Debug, Clone, PartialEq, Eq)]
pub enum Error {
    /// Reading or writing failed, and why.
    Io { path: String, why: String },
    /// The index refused a change.
    Db { detail: String },
    /// A chunk's payload did not hash to the name it was stored under. Either
    /// the disk corrupted it or something wrote the wrong bytes.
    ChunkCorrupt { hash: String },
    /// The index references a chunk that is not on disk. This is the failure
    /// mode garbage collection must never cause.
    ChunkMissing { hash: String },
    /// Wrong key or tampered data.
    Decrypt { hash: String },
    ChunkFormat { hash: String, detail: String },
    NotFound { path: String },
    Corrupt { detail: String },
    /// Dropping this file's bytes would destroy them. Refused rather than
    /// risked: a storage cap is a promise about disk, not about data.
    CannotEvict { path: String, why: String },
}

/// What can go wrong in storage, as values.
pub enum Fault {
    Io { path: Seq<char>, why: Seq<char> },
    Db { detail: Seq<char> },
    ChunkCorrupt { hash: Seq<char> },
    ChunkMissing { hash: Seq<char> },
    Decrypt { hash: Seq<char> },
    ChunkFormat { hash: Seq<char>, detail: Seq<char> },
    NotFound { path: Seq<char> },
    Corrupt { detail: Seq<char> },
    CannotEvict { path: Seq<char>, why: Seq<char> },
}

impl View for Error {
    type V = Fault;

    open spec fn view(&self) -> Fault {
        match *self {
            Error::Io { path, why } => Fault::Io { path: path@, why: why@ },
            Error::Db { detail } => Fault::Db { detail: detail@ },
            Error::ChunkCorrupt { hash } => Fault::ChunkCorrupt { hash: hash@ },
            Error::ChunkMissing { hash } => Fault::ChunkMissing { hash: hash@ },
            Error::Decrypt { hash } => Fault::Decrypt { hash: hash@ },
            Error::ChunkFormat { hash, detail } => Fault::ChunkFormat {
                hash: hash@,
                detail: detail@,
            },
            Error::NotFound { path } => Fault::NotFound { path: path@ },
            Error::Corrupt { detail } => Fault::Corrupt { detail: detail@ },
            Error::CannotEvict { path, why } => Fault::CannotEvict { path: path@, why: why@ },
        }
    }
}

impl Error {
    /// The error as a sentence.
    pub fn to_string(&self) -> (text: String)
        ensures
            text@ == (match self@ {
                Fault::Io { path, why } => "io error at "@ + path + ": "@ + why,
                Fault::Db { detail } => "database error: "@ + detail,
                Fault::ChunkCorrupt { hash } => "chunk "@ + hash + " failed integrity check"@,
                Fault::ChunkMissing { hash } => "chunk "@ + hash
                    + " referenced by the index but missing from the store"@,
                Fault::Decrypt { hash } => "decryption failed for chunk "@ + hash
                    + " (wrong key or tampered data)"@,
                Fault::ChunkFormat { hash, detail } => "unrecognised chunk format in "@ + hash
                    + ": "@ + detail,
                Fault::NotFound { path } => "no such file in index: "@ + path,
                Fault::Corrupt { detail } => "index is corrupt: "@ + detail,
                Fault::CannotEvict { path, why } => "cannot drop "@ + path + ": "@ + why,
            }),
    {
        match self {
            Error::Io { path, why } => "io error at ".to_owned().concat(path).concat(": ").concat(
                why,
            ),
            Error::Db { detail } => "database error: ".to_owned().concat(detail),
            Error::ChunkCorrupt { hash } => "chunk ".to_owned().concat(hash).concat(
                " failed integrity check",
            ),
            Error::ChunkMissing { hash } => "chunk ".to_owned().concat(hash).concat(
                " referenced by the index but missing from the store",
            ),
            Error::Decrypt { hash } => "decryption failed for chunk ".to_owned().concat(
                hash,
            ).concat(" (wrong key or tampered data)"),
            Error::ChunkFormat { hash, detail } => "unrecognised chunk format in ".to_owned().concat(
                hash,
            ).concat(": ").concat(detail),
            Error::NotFound { path } => "no such file in index: ".to_owned().concat(path),
            Error::Corrupt { detail } => "index is corrupt: ".to_owned().concat(detail),
            Error::CannotEvict { path, why } => "cannot drop ".to_owned().concat(path).concat(
                ": ",
            ).concat(why),
        }
    }
}

} // verus!
