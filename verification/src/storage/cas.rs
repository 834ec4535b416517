//! Where chunk payloads lie on disk.
//!
//! Deliberately dumb: it gives each payload a path derived from its hash, and
//! reads hashes back out of file names. It does not know that the bytes are
//! encrypted, and it does not verify them.

use vstd::prelude::*;

use super::chunker::ContentHash;
use crate::text;
use crate::text::{bytes_of_hex, chars_of, hex_of, path_under};

verus! {

/// A chunk store rooted at a directory.
pub struct Cas {
    root: String,
}

impl Cas {
    pub closed spec fn root_path(&self) -> Seq<char> {
        self.root@
    }

    pub fn new(root: &str) -> (cas: Self)
        ensures
            cas.root_path() == root@,
    {
        Cas { root: root.to_owned() }
    }

    pub fn root(&self) -> (root: &str)
        ensures
            root@ == self.root_path(),
    {
        &self.root
    }

    /// `<root>/<first 2 hex>`, the directory that a chunk lies in.
    ///
    /// The two-character fan-out caps any single directory at roughly 1/256th
    /// of the chunk population.
    pub fn shard_for(&self, hash: &ContentHash) -> (path: String)
        ensures
            path@ == text::path_joined(self.root_path(), text::hex(hash@).take(2)),
    {
        let head: [u8; 1] = [hash[0]];
        let two: String = hex_of(&head);
        assert(two@ =~= text::hex(hash@).take(2)) by {
            assert(head@ =~= hash@.take(1));
            text::hex_of_prefix(hash@, 1);
        }
        path_under(&self.root, &two)
    }

    /// `<root>/<first 2 hex>/<full hex>`.
    pub fn path_for(&self, hash: &ContentHash) -> (path: String)
        ensures
            path@ == text::path_joined(
                text::path_joined(self.root_path(), text::hex(hash@).take(2)),
                text::hex(hash@),
            ),
    {
        path_under(&self.shard_for(hash), &hex_of(hash))
    }

    /// Where a payload is written before it is moved into place, so a crash
    /// mid-write cannot leave a partial payload at a path that claims to
    /// describe it.
    pub fn temp_for(&self, hash: &ContentHash) -> (path: String)
        ensures
            path@ == text::path_joined(
                text::path_joined(self.root_path(), text::hex(hash@).take(2)),
                "."@ + text::hex(hash@) + ".tmp"@,
            ),
    {
        let name: String = ".".to_owned().concat(&hex_of(hash)).concat(".tmp");
        path_under(&self.shard_for(hash), &name)
    }
}

/// The hash that a file in the chunk store is named by, if it is one. A name
/// that starts with a dot is an interrupted write's temporary file.
pub fn hash_named(name: &str) -> (hash: Option<ContentHash>)
    ensures
        match hash {
            Some(h) => {
                &&& !(name@.len() > 0 && name@[0] == '.')
                &&& text::is_hex(name@)
                &&& text::hex(h@) == text::lowered(name@)
            },
            None => (name@.len() > 0 && name@[0] == '.') || !text::is_hex(name@),
        },
{
    let chars: Vec<char> = chars_of(name);
    if chars.len() > 0 && chars[0] == '.' {
        return None;
    }
    match parse_hash(name) {
        Ok(hash) => Some(hash),
        Err(_) => None,
    }
}

/// A hash from 64 hexadecimal digits.
pub fn parse_hash(hex: &str) -> (result: Result<ContentHash, ()>)
    ensures
        match result {
            Ok(hash) => text::is_hex(hex@) && text::hex(hash@) == text::lowered(hex@),
            Err(_) => !text::is_hex(hex@),
        },
{
    let digits: Vec<char> = chars_of(hex);
    match bytes_of_hex(&digits) {
        Some(hash) => Ok(hash),
        None => Err(()),
    }
}

/// A walk over the chunk store finds each chunk by the name that it was stored
/// under, and takes an interrupted write's temporary file for none.
pub proof fn law_a_chunk_is_found_by_its_name(hash: Seq<u8>, found: Seq<u8>)
    requires
        hash.len() == 32,
    ensures
        ({
            let name = text::hex(hash);
            &&& name.len() > 0 && name[0] != '.'
            &&& text::is_hex(name)
            &&& text::hex(found) == text::lowered(name) ==> found == hash
            &&& ("."@ + name + ".tmp"@)[0] == '.'
        }),
{
    let name = text::hex(hash);
    text::hex_is_lower(hash);
    reveal_strlit(".");
    assert(name[0] == text::hex_digit(hash[0] as int / 16));
    if text::hex(found) == text::lowered(name) {
        text::hex_of_unique(hash, found);
    }
}

} // verus!
