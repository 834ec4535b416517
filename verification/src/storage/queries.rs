//! What can be asked of the index.

use vstd::prelude::*;

use super::chunker::ContentHash;
use super::db;
use super::db::{ChunkFacts, Db, File, FileRow, Index};
use super::listing;
use super::listing::{By, Which};
use super::promises;
use super::removal;
use super::store::copy_list;
use crate::order;
use crate::order::same_bytes;
use crate::sync::device::DeviceId;
use crate::sync::version::{Content, FileVersion, Held, Version};
use crate::text;
use crate::text::{chars_of, lower_of, same_text, string_of};

verus! {

/// Texts, as values.
pub open spec fn texts(s: Seq<String>) -> Seq<Seq<char>> {
    Seq::new(s.len(), |i: int| s[i]@)
}

/// Each text comes strictly before the next.
pub open spec fn ascending(s: Seq<Seq<char>>) -> bool {
    forall|i: int, j: int|
        #![trigger s[i], s[j]]
        0 <= i < j < s.len() ==> order::text_precedes(s[i], s[j])
}

/// The paths of the files that a question is about: each once, in order.
pub open spec fn are_paths(ix: Index, which: Which, list: Seq<Seq<char>>) -> bool {
    &&& ascending(list)
    &&& forall|p: Seq<char>| #[trigger]
        list.contains(p) <==> exists|i: int|
            0 <= i < ix.files.len() && listing::meant(ix, which, #[trigger] ix.files[i])
                && ix.files[i].path == p
}

/// A text without the characters `c` at its end.
pub open spec fn trimmed_end(s: Seq<char>, c: char) -> Seq<char>
    decreases s.len(),
{
    if s.len() > 0 && s.last() == c {
        trimmed_end(s.drop_last(), c)
    } else {
        s
    }
}

/// What stands before everything in a directory.
fn directory_prefix(path: &str) -> (prefix: String)
    ensures
        prefix@ == trimmed_end(path@, '/').push('/'),
{
    let chars: Vec<char> = chars_of(path);
    let mut n: usize = chars.len();
    assert(chars@.take(n as int) =~= chars@);
    while n > 0 && chars[n - 1] == '/'
        invariant
            n <= chars@.len(),
            chars@ == path@,
            trimmed_end(path@, '/') == trimmed_end(chars@.take(n as int), '/'),
        decreases n,
    {
        assert(chars@.take(n as int).drop_last() =~= chars@.take(n - 1));
        n -= 1;
    }
    let mut prefix: String = string_of(chars.as_slice(), 0, n);
    assert(chars@.subrange(0, n as int) =~= chars@.take(n as int));
    prefix.push('/');
    prefix
}

/// What the index says of a file's version. A file nobody is known to have
/// changed is attributed to the all-zero device, which reads as "unknown".
pub open spec fn version_of(f: File) -> Version {
    Version {
        path: f.path,
        content: if f.deleted_at is Some {
            Held::Deleted
        } else {
            Held::File { hash: f.content_hash, size: f.size }
        },
        vector: f.vector,
        modified_by: match f.modified_by {
            Some(d) => d,
            None => removal::no_hash(),
        },
        modified_at: f.updated_at,
    }
}

fn row_to_version(row: &FileRow) -> (version: FileVersion)
    ensures
        version@ == version_of(row@),
        promises::tells(version@, row@),
{
    let content: Content = if row.deleted_at.is_some() {
        Content::Deleted
    } else {
        Content::File { hash: row.content_hash, size: row.size }
    };
    let modified_by: DeviceId = match row.modified_by {
        Some(d) => d,
        None => {
            let zero: [u8; 32] = [0u8; 32];
            assert(zero@ =~= removal::no_hash());
            DeviceId::from_bytes(zero)
        },
    };
    FileVersion {
        path: row.path.clone(),
        content,
        vector: row.vector.clone(),
        modified_by,
        modified_at: row.updated_at,
    }
}

impl Db {
    /// The paths that a question is about.
    fn paths(&self, which: &Which<'_>) -> (list: Vec<String>)
        requires
            self.wf(),
        ensures
            are_paths(self@, *which, texts(list@)),
    {
        let ghost ix = self@;
        let picks: Vec<usize> = self.listing(which, By::Path);
        let mut list: Vec<String> = Vec::new();
        let mut k: usize = 0;
        while k < picks.len()
            invariant
                k <= picks@.len(),
                ix == self@,
                listing::is_listing(ix, *which, By::Path, picks@),
                k == 0 <==> list@.len() == 0,
                k > 0 ==> list@[list@.len() - 1]@ == ix.files[picks@[k - 1] as int].path,
                ascending(texts(list@)),
                forall|n: int|
                    #![trigger texts(list@)[n]]
                    0 <= n < list@.len() ==> exists|l: int|
                        0 <= l < k && ix.files[#[trigger] picks@[l] as int].path == texts(
                            list@,
                        )[n],
                forall|l: int|
                    #![trigger picks@[l]]
                    0 <= l < k ==> texts(list@).contains(ix.files[picks@[l] as int].path),
            decreases picks@.len() - k,
        {
            let i: usize = picks[k];
            let ghost before = texts(list@);
            assert(ix.files[i as int] == self.files@[i as int]@);
            let n: usize = list.len();
            let again: bool = n > 0 && same_text(
                list[n - 1].as_str(),
                self.files[i].path.as_str(),
            );
            if !again {
                list.push(self.files[i].path.clone());
                proof {
                    let path = ix.files[i as int].path;
                    let after = texts(list@);
                    assert(after =~= before.push(path));
                    if k > 0 {
                        let last = ix.files[picks@[k - 1] as int].path;
                        assert(before[n - 1] == last);
                        assert(!listing::ahead(
                            By::Path,
                            ix.files[picks@[k as int] as int],
                            ix.files[picks@[k - 1] as int],
                        ));
                        order::text_order(last, path, path);
                        assert forall|a: int, b: int|
                            #![trigger after[a], after[b]]
                            0 <= a < b < after.len() implies order::text_precedes(
                            after[a],
                            after[b],
                        ) by {
                            if b < n {
                                assert(order::text_precedes(before[a], before[b]));
                            } else if a < n - 1 {
                                assert(order::text_precedes(before[a], before[n - 1]));
                                order::text_order(before[a], last, path);
                            }
                        }
                    }
                    assert forall|l: int| #![trigger picks@[l]] 0 <= l < k + 1 implies after.contains(
                        ix.files[picks@[l] as int].path,
                    ) by {
                        if l < k {
                            let m = choose|m: int|
                                0 <= m < before.len() && before[m]
                                    == ix.files[picks@[l] as int].path;
                            assert(after[m] == before[m]);
                        } else {
                            assert(after[n as int] == path);
                        }
                    }
                    assert forall|m: int| #![trigger after[m]] 0 <= m < list@.len() implies exists|
                        l: int,
                    |
                        0 <= l < k + 1 && ix.files[#[trigger] picks@[l] as int].path == after[m] by {
                        if m < n {
                            assert(after[m] == before[m]);
                            let l = choose|l: int|
                                0 <= l < k && ix.files[#[trigger] picks@[l] as int].path
                                    == before[m];
                            assert(ix.files[picks@[l] as int].path == after[m]);
                        } else {
                            assert(ix.files[picks@[k as int] as int].path == after[m]);
                        }
                    }
                }
            } else {
                assert(before[n - 1] == ix.files[picks@[k as int] as int].path);
            }
            k += 1;
        }
        let len: usize = self.files.len();
        proof {
            assert(ix.files.len() == len);
            let all = texts(list@);
            assert forall|p: Seq<char>| #[trigger] all.contains(p) <==> exists|i: int|
                0 <= i < ix.files.len() && listing::meant(ix, *which, #[trigger] ix.files[i])
                    && ix.files[i].path == p by {
                if all.contains(p) {
                    let n = choose|n: int| 0 <= n < all.len() && all[n] == p;
                    let l = choose|l: int|
                        0 <= l < k && ix.files[#[trigger] picks@[l] as int].path == all[n];
                    assert(listing::meant(ix, *which, ix.files[picks@[l] as int]));
                }
                if exists|i: int|
                    0 <= i < ix.files.len() && listing::meant(ix, *which, #[trigger] ix.files[i])
                        && ix.files[i].path == p {
                    let i = choose|i: int|
                        0 <= i < ix.files.len() && listing::meant(
                            ix,
                            *which,
                            #[trigger] ix.files[i],
                        ) && ix.files[i].path == p;
                    assert(picks@.contains(i as usize));
                    let l = choose|l: int| 0 <= l < picks@.len() && picks@[l] == i as usize;
                    assert(all.contains(ix.files[picks@[l] as int].path));
                }
            }
        }
        list
    }

    /// Live paths of the shared area.
    pub fn live_paths(&self) -> (list: Vec<String>)
        requires
            self.wf(),
        ensures
            are_paths(self@, Which::Live, texts(list@)),
    {
        self.paths(&Which::Live)
    }

    /// Live paths at or beneath `prefix`, treated as a directory.
    ///
    /// A filesystem watcher reporting a removal cannot say whether the path was
    /// a file or a directory: it is gone either way. The index is what
    /// remembers, so removal is resolved by asking what used to live there.
    ///
    /// The trailing separator matters: a prefix of `docs` must match
    /// `docs/notes.txt` but not `docstring.md`.
    pub fn live_paths_under(&self, prefix: &str) -> (list: Vec<String>)
        requires
            self.wf(),
        ensures
            ascending(texts(list@)),
            forall|p: Seq<char>| #[trigger]
                texts(list@).contains(p) <==> exists|i: int|
                    0 <= i < self@.files.len() && listing::meant(
                        self@,
                        Which::Live,
                        #[trigger] self@.files[i],
                    ) && self@.files[i].path == p && (p == prefix@ || text::has_prefix(
                        p,
                        trimmed_end(prefix@, '/').push('/'),
                    )),
    {
        let under: String = directory_prefix(prefix);
        self.paths(&Which::Under(prefix, under.as_str()))
    }

    /// Live paths whose bytes this device has dropped.
    pub fn evicted_paths(&self) -> (list: Vec<String>)
        requires
            self.wf(),
        ensures
            are_paths(self@, Which::Evicted, texts(list@)),
    {
        self.paths(&Which::Evicted)
    }

    /// Paths asked for that this device is not holding yet.
    pub fn wanted_paths(&self) -> (list: Vec<String>)
        requires
            self.wf(),
        ensures
            are_paths(self@, Which::Wanted, texts(list@)),
    {
        self.paths(&Which::Wanted)
    }

    /// Live paths that would be damaged by the loss of one chunk.
    pub fn live_paths_using_chunk(&self, hash: &ContentHash) -> (list: Vec<String>)
        requires
            self.wf(),
        ensures
            are_paths(self@, Which::Using(hash), texts(list@)),
    {
        self.paths(&Which::Using(hash))
    }

    /// Live files this device could drop the bytes of, coldest first: path, size
    /// and content.
    pub fn evictable(&self) -> (list: Vec<(String, u64, ContentHash)>)
        requires
            self.wf(),
        ensures
            exists|picks: Seq<usize>| #[trigger]
                listing::is_listing(self@, Which::Evictable, By::Coldest, picks) && list@.len()
                    == picks.len() && forall|k: int|
                    #![trigger list@[k]]
                    0 <= k < list@.len() ==> {
                        let f = self@.files[picks[k] as int];
                        list@[k].0@ == f.path && list@[k].1 == f.size && list@[k].2@
                            == f.content_hash
                    },
    {
        let picks: Vec<usize> = self.listing(&Which::Evictable, By::Coldest);
        let mut list: Vec<(String, u64, ContentHash)> = Vec::new();
        let mut k: usize = 0;
        while k < picks.len()
            invariant
                k <= picks@.len(),
                list@.len() == k,
                listing::is_listing(self@, Which::Evictable, By::Coldest, picks@),
                forall|j: int|
                    #![trigger list@[j]]
                    0 <= j < k ==> {
                        let f = self@.files[picks@[j] as int];
                        list@[j].0@ == f.path && list@[j].1 == f.size && list@[j].2@
                            == f.content_hash
                    },
            decreases picks@.len() - k,
        {
            assert(picks@[k as int] < self@.files.len());
            let f: &FileRow = &self.files[picks[k]];
            assert(self@.files[picks@[k as int] as int] == f@);
            list.push((f.path.clone(), f.size, f.content_hash));
            k += 1;
        }
        list
    }

    /// Live files this device made that no other device is known to hold, newest
    /// first: path and size.
    ///
    /// A file counts as outstanding while this device is the only known holder
    /// of its content, which is exactly the condition under which losing this
    /// device would lose the file.
    pub fn undelivered(&self) -> (list: Vec<(String, u64)>)
        requires
            self.wf(),
        ensures
            exists|picks: Seq<usize>| #[trigger]
                listing::is_listing(self@, Which::Undelivered, By::Newest, picks) && list@.len()
                    == picks.len() && forall|k: int|
                    #![trigger list@[k]]
                    0 <= k < list@.len() ==> {
                        let f = self@.files[picks[k] as int];
                        list@[k].0@ == f.path && list@[k].1 == f.size
                    },
    {
        let picks: Vec<usize> = self.listing(&Which::Undelivered, By::Newest);
        let mut list: Vec<(String, u64)> = Vec::new();
        let mut k: usize = 0;
        while k < picks.len()
            invariant
                k <= picks@.len(),
                list@.len() == k,
                listing::is_listing(self@, Which::Undelivered, By::Newest, picks@),
                forall|j: int|
                    #![trigger list@[j]]
                    0 <= j < k ==> {
                        let f = self@.files[picks@[j] as int];
                        list@[j].0@ == f.path && list@[j].1 == f.size
                    },
            decreases picks@.len() - k,
        {
            assert(picks@[k as int] < self@.files.len());
            let f: &FileRow = &self.files[picks[k]];
            assert(self@.files[picks@[k as int] as int] == f@);
            list.push((f.path.clone(), f.size));
            k += 1;
        }
        list
    }

    /// The versions of the files that a question is about, by path.
    pub(crate) fn versions(&self, which: &Which<'_>) -> (list: Vec<FileVersion>)
        requires
            self.wf(),
        ensures
            are_versions(self@, *which, version_views(list@)),
    {
        let picks: Vec<usize> = self.listing(which, By::Path);
        let mut list: Vec<FileVersion> = Vec::new();
        let mut k: usize = 0;
        while k < picks.len()
            invariant
                k <= picks@.len(),
                list@.len() == k,
                listing::is_listing(self@, *which, By::Path, picks@),
                forall|j: int|
                    #![trigger list@[j]]
                    0 <= j < k ==> list@[j]@ == version_of(self@.files[picks@[j] as int]),
            decreases picks@.len() - k,
        {
            assert(picks@[k as int] < self@.files.len());
            let f: &FileRow = &self.files[picks[k]];
            assert(self@.files[picks@[k as int] as int] == f@);
            list.push(row_to_version(f));
            k += 1;
        }
        assert(version_views(list@).len() == picks@.len());
        list
    }

    /// Every path this device knows about, tombstones included.
    ///
    /// Tombstones are part of the answer, not noise. A peer that is not told
    /// about a deletion still has the file, offers it back, and the deletion
    /// undoes itself.
    pub fn all_versions(&self) -> (list: Vec<FileVersion>)
        requires
            self.wf(),
        ensures
            are_versions(self@, Which::All, version_views(list@)),
    {
        self.versions(&Which::All)
    }

    /// The row of a path in the shared area, tombstones included.
    pub fn file_by_path(&self, path: &str) -> (row: Option<FileRow>)
        ensures
            match row {
                Some(r) => db::shared(self@, path@) >= 0 && r@ == self@.files[db::shared(
                    self@,
                    path@,
                )],
                None => db::shared(self@, path@) < 0,
            },
    {
        match self.position(path, &None) {
            Some(i) => Some(self.copy_row(i)),
            None => None,
        }
    }

    /// The chunks that make up the file with a number, in order; none where there
    /// is no such file.
    pub fn chunk_hashes_for(&self, id: i64) -> (list: Vec<ContentHash>)
        requires
            self.wf(),
        ensures
            forall|i: int|
                #![trigger self@.files[i]]
                0 <= i < self@.files.len() && self@.files[i].id == id ==> db::hashes(list@)
                    == self@.files[i].chunks,
            (forall|i: int|
                #![trigger self@.files[i]]
                0 <= i < self@.files.len() ==> self@.files[i].id != id) ==> list@.len() == 0,
    {
        let ghost all = self@.files;
        let mut i: usize = 0;
        while i < self.files.len()
            invariant
                i <= self.files@.len(),
                self.wf(),
                all == self@.files,
                forall|j: int| #![trigger all[j]] 0 <= j < i ==> all[j].id != id,
            decreases self.files@.len() - i,
        {
            assert(all[i as int] == self.files@[i as int]@);
            if self.files[i].id == id {
                let list: Vec<ContentHash> = copy_list(&self.files[i].chunks);
                assert forall|j: int|
                    #![trigger all[j]]
                    0 <= j < all.len() && all[j].id == id implies j == i by {
                    if j > i {
                        assert(all[i as int].id < all[j].id);
                    }
                }
                return list;
            }
            i += 1;
        }
        Vec::new()
    }

    /// The version of one path, tombstones included.
    pub fn version(&self, path: &str) -> (version: Option<FileVersion>)
        ensures
            match version {
                Some(v) => db::shared(self@, path@) >= 0 && v@ == version_of(
                    self@.files[db::shared(self@, path@)],
                ) && promises::tells(v@, self@.files[db::shared(self@, path@)]),
                None => db::shared(self@, path@) < 0,
            },
    {
        match self.position(path, &None) {
            Some(i) => {
                assert(self@.files[i as int] == self.files@[i as int]@);
                Some(row_to_version(&self.files[i]))
            },
            None => None,
        }
    }

    /// This device's identity.
    pub fn local_device(&self) -> (device: DeviceId)
        ensures
            device@ == self@.device,
    {
        self.device
    }

    /// Allocate the next counter for a local change.
    pub fn next_counter(&mut self) -> (n: u64)
        requires
            old(self).wf(),
            old(self).counter < u64::MAX,
        ensures
            final(self).wf(),
            n == old(self)@.counter + 1,
            final(self)@ == (Index { counter: n, ..old(self)@ }),
    {
        self.counter = self.counter + 1;
        self.counter
    }

    /// A live path with exactly this content, if any.
    pub fn live_path_with_content(&self, content: &ContentHash) -> (path: Option<String>)
        ensures
            match path {
                Some(p) => exists|i: int|
                    0 <= i < self@.files.len() && has_live_content(
                        #[trigger] self@.files[i],
                        content@,
                    ) && self@.files[i].path == p@,
                None => forall|i: int|
                    0 <= i < self@.files.len() ==> !has_live_content(
                        #[trigger] self@.files[i],
                        content@,
                    ),
            },
    {
        let ghost all = self@.files;
        let mut i: usize = 0;
        while i < self.files.len()
            invariant
                i <= self.files@.len(),
                all == self@.files,
                forall|j: int| 0 <= j < i ==> !has_live_content(#[trigger] all[j], content@),
            decreases self.files@.len() - i,
        {
            assert(all[i as int] == self.files@[i as int]@);
            if self.files[i].deleted_at.is_none() && same_bytes(
                &self.files[i].content_hash,
                content,
            ) {
                assert(has_live_content(all[i as int], content@));
                return Some(self.files[i].path.clone());
            }
            i += 1;
        }
        None
    }

    /// Any path whose chunk list describes this content, tombstones included.
    ///
    /// "Do we have these bytes?" is a question about chunks, not about names. A
    /// deleted file's chunks survive the retention window, so a path being gone
    /// does not mean its content is. Live paths are preferred.
    pub fn any_path_with_content(&self, content: &ContentHash) -> (path: Option<String>)
        ensures
            match path {
                Some(p) => exists|i: int| #[trigger]
                    super::reading::is_file_with_content(self@.files, content@, i)
                        && self@.files[i].path == p@,
                None => super::reading::unknown_content(self@.files, content@),
            },
    {
        match self.place_of_content(content) {
            Some(i) => {
                assert(self@.files[i as int] == self.files@[i as int]@);
                Some(self.files[i].path.clone())
            },
            None => None,
        }
    }

    /// A different live path that a case-insensitive filesystem could not keep
    /// apart from `path`.
    ///
    /// Folding is ASCII-only. That misses collisions in other scripts, and
    /// catches the cases that actually occur in practice.
    pub fn live_path_colliding_with(&self, path: &str) -> (found: Option<String>)
        ensures
            match found {
                Some(p) => exists|i: int|
                    0 <= i < self@.files.len() && collides(#[trigger] self@.files[i], path@)
                        && self@.files[i].path == p@,
                None => forall|i: int|
                    0 <= i < self@.files.len() ==> !collides(#[trigger] self@.files[i], path@),
            },
    {
        let ghost all = self@.files;
        let chars: Vec<char> = chars_of(path);
        let mut i: usize = 0;
        while i < self.files.len()
            invariant
                i <= self.files@.len(),
                all == self@.files,
                chars@ == path@,
                forall|j: int| 0 <= j < i ==> !collides(#[trigger] all[j], path@),
            decreases self.files@.len() - i,
        {
            let f: &FileRow = &self.files[i];
            assert(all[i as int] == f@);
            if f.deleted_at.is_none() && f.scope.is_none() && !same_text(f.path.as_str(), path)
                && same_folded(&chars_of(f.path.as_str()), &chars) {
                assert(collides(all[i as int], path@));
                return Some(f.path.clone());
            }
            i += 1;
        }
        None
    }

    /// Where in the folder a chunk's bytes lie: path, offset and length. Any
    /// live file whose bytes this device holds will do.
    pub fn locate_chunk(&self, hash: &ContentHash) -> (found: Option<(String, u64, u64)>)
        requires
            self.wf(),
        ensures
            match found {
                Some((path, offset, len)) => exists|i: int, k: int| #[trigger]
                    supplies_at(self@, hash@, i, k) && path@ == self@.files[i].path && offset
                        == extent(self@.chunks, self@.files[i].chunks, k) && len
                        == self@.chunks[hash@].size,
                None => forall|i: int, k: int| !#[trigger] supplies_at(self@, hash@, i, k),
            },
    {
        let ghost all = self@.files;
        let size: u64 = match self.chunk(hash) {
            None => {
                return None;
            },
            Some(row) => row.size,
        };
        let mut i: usize = 0;
        while i < self.files.len()
            invariant
                i <= self.files@.len(),
                self.wf(),
                all == self@.files,
                self@.chunks.contains_key(hash@),
                size == self@.chunks[hash@].size,
                forall|j: int, k: int| j < i ==> !#[trigger] supplies_at(self@, hash@, j, k),
            decreases self.files@.len() - i,
        {
            let f: &FileRow = &self.files[i];
            assert(all[i as int] == f@);
            if f.deleted_at.is_none() && f.materialised {
                match self.offset_in(&f.chunks, hash) {
                    Some(offset) => {
                        proof {
                            let k = choose|k: int|
                                0 <= k < f@.chunks.len() && #[trigger] f@.chunks[k] == hash@
                                    && offset == extent(self@.chunks, f@.chunks, k);
                            assert(supplies_at(self@, hash@, i as int, k));
                        }
                        return Some((f.path.clone(), offset, size));
                    },
                    None => {},
                }
            }
            i += 1;
        }
        None
    }

    /// Where in a list of chunks one lies.
    fn offset_in(&self, list: &Vec<ContentHash>, hash: &ContentHash) -> (offset: Option<u64>)
        requires
            self.wf(),
        ensures
            match offset {
                Some(n) => exists|k: int|
                    0 <= k < list@.len() && #[trigger] db::hashes(list@)[k] == hash@ && n == extent(
                        self@.chunks,
                        db::hashes(list@),
                        k,
                    ),
                None => forall|k: int|
                    0 <= k < list@.len() && extent(self@.chunks, db::hashes(list@), k) <= u64::MAX
                        ==> #[trigger] db::hashes(list@)[k] != hash@,
            },
    {
        let ghost all = db::hashes(list@);
        let mut offset: u64 = 0;
        let mut k: usize = 0;
        while k < list.len()
            invariant
                k <= list@.len(),
                self.wf(),
                all == db::hashes(list@),
                offset == extent(self@.chunks, all, k as int),
                forall|j: int| 0 <= j < k ==> #[trigger] all[j] != hash@,
            decreases list@.len() - k,
        {
            assert(all[k as int] == list@[k as int]@);
            if same_bytes(&list[k], hash) {
                return Some(offset);
            }
            let size: u64 = match self.chunk(&list[k]) {
                Some(row) => row.size,
                None => 0,
            };
            if size > u64::MAX - offset {
                proof {
                    assert forall|j: int|
                        0 <= j < list@.len() && extent(self@.chunks, all, j)
                            <= u64::MAX implies #[trigger] all[j] != hash@ by {
                        if j > k {
                            extent_grows(self@.chunks, all, k + 1, j);
                        }
                    }
                }
                return None;
            }
            offset = offset + size;
            k += 1;
        }
        None
    }
}

/// The file is live and has this content.
pub open spec fn has_live_content(f: File, content: Seq<u8>) -> bool {
    f.deleted_at is None && f.content_hash == content
}

/// What the first `k` chunks of a list come to.
pub open spec fn extent(chunks: Map<Seq<u8>, ChunkFacts>, list: Seq<Seq<u8>>, k: int) -> nat
    decreases k,
{
    if k <= 0 {
        0
    } else {
        extent(chunks, list, k - 1) + if chunks.contains_key(list[k - 1]) {
            chunks[list[k - 1]].size as nat
        } else {
            0
        }
    }
}

proof fn extent_grows(chunks: Map<Seq<u8>, ChunkFacts>, list: Seq<Seq<u8>>, k: int, n: int)
    requires
        k <= n,
    ensures
        extent(chunks, list, k) <= extent(chunks, list, n),
    decreases n - k,
{
    if k < n {
        extent_grows(chunks, list, k, n - 1);
    }
}

/// The `i`-th file is live, its bytes are held here, and its `k`-th chunk is
/// this one, where an offset can reach it.
pub open spec fn supplies_at(ix: Index, hash: Seq<u8>, i: int, k: int) -> bool {
    &&& 0 <= i < ix.files.len()
    &&& ix.files[i].deleted_at is None
    &&& ix.files[i].materialised
    &&& 0 <= k < ix.files[i].chunks.len()
    &&& ix.files[i].chunks[k] == hash
    &&& ix.chunks.contains_key(hash)
    &&& extent(ix.chunks, ix.files[i].chunks, k) <= u64::MAX
}

/// Whether two texts differ in nothing but the case of ASCII letters.
pub open spec fn folds_to(a: Seq<char>, b: Seq<char>) -> bool {
    a.len() == b.len() && forall|i: int|
        #![trigger a[i]]
        0 <= i < a.len() ==> text::ascii_lower(a[i]) == text::ascii_lower(b[i])
}

/// A live file of the shared area whose path differs from this one in case only.
pub open spec fn collides(f: File, path: Seq<char>) -> bool {
    f.deleted_at is None && f.scope is None && f.path != path && folds_to(f.path, path)
}

fn same_folded(a: &Vec<char>, b: &Vec<char>) -> (same: bool)
    ensures
        same == folds_to(a@, b@),
{
    if a.len() != b.len() {
        return false;
    }
    let mut i: usize = 0;
    while i < a.len()
        invariant
            i <= a@.len() == b@.len(),
            forall|j: int|
                #![trigger a@[j]]
                0 <= j < i ==> text::ascii_lower(a@[j]) == text::ascii_lower(b@[j]),
        decreases a@.len() - i,
    {
        if lower_of(a[i]) != lower_of(b[i]) {
            assert(text::ascii_lower(a@[i as int]) != text::ascii_lower(b@[i as int]));
            return false;
        }
        i += 1;
    }
    true
}

/// Versions, as values.
pub open spec fn version_views(s: Seq<FileVersion>) -> Seq<Version> {
    Seq::new(s.len(), |i: int| s[i]@)
}

/// The versions of the files that a question is about, by path.
pub open spec fn are_versions(ix: Index, which: Which, list: Seq<Version>) -> bool {
    exists|picks: Seq<usize>| #[trigger]
        listing::is_listing(ix, which, By::Path, picks) && list.len() == picks.len() && forall|
            k: int,
        |
            #![trigger list[k]]
            0 <= k < list.len() ==> list[k] == version_of(ix.files[picks[k] as int])
}

/// A path collides with a live file of the shared area under another name that
/// differs from it in the case of ASCII letters and in nothing else.
pub proof fn law_a_collision_is_a_difference_of_case(f: File, path: Seq<char>)
    ensures
        collides(f, path) ==> f.deleted_at is None && f.scope is None && f.path != path
            && f.path.len() == path.len(),
        collides(f, path) ==> forall|i: int|
            #![trigger f.path[i]]
            0 <= i < path.len() ==> f.path[i] == path[i] || ('A' <= f.path[i] <= 'Z'
                && f.path[i] as u32 + 32 == path[i] as u32) || ('A' <= path[i] <= 'Z'
                && path[i] as u32 + 32 == f.path[i] as u32),
        f.deleted_at is None && f.scope is None && f.path != path && f.path.len() == path.len()
            && (forall|i: int|
            #![trigger f.path[i]]
            0 <= i < path.len() ==> f.path[i] == path[i] || ('A' <= f.path[i] <= 'Z'
                && f.path[i] as u32 + 32 == path[i] as u32) || ('A' <= path[i] <= 'Z'
                && path[i] as u32 + 32 == f.path[i] as u32)) ==> collides(f, path),
{
    if collides(f, path) {
        assert forall|i: int| #![trigger f.path[i]] 0 <= i < path.len() implies f.path[i]
            == path[i] || ('A' <= f.path[i] <= 'Z' && f.path[i] as u32 + 32 == path[i] as u32) || (
        'A' <= path[i] <= 'Z' && path[i] as u32 + 32 == f.path[i] as u32) by {
            assert(text::ascii_lower(f.path[i]) == text::ascii_lower(path[i]));
        }
    }
}

/// A chunk lies in a file behind the chunks before it: as far in as they are long
/// together.
pub proof fn law_a_chunk_lies_behind_those_before_it(
    chunks: Map<Seq<u8>, ChunkFacts>,
    list: Seq<Seq<u8>>,
    k: int,
)
    requires
        0 < k <= list.len(),
    ensures
        extent(chunks, list, 0) == 0,
        chunks.contains_key(list[k - 1]) ==> extent(chunks, list, k) == extent(
            chunks,
            list,
            k - 1,
        ) + chunks[list[k - 1]].size,
        !chunks.contains_key(list[k - 1]) ==> extent(chunks, list, k) == extent(
            chunks,
            list,
            k - 1,
        ),
{
}

/// What stands before everything in a directory is its path without separators at
/// its end, and one separator: it is the same however many there were, and a name
/// that merely starts alike does not start with it.
pub proof fn law_a_directory_holds_what_lies_beneath_it(dir: Seq<char>, name: Seq<char>)
    requires
        dir.len() > 0,
        dir.last() != '/',
    ensures
        trimmed_end(dir, '/') == dir,
        trimmed_end(dir.push('/'), '/') == dir,
        text::has_prefix(dir + seq!['/'] + name, trimmed_end(dir, '/').push('/')),
        name.len() > 0 && name[0] != '/' ==> !text::has_prefix(
            dir + name,
            trimmed_end(dir, '/').push('/'),
        ),
{
    let under = dir.push('/');
    assert(under.drop_last() =~= dir);
    assert(under.last() == '/');
    assert(trimmed_end(dir, '/') == dir);
    assert(trimmed_end(under, '/') == trimmed_end(under.drop_last(), '/'));
    let inside = dir + seq!['/'] + name;
    assert(inside.take(under.len() as int) =~= under);
    if name.len() > 0 && name[0] != '/' {
        let other = dir + name;
        assert(other[dir.len() as int] == name[0]);
        if text::has_prefix(other, under) {
            assert(other.take(under.len() as int)[dir.len() as int] == '/');
        }
    }
}

/// Where a chunk is supplied, it lies in a file that was not deleted and whose bytes
/// are held here, as one of the chunks of that file; and every such place will do,
/// as far as an offset can reach.
pub proof fn law_a_chunk_is_supplied_by_a_file_that_is_held(
    ix: Index,
    hash: Seq<u8>,
    i: int,
    k: int,
)
    requires
        0 <= i < ix.files.len(),
        0 <= k < ix.files[i].chunks.len(),
        ix.chunks.contains_key(hash),
    ensures
        supplies_at(ix, hash, i, k) ==> ix.files[i].deleted_at is None && ix.files[i].materialised
            && ix.files[i].chunks[k] == hash,
        ix.files[i].deleted_at is None && ix.files[i].materialised && ix.files[i].chunks[k] == hash
            && extent(ix.chunks, ix.files[i].chunks, k) <= u64::MAX ==> supplies_at(
            ix,
            hash,
            i,
            k,
        ),
{
}

/// A path has a content where it was not deleted and the content is its own.
pub proof fn law_a_deleted_file_has_no_live_content(f: File, content: Seq<u8>)
    ensures
        f.deleted_at is Some ==> !has_live_content(f, content),
        f.deleted_at is None ==> (has_live_content(f, content) <==> f.content_hash == content),
{
}

} // verus!
