//! Private vaults: what one device may know of what another keeps here.
//!
//! The shared area is visible to everyone. A vault is visible only to the device
//! that owns it, which is the whole point.

use vstd::prelude::*;

use super::chunker::ContentHash;
use super::db;
use super::db::{has_hash, same_scope, Db, File, FileRow, Index};
use super::error::{Error, Fault};
use super::listing;
use super::listing::{By, Which};
use super::queries;
use crate::order::same_bytes;
use crate::sync::device::DeviceId;
use crate::sync::version::{FileVersion, Version};
use crate::text::same_text;

verus! {

/// Who is asking, for the purpose of what they may see.
///
/// Three cases, and conflating any two of them is a bug with a security
/// consequence, which is why this is an enum rather than an `Option`.
#[derive(Debug, Clone, Copy)]
pub enum Audience<'a> {
    /// This device itself. Sees everything it holds: an interface showing
    /// somebody their own files is not a peer.
    Ourselves,
    /// A peer whose device this store recognises. Sees the shared area and that
    /// device's own vault, and never anybody else's.
    Device(&'a DeviceId),
    /// A peer that authenticated but whose device is not recorded here. Sees the
    /// shared area only: it owns no vault as far as this device knows.
    Unplaced,
}

/// Whether an audience may know of a file.
pub open spec fn visible(f: File, audience: Audience) -> bool {
    match audience {
        Audience::Ourselves => true,
        Audience::Device(d) => f.scope is None || f.scope == Some(d@),
        Audience::Unplaced => f.scope is None,
    }
}

/// A version on offer, and whether it comes out of the asker's own vault.
///
/// The asker cannot tell a shared file from something sent to it privately by
/// looking at the path, and it has exactly one chance to file it correctly.
#[derive(Debug)]
pub struct Offer {
    pub version: FileVersion,
    pub private: bool,
}

pub open spec fn offer_views(s: Seq<Offer>) -> Seq<(Version, bool)> {
    Seq::new(s.len(), |i: int| (s[i].version@, s[i].private))
}

/// Versions that are all private, or all not.
pub open spec fn marked(list: Seq<Version>, private: bool) -> Seq<(Version, bool)> {
    Seq::new(list.len(), |i: int| (list[i], private))
}

/// What an audience is offered: the shared area by path, then its own vault by
/// path.
pub open spec fn are_offers(ix: Index, audience: Audience, list: Seq<(Version, bool)>) -> bool {
    match audience {
        Audience::Ourselves => exists|all: Seq<Version>| #[trigger]
            queries::are_versions(ix, Which::All, all) && list == marked(all, false),
        Audience::Unplaced => exists|all: Seq<Version>| #[trigger]
            queries::are_versions(ix, Which::Shared, all) && list == marked(all, false),
        Audience::Device(d) => exists|ours: Seq<Version>, theirs: Seq<Version>|
            #![trigger marked(ours, false), marked(theirs, true)]
            queries::are_versions(ix, Which::Shared, ours) && queries::are_versions(
                ix,
                Which::Vault(d),
                theirs,
            ) && list == marked(ours, false) + marked(theirs, true),
    }
}

/// A delivery that its recipient has not taken.
pub open spec fn awaited(ix: Index, f: File) -> bool {
    listing::meant(ix, Which::Pending, f)
}

/// A live file of this content in this place.
pub open spec fn held_in(f: File, content: Seq<u8>, scope: Option<Seq<u8>>) -> bool {
    f.deleted_at is None && f.content_hash == content && f.scope == scope
}

/// A file that is held in a vault for a device that has it.
pub open spec fn collected(ix: Index, f: File) -> bool {
    f.deleted_at is None && f.scope is Some && ix.replicas.contains_key(
        (f.content_hash, f.scope->0),
    )
}

/// A file that can be read from nothing but the chunk store: its bytes are not
/// in the folder, no device that could be asked for them is known to have them,
/// and the device whose vault it is in, if any, does not have them either.
pub open spec fn needs_the_payload(ix: Index, f: File) -> bool {
    &&& f.deleted_at is None
    &&& !f.materialised
    &&& !listing::reachable(ix, f.content_hash)
    &&& !(f.scope is Some && ix.replicas.contains_key((f.content_hash, f.scope->0)))
}

/// A chunk that is held on another device's behalf only, and that device has it.
pub open spec fn releasable(ix: Index, h: Seq<u8>) -> bool {
    &&& exists|i: int|
        #![trigger ix.files[i]]
        0 <= i < ix.files.len() && collected(ix, ix.files[i]) && ix.files[i].chunks.contains(h)
    &&& !exists|i: int|
        #![trigger ix.files[i]]
        0 <= i < ix.files.len() && needs_the_payload(ix, ix.files[i])
            && ix.files[i].chunks.contains(h)
}

/// How many files have a path, in whatever place.
pub open spec fn files_at(files: Seq<File>, path: Seq<char>) -> nat
    decreases files.len(),
{
    if files.len() == 0 {
        0
    } else {
        files_at(files.drop_last(), path) + if files.last().path == path {
            1nat
        } else {
            0
        }
    }
}

/// Where the first file with a path stands, or the number of files.
pub open spec fn first_at(files: Seq<File>, path: Seq<char>, from: int) -> int
    decreases files.len() - from,
{
    if 0 <= from < files.len() && files[from].path != path {
        first_at(files, path, from + 1)
    } else {
        from
    }
}

/// The index once the first file with a path is kept in another place.
pub open spec fn moved(ix: Index, path: Seq<char>, scope: Option<Seq<u8>>) -> Index {
    let n = first_at(ix.files, path, 0);
    if n < ix.files.len() {
        Index { files: ix.files.update(n, File { scope, ..ix.files[n] }), ..ix }
    } else {
        ix
    }
}

/// The offers made of versions.
fn mark(list: Vec<FileVersion>, private: bool) -> (out: Vec<Offer>)
    ensures
        offer_views(out@) == marked(queries::version_views(list@), private),
{
    let mut out: Vec<Offer> = Vec::new();
    let mut i: usize = 0;
    while i < list.len()
        invariant
            i <= list@.len(),
            out@.len() == i,
            forall|j: int|
                #![trigger out@[j]]
                0 <= j < i ==> out@[j].version@ == list@[j]@ && out@[j].private == private,
        decreases list@.len() - i,
    {
        out.push(Offer { version: list[i].clone(), private });
        i += 1;
    }
    assert(offer_views(out@) =~= marked(queries::version_views(list@), private));
    out
}

impl Db {
    /// The versions an audience is entitled to know about.
    pub fn versions_for(&self, audience: Audience<'_>) -> (list: Vec<Offer>)
        requires
            self.wf(),
        ensures
            are_offers(self@, audience, offer_views(list@)),
    {
        match audience {
            Audience::Ourselves => mark(self.versions(&Which::All), false),
            Audience::Unplaced => mark(self.versions(&Which::Shared), false),
            Audience::Device(d) => {
                let ours: Vec<FileVersion> = self.versions(&Which::Shared);
                let theirs: Vec<FileVersion> = self.versions(&Which::Vault(d));
                let ghost a = queries::version_views(ours@);
                let ghost b = queries::version_views(theirs@);
                let mut list: Vec<Offer> = mark(ours, false);
                let mut more: Vec<Offer> = mark(theirs, true);
                let ghost x = list@;
                let ghost y = more@;
                list.append(&mut more);
                proof {
                    assert(list@ =~= x + y);
                    assert(offer_views(list@) =~= offer_views(x) + offer_views(y));
                    assert(offer_views(list@) == marked(a, false) + marked(b, true));
                }
                list
            },
        }
    }

    /// Whether any live file claims this path, in the shared area or in any
    /// vault. Asked before filing a delivery, because one path is one file on
    /// disk however many index rows point at it.
    pub fn live_path_anywhere(&self, path: &str) -> (taken: bool)
        ensures
            taken == exists|i: int|
                #![trigger self@.files[i]]
                0 <= i < self@.files.len() && self@.files[i].path == path@
                    && self@.files[i].deleted_at is None,
    {
        let ghost all = self@.files;
        let mut i: usize = 0;
        while i < self.files.len()
            invariant
                i <= self.files@.len(),
                all == self@.files,
                forall|j: int|
                    #![trigger all[j]]
                    0 <= j < i ==> !(all[j].path == path@ && all[j].deleted_at is None),
            decreases self.files@.len() - i,
        {
            assert(all[i as int] == self.files@[i as int]@);
            if self.files[i].deleted_at.is_none() && same_text(self.files[i].path.as_str(), path) {
                return true;
            }
            i += 1;
        }
        false
    }

    /// Files sitting in somebody's vault here that they have not taken yet: what
    /// a send is still waiting on, newest first. Path, size and whose it is.
    ///
    /// "Not taken yet" means no record of that device holding those bytes, of
    /// either kind.
    pub fn pending_deliveries(&self) -> (list: Vec<(String, u64, DeviceId)>)
        requires
            self.wf(),
        ensures
            exists|picks: Seq<usize>| #[trigger]
                listing::is_listing(self@, Which::Pending, By::Newest, picks) && list@.len()
                    == picks.len() && forall|k: int|
                    #![trigger list@[k]]
                    0 <= k < list@.len() ==> {
                        let f = self@.files[picks[k] as int];
                        list@[k].0@ == f.path && list@[k].1 == f.size && Some(list@[k].2@)
                            == f.scope
                    },
    {
        let picks: Vec<usize> = self.listing(&Which::Pending, By::Newest);
        let mut list: Vec<(String, u64, DeviceId)> = Vec::new();
        let mut k: usize = 0;
        while k < picks.len()
            invariant
                k <= picks@.len(),
                list@.len() == k,
                listing::is_listing(self@, Which::Pending, By::Newest, picks@),
                forall|j: int|
                    #![trigger list@[j]]
                    0 <= j < k ==> {
                        let f = self@.files[picks@[j] as int];
                        list@[j].0@ == f.path && list@[j].1 == f.size && Some(list@[j].2@)
                            == f.scope
                    },
            decreases picks@.len() - k,
        {
            assert(picks@[k as int] < self@.files.len());
            let f: &FileRow = &self.files[picks[k]];
            assert(self@.files[picks@[k as int] as int] == f@);
            if let Some(whose) = f.scope {
                list.push((f.path.clone(), f.size, whose));
            }
            k += 1;
        }
        list
    }

    /// The same question, answered as the set of devices to wake.
    pub fn awaiting_collection(&self) -> (list: Vec<DeviceId>)
        requires
            self.wf(),
        ensures
            device_views(list@).no_duplicates(),
            forall|d: Seq<u8>| #[trigger]
                device_views(list@).contains(d) <==> exists|i: int|
                    #![trigger self@.files[i]]
                    0 <= i < self@.files.len() && awaited(self@, self@.files[i])
                        && self@.files[i].scope == Some(d),
    {
        let ghost ix = self@;
        let picks: Vec<usize> = self.listing(&Which::Pending, By::Newest);
        let mut list: Vec<DeviceId> = Vec::new();
        let mut k: usize = 0;
        while k < picks.len()
            invariant
                k <= picks@.len(),
                ix == self@,
                listing::is_listing(self@, Which::Pending, By::Newest, picks@),
                device_views(list@).no_duplicates(),
                forall|n: int|
                    #![trigger list@[n]]
                    0 <= n < list@.len() ==> exists|i: int|
                        #![trigger ix.files[i]]
                        0 <= i < ix.files.len() && awaited(ix, ix.files[i]) && ix.files[i].scope
                            == Some(list@[n]@),
                forall|j: int|
                    #![trigger picks@[j]]
                    0 <= j < k ==> device_views(list@).contains(
                        ix.files[picks@[j] as int].scope->0,
                    ),
            decreases picks@.len() - k,
        {
            assert(picks@[k as int] < self@.files.len());
            let f: &FileRow = &self.files[picks[k]];
            assert(ix.files[picks@[k as int] as int] == f@);
            assert(awaited(ix, ix.files[picks@[k as int] as int]));
            if let Some(whose) = f.scope {
                if !has_device(&list, &whose) {
                    let ghost before = device_views(list@);
                    list.push(whose);
                    proof {
                        assert(device_views(list@) =~= before.push(whose@));
                        assert(before.push(whose@)[before.len() as int] == whose@);
                        assert forall|g: Seq<u8>| #[trigger] before.contains(g) implies before.push(
                            whose@,
                        ).contains(g) by {
                            let n = choose|n: int| 0 <= n < before.len() && before[n] == g;
                            assert(before.push(whose@)[n] == g);
                        }
                    }
                }
            }
            k += 1;
        }
        let len: usize = self.files.len();
        proof {
            let all = device_views(list@);
            assert(ix.files.len() == len);
            assert forall|d: Seq<u8>| #[trigger] all.contains(d) <==> exists|i: int|
                #![trigger ix.files[i]]
                0 <= i < ix.files.len() && awaited(ix, ix.files[i]) && ix.files[i].scope == Some(
                    d,
                ) by {
                if all.contains(d) {
                    let n = choose|n: int| 0 <= n < all.len() && all[n] == d;
                    assert(list@[n]@ == d);
                }
                if exists|i: int|
                    #![trigger ix.files[i]]
                    0 <= i < ix.files.len() && awaited(ix, ix.files[i]) && ix.files[i].scope
                        == Some(d) {
                    let i = choose|i: int|
                        #![trigger ix.files[i]]
                        0 <= i < ix.files.len() && awaited(ix, ix.files[i]) && ix.files[i].scope
                            == Some(d);
                    assert(picks@.contains(i as usize));
                    let j = choose|j: int| 0 <= j < picks@.len() && picks@[j] == i as usize;
                    assert(all.contains(ix.files[picks@[j] as int].scope->0));
                }
            }
        }
        list
    }

    /// Where the first live file of this content in this place stands.
    fn held_at(&self, content: &ContentHash, scope: &Option<DeviceId>) -> (found: Option<usize>)
        ensures
            match found {
                Some(i) => i < self.files@.len() && held_in(
                    self@.files[i as int],
                    content@,
                    db::device_view(*scope),
                ),
                None => forall|j: int|
                    #![trigger self@.files[j]]
                    0 <= j < self@.files.len() ==> !held_in(
                        self@.files[j],
                        content@,
                        db::device_view(*scope),
                    ),
            },
    {
        let ghost all = self@.files;
        let mut i: usize = 0;
        while i < self.files.len()
            invariant
                i <= self.files@.len(),
                all == self@.files,
                forall|j: int|
                    #![trigger all[j]]
                    0 <= j < i ==> !held_in(all[j], content@, db::device_view(*scope)),
            decreases self.files@.len() - i,
        {
            assert(all[i as int] == self.files@[i as int]@);
            if self.files[i].deleted_at.is_none() && same_scope(&self.files[i].scope, scope)
                && same_bytes(&self.files[i].content_hash, content) {
                return Some(i);
            }
            i += 1;
        }
        None
    }

    /// The path a given device's vault holds this content under, here.
    pub fn vault_path_for(&self, content: &ContentHash, device: &DeviceId) -> (path: Option<String>)
        ensures
            match path {
                Some(p) => exists|i: int|
                    #![trigger self@.files[i]]
                    0 <= i < self@.files.len() && held_in(
                        self@.files[i],
                        content@,
                        Some(device@),
                    ) && self@.files[i].path == p@,
                None => forall|i: int|
                    #![trigger self@.files[i]]
                    0 <= i < self@.files.len() ==> !held_in(
                        self@.files[i],
                        content@,
                        Some(device@),
                    ),
            },
    {
        match self.held_at(content, &Some(*device)) {
            Some(i) => {
                assert(self@.files[i as int] == self.files@[i as int]@);
                Some(self.files[i].path.clone())
            },
            None => None,
        }
    }

    /// Whether this device has already taken delivery of these bytes.
    ///
    /// Tombstones count. A delivery the user accepted and then deleted has been
    /// taken, and offering it again every time the sender reappears would make
    /// deleting a received file impossible.
    pub fn vault_knows(&self, content: &ContentHash) -> (known: bool)
        ensures
            known == exists|i: int|
                #![trigger self@.files[i]]
                0 <= i < self@.files.len() && self@.files[i].content_hash == content@
                    && self@.files[i].scope == Some(self@.device),
    {
        let ghost all = self@.files;
        let mine: Option<DeviceId> = Some(self.device);
        let mut i: usize = 0;
        while i < self.files.len()
            invariant
                i <= self.files@.len(),
                all == self@.files,
                db::device_view(mine) == Some(self@.device),
                forall|j: int|
                    #![trigger all[j]]
                    0 <= j < i ==> !(all[j].content_hash == content@ && all[j].scope == Some(
                        self@.device,
                    )),
            decreases self.files@.len() - i,
        {
            assert(all[i as int] == self.files@[i as int]@);
            if same_scope(&self.files[i].scope, &mine) && same_bytes(
                &self.files[i].content_hash,
                content,
            ) {
                return true;
            }
            i += 1;
        }
        false
    }

    /// Whether an audience may know of a file.
    fn is_visible(&self, i: usize, audience: &Audience<'_>) -> (yes: bool)
        requires
            i < self.files@.len(),
        ensures
            yes == visible(self@.files[i as int], *audience),
    {
        let f: &FileRow = &self.files[i];
        assert(self@.files[i as int] == f@);
        match audience {
            Audience::Ourselves => true,
            Audience::Unplaced => f.scope.is_none(),
            Audience::Device(d) => match f.scope {
                None => true,
                Some(s) => s == **d,
            },
        }
    }

    /// Whether an audience may fetch the bytes of this chunk.
    ///
    /// A chunk is reachable if any file the asker may see uses it. Tombstones
    /// count, because a peer that learned of a version before it was deleted may
    /// still be fetching it.
    pub fn chunk_visible_to(&self, hash: &ContentHash, audience: Audience<'_>) -> (yes: bool)
        ensures
            yes == (audience is Ourselves || exists|i: int|
                #![trigger self@.files[i]]
                0 <= i < self@.files.len() && self@.files[i].chunks.contains(hash@) && visible(
                    self@.files[i],
                    audience,
                )),
    {
        if let Audience::Ourselves = audience {
            return true;
        }
        let ghost all = self@.files;
        let mut i: usize = 0;
        while i < self.files.len()
            invariant
                i <= self.files@.len(),
                all == self@.files,
                forall|j: int|
                    #![trigger all[j]]
                    0 <= j < i ==> !(all[j].chunks.contains(hash@) && visible(all[j], audience)),
            decreases self.files@.len() - i,
        {
            assert(all[i as int] == self.files@[i as int]@);
            if self.is_visible(i, &audience) && has_hash(&self.files[i].chunks, hash) {
                return true;
            }
            i += 1;
        }
        false
    }

    /// Whether an audience may resolve this content hash to a chunk list.
    pub fn content_visible_to(&self, content: &ContentHash, audience: Audience<'_>) -> (yes: bool)
        ensures
            yes == (audience is Ourselves || exists|i: int|
                #![trigger self@.files[i]]
                0 <= i < self@.files.len() && self@.files[i].content_hash == content@ && visible(
                    self@.files[i],
                    audience,
                )),
    {
        if let Audience::Ourselves = audience {
            return true;
        }
        let ghost all = self@.files;
        let mut i: usize = 0;
        while i < self.files.len()
            invariant
                i <= self.files@.len(),
                all == self@.files,
                forall|j: int|
                    #![trigger all[j]]
                    0 <= j < i ==> !(all[j].content_hash == content@ && visible(
                        all[j],
                        audience,
                    )),
            decreases self.files@.len() - i,
        {
            assert(all[i as int] == self.files@[i as int]@);
            if self.is_visible(i, &audience) && same_bytes(&self.files[i].content_hash, content) {
                return true;
            }
            i += 1;
        }
        false
    }

    /// Whether the only way `device` could have got this content from here was
    /// out of its own vault.
    ///
    /// If this device also holds the content in the shared area then the peer has
    /// it somewhere ordinary and reachable. Content this device does not hold at
    /// all answers `false`: the peer got it from somewhere else.
    pub fn delivery_is_vault_only(&self, content: &ContentHash, device: &DeviceId) -> (yes: bool)
        ensures
            yes == ((forall|i: int|
                #![trigger self@.files[i]]
                0 <= i < self@.files.len() ==> !held_in(self@.files[i], content@, None)) && exists|
                i: int,
            |
                #![trigger self@.files[i]]
                0 <= i < self@.files.len() && held_in(self@.files[i], content@, Some(device@))),
    {
        if self.held_at(content, &None).is_some() {
            return false;
        }
        self.held_at(content, &Some(*device)).is_some()
    }

    /// Whether a file can be read from nothing but the chunk store.
    fn needs_it(&self, i: usize) -> (yes: bool)
        requires
            self.wf(),
            i < self.files@.len(),
        ensures
            yes == needs_the_payload(self@, self@.files[i as int]),
    {
        let f: &FileRow = &self.files[i];
        assert(self@.files[i as int] == f@);
        f.deleted_at.is_none() && !f.materialised && !self.has_replica(
            &f.content_hash,
            &None,
            true,
        ) && !(f.scope.is_some() && self.has_replica(&f.content_hash, &f.scope, false))
    }

    /// Whether some file that can be read from nothing but the chunk store is
    /// made of this chunk among others.
    fn is_needed(&self, hash: &ContentHash) -> (yes: bool)
        requires
            self.wf(),
        ensures
            yes == exists|i: int|
                #![trigger self@.files[i]]
                0 <= i < self@.files.len() && needs_the_payload(self@, self@.files[i])
                    && self@.files[i].chunks.contains(hash@),
    {
        let ghost all = self@.files;
        let mut i: usize = 0;
        while i < self.files.len()
            invariant
                i <= self.files@.len(),
                self.wf(),
                all == self@.files,
                forall|j: int|
                    #![trigger all[j]]
                    0 <= j < i ==> !(needs_the_payload(self@, all[j]) && all[j].chunks.contains(
                        hash@,
                    )),
            decreases self.files@.len() - i,
        {
            assert(all[i as int] == self.files@[i as int]@);
            if has_hash(&self.files[i].chunks, hash) && self.needs_it(i) {
                return true;
            }
            i += 1;
        }
        false
    }

    /// Whether a chunk is held only on another device's behalf, which has it.
    pub(crate) fn is_releasable(&self, hash: &ContentHash) -> (yes: bool)
        requires
            self.wf(),
        ensures
            yes == releasable(self@, hash@),
    {
        if self.is_needed(hash) {
            return false;
        }
        let ghost all = self@.files;
        let mut i: usize = 0;
        while i < self.files.len()
            invariant
                i <= self.files@.len(),
                self.wf(),
                all == self@.files,
                !exists|j: int|
                    #![trigger self@.files[j]]
                    0 <= j < self@.files.len() && needs_the_payload(self@, self@.files[j])
                        && self@.files[j].chunks.contains(hash@),
                forall|j: int|
                    #![trigger all[j]]
                    0 <= j < i ==> !(collected(self@, all[j]) && all[j].chunks.contains(hash@)),
            decreases self.files@.len() - i,
        {
            let f: &FileRow = &self.files[i];
            assert(all[i as int] == f@);
            if f.deleted_at.is_none() && f.scope.is_some() && has_hash(&f.chunks, hash)
                && self.has_replica(&f.content_hash, &f.scope, false) {
                assert(collected(self@, all[i as int]));
                return true;
            }
            i += 1;
        }
        false
    }

    /// Chunks held only on another device's behalf, which that device has.
    ///
    /// The chunk must belong to a vault entry whose content its device is
    /// recorded as holding, and **no** live file anywhere in this store may still
    /// need it from the chunk store. Phrased per chunk rather than per file
    /// because deduplication means one payload can serve several, and the most
    /// cautious file wins.
    pub fn releasable_held_chunks(&self) -> (list: Vec<ContentHash>)
        requires
            self.wf(),
        ensures
            db::hashes(list@).no_duplicates(),
            forall|h: Seq<u8>| #[trigger]
                db::hashes(list@).contains(h) <==> releasable(self@, h),
    {
        let ghost ix = self@;
        let mut list: Vec<ContentHash> = Vec::new();
        let mut i: usize = 0;
        while i < self.files.len()
            invariant
                i <= self.files@.len(),
                self.wf(),
                ix == self@,
                db::hashes(list@).no_duplicates(),
                forall|h: Seq<u8>| #[trigger]
                    db::hashes(list@).contains(h) ==> releasable(ix, h),
                forall|j: int, h: Seq<u8>|
                    #![trigger ix.files[j].chunks.contains(h)]
                    0 <= j < i && collected(ix, ix.files[j]) && ix.files[j].chunks.contains(h)
                        && releasable(ix, h) ==> db::hashes(list@).contains(h),
            decreases self.files@.len() - i,
        {
            assert(ix.files[i as int] == self.files@[i as int]@);
            let f: &FileRow = &self.files[i];
            if f.deleted_at.is_none() && f.scope.is_some() && self.has_replica(
                &f.content_hash,
                &f.scope,
                false,
            ) {
                self.add_releasable(i, &mut list);
            }
            i += 1;
        }
        proof {
            let all = db::hashes(list@);
            assert forall|h: Seq<u8>| #[trigger] all.contains(h) <==> releasable(ix, h) by {
                if releasable(ix, h) {
                    let j = choose|j: int|
                        #![trigger ix.files[j]]
                        0 <= j < ix.files.len() && collected(ix, ix.files[j])
                            && ix.files[j].chunks.contains(h);
                    assert(all.contains(h));
                }
            }
        }
        list
    }

    /// Adds the chunks of one file that nothing needs.
    fn add_releasable(&self, i: usize, list: &mut Vec<ContentHash>)
        requires
            self.wf(),
            i < self.files@.len(),
            collected(self@, self@.files[i as int]),
            db::hashes(old(list)@).no_duplicates(),
            forall|h: Seq<u8>| #[trigger]
                db::hashes(old(list)@).contains(h) ==> releasable(self@, h),
        ensures
            db::hashes(final(list)@).no_duplicates(),
            forall|h: Seq<u8>| #[trigger]
                db::hashes(final(list)@).contains(h) ==> releasable(self@, h),
            forall|h: Seq<u8>| #[trigger]
                db::hashes(old(list)@).contains(h) ==> db::hashes(final(list)@).contains(h),
            forall|h: Seq<u8>| #[trigger]
                self@.files[i as int].chunks.contains(h) && releasable(self@, h) ==> db::hashes(
                    final(list)@,
                ).contains(h),
    {
        let ghost ix = self@;
        let ghost chunks = ix.files[i as int].chunks;
        let mut k: usize = 0;
        while k < self.files[i].chunks.len()
            invariant
                self.wf(),
                ix == self@,
                i < self.files@.len(),
                chunks == db::hashes(self.files@[i as int].chunks@),
                chunks == ix.files[i as int].chunks,
                collected(ix, ix.files[i as int]),
                k <= chunks.len(),
                db::hashes(list@).no_duplicates(),
                forall|h: Seq<u8>| #[trigger]
                    db::hashes(list@).contains(h) ==> releasable(ix, h),
                forall|h: Seq<u8>| #[trigger]
                    db::hashes(old(list)@).contains(h) ==> db::hashes(list@).contains(h),
                forall|n: int|
                    #![trigger chunks[n]]
                    0 <= n < k && releasable(ix, chunks[n]) ==> db::hashes(list@).contains(
                        chunks[n],
                    ),
            decreases chunks.len() - k,
        {
            let hash: ContentHash = self.files[i].chunks[k];
            assert(chunks[k as int] == hash@);
            assert(chunks.contains(hash@));
            if !has_hash(list, &hash) && !self.is_needed(&hash) {
                let ghost before = db::hashes(list@);
                list.push(hash);
                proof {
                    let after = before.push(hash@);
                    assert(db::hashes(list@) =~= after);
                    assert(after[before.len() as int] == hash@);
                    assert forall|g: Seq<u8>| #[trigger] before.contains(g) implies after.contains(
                        g,
                    ) by {
                        let n = choose|n: int| 0 <= n < before.len() && before[n] == g;
                        assert(after[n] == g);
                    }
                    assert forall|g: Seq<u8>| #[trigger] after.contains(g) implies releasable(
                        ix,
                        g,
                    ) by {
                        let n = choose|n: int| 0 <= n < after.len() && after[n] == g;
                        if n < before.len() {
                            assert(before[n] == g);
                            assert(before.contains(g));
                        } else {
                            assert(collected(ix, ix.files[i as int]));
                        }
                    }
                }
            }
            k += 1;
        }
        proof {
            assert forall|h: Seq<u8>| #[trigger] chunks.contains(h) && releasable(
                ix,
                h,
            ) implies db::hashes(list@).contains(h) by {
                let n = choose|n: int| 0 <= n < chunks.len() && chunks[n] == h;
                assert(chunks[n] == h);
            }
        }
    }

    /// Put a path in a device's private vault, or back in the shared area. Says
    /// whether there was such a path. One place cannot hold a path twice: where
    /// several places hold it, they cannot all be moved to one.
    pub fn set_scope(&mut self, path: &str, vault: Option<&DeviceId>) -> (result: Result<
        bool,
        Error,
    >)
        requires
            old(self).wf(),
        ensures
            final(self).wf(),
            match result {
                Ok(changed) => {
                    &&& files_at(old(self)@.files, path@) <= 1
                    &&& changed == (files_at(old(self)@.files, path@) == 1)
                    &&& final(self)@ == moved(
                        old(self)@,
                        path@,
                        match vault {
                            Some(d) => Some(d@),
                            None => None,
                        },
                    )
                },
                Err(e) => {
                    &&& files_at(old(self)@.files, path@) > 1
                    &&& e@ == (Fault::Db {
                        detail: if vault is Some {
                            "UNIQUE constraint failed: files.scope, files.path"@
                        } else {
                            "UNIQUE constraint failed: files.path"@
                        },
                    })
                    &&& final(self)@ == old(self)@
                },
            },
    {
        let ghost ix = self@;
        let n: usize = self.first_with(path, 0);
        proof {
            count_from_first(ix.files, path@);
        }
        if n == self.files.len() {
            return Ok(false);
        }
        let m: usize = self.first_with(path, n + 1);
        if m < self.files.len() {
            let detail: String = if vault.is_some() {
                "UNIQUE constraint failed: files.scope, files.path".to_owned()
            } else {
                "UNIQUE constraint failed: files.path".to_owned()
            };
            return Err(Error::Db { detail });
        }
        let mut row: FileRow = self.copy_row(n);
        row.scope = match vault {
            Some(d) => Some(*d),
            None => None,
        };
        proof {
            distinct_after_move(ix.files, n as int, row@);
        }
        self.files.set(n, row);
        proof {
            assert(self@.files =~= ix.files.update(n as int, row@));
        }
        Ok(true)
    }

    /// Where the first file with a path stands, from some place on.
    fn first_with(&self, path: &str, from: usize) -> (n: usize)
        requires
            from <= self.files@.len(),
        ensures
            n == first_at(self@.files, path@, from as int),
            from <= n <= self.files@.len(),
            n < self.files@.len() ==> self@.files[n as int].path == path@,
            forall|j: int|
                #![trigger self@.files[j]]
                from <= j < n ==> self@.files[j].path != path@,
    {
        let mut n: usize = from;
        while n < self.files.len()
            invariant
                from <= n <= self.files@.len(),
                first_at(self@.files, path@, from as int) == first_at(
                    self@.files,
                    path@,
                    n as int,
                ),
                forall|j: int|
                    #![trigger self@.files[j]]
                    from <= j < n ==> self@.files[j].path != path@,
            decreases self.files@.len() - n,
        {
            assert(self@.files[n as int] == self.files@[n as int]@);
            if same_text(self.files[n].path.as_str(), path) {
                return n;
            }
            n += 1;
        }
        n
    }

    /// Which vault a path belongs to, if any. Where several places hold the
    /// path, the first that came to be known answers.
    pub fn scope_of(&self, path: &str) -> (vault: Option<DeviceId>)
        ensures
            db::device_view(vault) == ({
                let n = first_at(self@.files, path@, 0);
                if n < self@.files.len() {
                    self@.files[n].scope
                } else {
                    None
                }
            }),
    {
        let n: usize = self.first_with(path, 0);
        if n < self.files.len() {
            assert(self@.files[n as int] == self.files@[n as int]@);
            self.files[n].scope
        } else {
            None
        }
    }
}

proof fn no_files_at(files: Seq<File>, path: Seq<char>)
    ensures
        files_at(files, path) <= files.len(),
        files_at(files, path) == 0 <==> forall|j: int|
            #![trigger files[j]]
            0 <= j < files.len() ==> files[j].path != path,
    decreases files.len(),
{
    if files.len() > 0 {
        let rest = files.drop_last();
        no_files_at(rest, path);
        if files_at(rest, path) == 0 {
            assert forall|j: int| #![trigger files[j]] 0 <= j < files.len() && files.last().path
                != path implies files[j].path != path by {
                if j < rest.len() {
                    assert(rest[j] == files[j]);
                }
            }
        } else {
            let j = choose|j: int| #![trigger rest[j]] 0 <= j < rest.len() && rest[j].path == path;
            assert(files[j].path == path);
        }
    }
}

/// Two files with a path are more than one.
proof fn two_files_at(files: Seq<File>, path: Seq<char>)
    ensures
        files_at(files, path) <= 1 <==> forall|i: int, j: int|
            #![trigger files[i], files[j]]
            0 <= i < j < files.len() ==> !(files[i].path == path && files[j].path == path),
    decreases files.len(),
{
    if files.len() > 0 {
        let rest = files.drop_last();
        let n = files.len() - 1;
        two_files_at(rest, path);
        no_files_at(rest, path);
        if files_at(files, path) <= 1 {
            assert forall|i: int, j: int|
                #![trigger files[i], files[j]]
                0 <= i < j < files.len() implies !(files[i].path == path && files[j].path == path) by {
                assert(rest[i] == files[i]);
                if j < n {
                    assert(rest[j] == files[j]);
                }
            }
        } else if files_at(rest, path) <= 1 {
            let i = choose|i: int| #![trigger rest[i]] 0 <= i < rest.len() && rest[i].path == path;
            assert(files[i].path == path && files[n].path == path);
        } else {
            let (i, j) = choose|i: int, j: int|
                #![trigger rest[i], rest[j]]
                0 <= i < j < rest.len() && rest[i].path == path && rest[j].path == path;
            assert(files[i].path == path && files[j].path == path);
        }
    }
}

proof fn count_from_first(files: Seq<File>, path: Seq<char>)
    ensures
        files_at(files, path) == 0 <==> forall|j: int|
            #![trigger files[j]]
            0 <= j < files.len() ==> files[j].path != path,
        files_at(files, path) <= 1 <==> forall|i: int, j: int|
            #![trigger files[i], files[j]]
            0 <= i < j < files.len() ==> !(files[i].path == path && files[j].path == path),
{
    no_files_at(files, path);
    two_files_at(files, path);
}

/// A row that is the only one with its path can be moved.
proof fn distinct_after_move(files: Seq<File>, n: int, f: File)
    requires
        db::files_distinct(files),
        0 <= n < files.len(),
        f.id == files[n].id,
        f.path == files[n].path,
        forall|j: int|
            #![trigger files[j]]
            0 <= j < files.len() && j != n ==> files[j].path != f.path,
    ensures
        db::files_distinct(files.update(n, f)),
{
    let next = files.update(n, f);
    assert forall|a: int, b: int| #![trigger next[a], next[b]] 0 <= a < b < next.len() implies next[a].id
        < next[b].id && !(next[a].path == next[b].path && next[a].scope == next[b].scope) by {
        assert(files[a].id < files[b].id);
    }
}

/// Devices, as values.
pub open spec fn device_views(s: Seq<DeviceId>) -> Seq<Seq<u8>> {
    Seq::new(s.len(), |i: int| s[i]@)
}

fn has_device(list: &Vec<DeviceId>, device: &DeviceId) -> (yes: bool)
    ensures
        yes == device_views(list@).contains(device@),
{
    let ghost all = device_views(list@);
    let mut i: usize = 0;
    while i < list.len()
        invariant
            i <= list@.len(),
            all == device_views(list@),
            forall|j: int| 0 <= j < i ==> #[trigger] all[j] != device@,
        decreases list@.len() - i,
    {
        assert(all[i as int] == list@[i as int]@);
        if list[i] == *device {
            return true;
        }
        i += 1;
    }
    false
}

/// Nobody is told of what lies in another device's vault.
pub proof fn law_a_vault_is_invisible_to_others(
    ix: Index,
    audience: Audience,
    list: Seq<(Version, bool)>,
    n: int,
)
    requires
        !(audience is Ourselves),
        are_offers(ix, audience, list),
        0 <= n < list.len(),
    ensures
        exists|i: int|
            0 <= i < ix.files.len() && visible(#[trigger] ix.files[i], audience)
                && queries::version_of(ix.files[i]) == list[n].0 && list[n].1 == (
            ix.files[i].scope is Some),
{
    match audience {
        Audience::Ourselves => {},
        Audience::Unplaced => {
            let all = choose|all: Seq<Version>| #[trigger]
                queries::are_versions(ix, Which::Shared, all) && list == marked(all, false);
            offered(ix, Which::Shared, all, n);
        },
        Audience::Device(d) => {
            let (ours, theirs) = choose|ours: Seq<Version>, theirs: Seq<Version>|
                #![trigger marked(ours, false), marked(theirs, true)]
                queries::are_versions(ix, Which::Shared, ours) && queries::are_versions(
                    ix,
                    Which::Vault(d),
                    theirs,
                ) && list == marked(ours, false) + marked(theirs, true);
            if n < ours.len() {
                offered(ix, Which::Shared, ours, n);
                assert(list[n] == (ours[n], false));
            } else {
                offered(ix, Which::Vault(d), theirs, n - ours.len());
                assert(list[n] == (theirs[n - ours.len()], true));
            }
        },
    }
}

proof fn offered(ix: Index, which: Which, list: Seq<Version>, n: int)
    requires
        queries::are_versions(ix, which, list),
        0 <= n < list.len(),
    ensures
        exists|i: int|
            0 <= i < ix.files.len() && listing::meant(ix, which, #[trigger] ix.files[i])
                && queries::version_of(ix.files[i]) == list[n],
{
    let picks = choose|picks: Seq<usize>| #[trigger]
        listing::is_listing(ix, which, By::Path, picks) && list.len() == picks.len() && forall|
            k: int,
        |
            #![trigger list[k]]
            0 <= k < list.len() ==> list[k] == queries::version_of(ix.files[picks[k] as int]);
    assert(list[n] == queries::version_of(ix.files[picks[n] as int]));
    assert(listing::meant(ix, which, ix.files[picks[n] as int]));
}

/// The first file with a path, in whatever place, is found where it stands.
proof fn first_with_path(files: Seq<File>, path: Seq<char>, from: int)
    requires
        0 <= from <= files.len(),
    ensures
        from <= first_at(files, path, from) <= files.len(),
        first_at(files, path, from) < files.len() ==> files[first_at(files, path, from)].path
            == path,
        forall|j: int|
            #![trigger files[j]]
            from <= j < first_at(files, path, from) ==> files[j].path != path,
    decreases files.len() - from,
{
    if from < files.len() && files[from].path != path {
        first_with_path(files, path, from + 1);
    }
}

/// Moving a path changes where its one file is kept and nothing else. It is refused
/// exactly where two files have the path, and does nothing where none has.
pub proof fn law_a_move_changes_the_place_only(
    ix: Index,
    path: Seq<char>,
    scope: Option<Seq<u8>>,
)
    ensures
        files_at(ix.files, path) > 1 <==> exists|i: int, j: int|
            #![trigger ix.files[i], ix.files[j]]
            0 <= i < j < ix.files.len() && ix.files[i].path == path && ix.files[j].path == path,
        files_at(ix.files, path) >= 1 <==> exists|i: int|
            #![trigger ix.files[i]]
            0 <= i < ix.files.len() && ix.files[i].path == path,
        files_at(ix.files, path) <= 1 ==> {
            let after = moved(ix, path, scope);
            &&& after.files.len() == ix.files.len()
            &&& forall|i: int|
                #![trigger after.files[i]]
                0 <= i < ix.files.len() ==> after.files[i] == if ix.files[i].path == path {
                    File { scope, ..ix.files[i] }
                } else {
                    ix.files[i]
                }
            &&& after == (Index { files: after.files, ..ix })
        },
{
    no_files_at(ix.files, path);
    two_files_at(ix.files, path);
    first_with_path(ix.files, path, 0);
    let n = first_at(ix.files, path, 0);
    let after = moved(ix, path, scope);
    if files_at(ix.files, path) <= 1 {
        assert forall|i: int| #![trigger after.files[i]] 0 <= i < ix.files.len() implies after.files[i]
            == if ix.files[i].path == path {
            File { scope, ..ix.files[i] }
        } else {
            ix.files[i]
        } by {
            if i > n {
                assert(!(ix.files[n].path == path && ix.files[i].path == path));
            }
        }
    }
}

/// What is awaited is what lies in a vault whose device is not known to have it.
pub proof fn law_a_delivery_is_awaited_until_it_was_taken(ix: Index, f: File, d: Seq<u8>)
    requires
        f.scope == Some(d),
        f.deleted_at is None,
    ensures
        awaited(ix, f) <==> !ix.replicas.contains_key((f.content_hash, d)),
{
}

/// A content is held in a place where a file of that place that was not deleted has
/// it: in the shared area that of no device, in a vault that of its own.
pub proof fn law_a_content_is_held_in_one_place(f: File, content: Seq<u8>, d: Seq<u8>)
    ensures
        held_in(f, content, None) ==> f.scope is None,
        held_in(f, content, Some(d)) ==> f.scope == Some(d),
        held_in(f, content, f.scope) <==> f.deleted_at is None && f.content_hash == content,
{
}

} // verus!
