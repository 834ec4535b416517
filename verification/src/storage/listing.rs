//! Which files a question is about, and in what order they come.

use vstd::prelude::*;

use super::chunker::ContentHash;
use super::db;
use super::db::{has_hash, Db, File, FileRow, Index};
use crate::keyed;
use crate::order;
use crate::order::{same_bytes, text_before};
use crate::sync::device::DeviceId;
use crate::text;
use crate::text::{chars_of, same_text, starts_with};

verus! {

/// Some other device is known to hold the content where we could ask for it.
pub open spec fn reachable(ix: Index, content: Seq<u8>) -> bool {
    exists|d: Seq<u8>|
        #![trigger ix.replicas.contains_key((content, d))]
        ix.replicas.contains_key((content, d)) && !ix.replicas[(content, d)].1
}

/// Some other device is known to hold the content.
pub open spec fn delivered(ix: Index, content: Seq<u8>) -> bool {
    exists|d: Seq<u8>|
        #![trigger ix.replicas.contains_key((content, d))]
        ix.replicas.contains_key((content, d))
}

/// The file is live.
pub open spec fn is_live(f: File) -> bool {
    f.deleted_at is None
}

/// A question about files.
pub enum Which<'a> {
    /// Tombstones and vaults included.
    All,
    /// The shared area, tombstones included.
    Shared,
    /// One vault, tombstones included.
    Vault(&'a DeviceId),
    /// Live in the shared area.
    Live,
    /// Live in the shared area, at a path or under a prefix.
    Under(&'a str, &'a str),
    /// Live in the shared area, with the bytes dropped.
    Evicted,
    /// Live in the shared area, with the bytes dropped and asked for.
    Wanted,
    /// Live in the shared area, held here, and known to be elsewhere.
    Evictable,
    /// Live in the shared area, made here, and not known to be anywhere else.
    Undelivered,
    /// Live in a vault whose device has not taken it yet.
    Pending,
    /// Live anywhere, made of a chunk among others.
    Using(&'a ContentHash),
}

/// Whether a question is about a file.
pub open spec fn meant(ix: Index, which: Which, f: File) -> bool {
    match which {
        Which::All => true,
        Which::Shared => f.scope is None,
        Which::Vault(d) => f.scope == Some(d@),
        Which::Live => is_live(f) && f.scope is None,
        Which::Under(at, under) => is_live(f) && f.scope is None && (f.path == at@
            || text::has_prefix(f.path, under@)),
        Which::Evicted => is_live(f) && f.scope is None && !f.materialised,
        Which::Wanted => is_live(f) && f.scope is None && !f.materialised && f.wanted,
        Which::Evictable => is_live(f) && f.scope is None && f.materialised && reachable(
            ix,
            f.content_hash,
        ),
        Which::Undelivered => is_live(f) && f.scope is None && f.modified_by == Some(ix.device)
            && !delivered(ix, f.content_hash),
        Which::Pending => is_live(f) && f.scope is Some && !ix.replicas.contains_key(
            (f.content_hash, f.scope->0),
        ),
        Which::Using(h) => is_live(f) && f.chunks.contains(h@),
    }
}

/// An order of files.
#[derive(Clone, Copy)]
pub enum By {
    Path,
    /// Last touched longest ago first; among those, the largest.
    Coldest,
    /// Last changed first; among those, by path.
    Newest,
}

/// Whether one file has to come before another.
pub open spec fn ahead(by: By, a: File, b: File) -> bool {
    match by {
        By::Path => order::text_precedes(a.path, b.path),
        By::Coldest => a.touched_at < b.touched_at || (a.touched_at == b.touched_at && a.size
            > b.size),
        By::Newest => a.updated_at > b.updated_at || (a.updated_at == b.updated_at
            && order::text_precedes(a.path, b.path)),
    }
}

/// Each file that the question is about, once, in order.
pub open spec fn is_listing(ix: Index, which: Which, by: By, list: Seq<usize>) -> bool {
    &&& forall|k: int|
        #![trigger list[k]]
        0 <= k < list.len() ==> list[k] < ix.files.len() && meant(
            ix,
            which,
            ix.files[list[k] as int],
        )
    &&& forall|i: int|
        #![trigger ix.files[i]]
        0 <= i < ix.files.len() && meant(ix, which, ix.files[i]) ==> list.contains(i as usize)
    &&& list.no_duplicates()
    &&& sorted(ix, by, list)
}

/// Nothing comes after what it has to come before.
pub open spec fn sorted(ix: Index, by: By, list: Seq<usize>) -> bool {
    forall|k: int, l: int|
        #![trigger list[k], list[l]]
        0 <= k < l < list.len() ==> !ahead(
            by,
            ix.files[list[l] as int],
            ix.files[list[k] as int],
        )
}

/// Where `a` has to come before `b`, anything that `b` does not follow comes
/// after `a` too.
proof fn ahead_orders(by: By, a: File, b: File, c: File)
    ensures
        !ahead(by, a, a),
        ahead(by, a, b) && !ahead(by, c, b) ==> ahead(by, a, c),
        !ahead(by, a, b) && !ahead(by, b, c) ==> !ahead(by, a, c),
        ahead(by, a, b) ==> !ahead(by, b, a),
{
    order::text_order(a.path, b.path, c.path);
    order::text_order(a.path, c.path, b.path);
    order::text_order(b.path, c.path, a.path);
    order::text_order(b.path, a.path, c.path);
    order::text_order(c.path, a.path, b.path);
    order::text_order(c.path, b.path, a.path);
}

impl Db {
    /// Whether a device is known to hold the content; where asked, only a device
    /// that could be asked for it, or only the one device.
    pub(crate) fn has_replica(
        &self,
        content: &ContentHash,
        who: &Option<DeviceId>,
        open_only: bool,
    ) -> (yes: bool)
        requires
            self.wf(),
        ensures
            yes == exists|d: Seq<u8>|
                #![trigger self@.replicas.contains_key((content@, d))]
                self@.replicas.contains_key((content@, d)) && (open_only
                    ==> !self@.replicas[(content@, d)].1) && (db::device_view(*who) is Some ==> d
                    == db::device_view(*who)->0),
    {
        let ghost s = db::replica_pairs(self.replicas@);
        let mut i: usize = 0;
        while i < self.replicas.len()
            invariant
                i <= self.replicas@.len(),
                self.wf(),
                s == db::replica_pairs(self.replicas@),
                forall|j: int|
                    #![trigger s[j]]
                    0 <= j < i ==> !(s[j].0.0 == content@ && (open_only ==> !s[j].1.1) && (
                    db::device_view(*who) is Some ==> s[j].0.1 == db::device_view(*who)->0)),
            decreases self.replicas@.len() - i,
        {
            assert(s[i as int].0.0 == self.replicas@[i as int].content_hash@);
            let right: bool = match who {
                Some(d) => self.replicas[i].device_id == *d,
                None => true,
            };
            if right && !(open_only && self.replicas[i].private) && same_bytes(
                &self.replicas[i].content_hash,
                content,
            ) {
                proof {
                    keyed::entry_in_map(s, i as int);
                    assert(self@.replicas.contains_key((content@, s[i as int].0.1)));
                }
                return true;
            }
            i += 1;
        }
        proof {
            assert forall|d: Seq<u8>|
                #![trigger self@.replicas.contains_key((content@, d))]
                self@.replicas.contains_key((content@, d)) implies !((open_only
                    ==> !self@.replicas[(content@, d)].1) && (db::device_view(*who) is Some ==> d
                == db::device_view(*who)->0)) by {
                keyed::key_in_map(s, (content@, d));
                let j = keyed::position(s, (content@, d));
                keyed::entry_in_map(s, j);
                assert(s[j].0 == (content@, d));
            }
        }
        false
    }

    /// Whether a question is about a file.
    fn is_meant(&self, which: &Which<'_>, i: usize) -> (yes: bool)
        requires
            self.wf(),
            i < self.files@.len(),
        ensures
            yes == meant(self@, *which, self@.files[i as int]),
    {
        let f: &FileRow = &self.files[i];
        assert(self@.files[i as int] == f@);
        let shared: bool = f.deleted_at.is_none() && f.scope.is_none();
        match which {
            Which::All => true,
            Which::Shared => f.scope.is_none(),
            Which::Vault(d) => match f.scope {
                Some(s) => s == **d,
                None => false,
            },
            Which::Live => shared,
            Which::Under(at, under) => {
                if !shared {
                    false
                } else if same_text(f.path.as_str(), at) {
                    true
                } else {
                    let chars: Vec<char> = chars_of(f.path.as_str());
                    assert(chars@.skip(0) =~= chars@);
                    starts_with(chars.as_slice(), 0, under)
                }
            },
            Which::Evicted => shared && !f.materialised,
            Which::Wanted => shared && !f.materialised && f.wanted,
            Which::Evictable => shared && f.materialised && self.has_replica(
                &f.content_hash,
                &None,
                true,
            ),
            Which::Undelivered => shared && (match f.modified_by {
                Some(d) => d == self.device,
                None => false,
            }) && !self.has_replica(&f.content_hash, &None, false),
            Which::Pending => f.deleted_at.is_none() && f.scope.is_some() && !self.has_replica(
                &f.content_hash,
                &f.scope,
                false,
            ),
            Which::Using(h) => f.deleted_at.is_none() && has_hash(&f.chunks, h),
        }
    }

    /// Whether one file has to come before another.
    fn is_ahead(&self, by: By, i: usize, j: usize) -> (yes: bool)
        requires
            i < self.files@.len(),
            j < self.files@.len(),
        ensures
            yes == ahead(by, self@.files[i as int], self@.files[j as int]),
    {
        let a: &FileRow = &self.files[i];
        let b: &FileRow = &self.files[j];
        assert(self@.files[i as int] == a@ && self@.files[j as int] == b@);
        match by {
            By::Path => text_before(a.path.as_str(), b.path.as_str()),
            By::Coldest => a.touched_at < b.touched_at || (a.touched_at == b.touched_at && a.size
                > b.size),
            By::Newest => a.updated_at > b.updated_at || (a.updated_at == b.updated_at
                && text_before(a.path.as_str(), b.path.as_str())),
        }
    }

    /// Puts one more into a list that is in order.
    fn put_in_order(&self, by: By, list: &mut Vec<usize>, i: usize)
        requires
            i < self.files@.len(),
            forall|k: int|
                #![trigger old(list)@[k]]
                0 <= k < old(list)@.len() ==> old(list)@[k] < self.files@.len(),
            sorted(self@, by, old(list)@),
        ensures
            sorted(self@, by, final(list)@),
            exists|k: int|
                0 <= k <= old(list)@.len() && final(list)@ == #[trigger] old(list)@.insert(k, i),
    {
        let ghost before = list@;
        let ghost files = self@.files;
        let mut k: usize = list.len();
        while k > 0 && self.is_ahead(by, i, list[k - 1])
            invariant
                k <= list@.len(),
                list@ == before,
                files == self@.files,
                i < self.files@.len(),
                forall|l: int|
                    #![trigger before[l]]
                    0 <= l < before.len() ==> before[l] < self.files@.len(),
                forall|l: int|
                    #![trigger before[l]]
                    k <= l < before.len() ==> ahead(by, files[i as int], files[before[l] as int]),
            decreases k,
        {
            k -= 1;
        }
        list.insert(k, i);
        proof {
            let after = before.insert(k as int, i);
            assert(list@ == after);
            assert forall|a: int, b: int|
                #![trigger after[a], after[b]]
                0 <= a < b < after.len() implies !ahead(
                by,
                files[after[b] as int],
                files[after[a] as int],
            ) by {
                if a != k && b != k {
                    let p = if a < k { a } else { a - 1 };
                    let q = if b < k { b } else { b - 1 };
                    assert(after[a] == before[p] && after[b] == before[q]);
                } else if a == k {
                    assert(after[b] == before[b - 1]);
                    ahead_orders(
                        by,
                        files[i as int],
                        files[before[b - 1] as int],
                        files[i as int],
                    );
                } else {
                    assert(after[a] == before[a]);
                    assert(!ahead(by, files[i as int], files[before[k - 1] as int]));
                    if a < k - 1 {
                        assert(!ahead(by, files[before[k - 1] as int], files[before[a] as int]));
                    }
                    ahead_orders(
                        by,
                        files[i as int],
                        files[before[k - 1] as int],
                        files[before[a] as int],
                    );
                }
            }
        }
    }

    /// Each file that the question is about, once, in order.
    pub(crate) fn listing(&self, which: &Which<'_>, by: By) -> (list: Vec<usize>)
        requires
            self.wf(),
        ensures
            is_listing(self@, *which, by, list@),
    {
        let ghost ix = self@;
        let mut list: Vec<usize> = Vec::new();
        let mut i: usize = 0;
        while i < self.files.len()
            invariant
                i <= self.files@.len(),
                ix == self@,
                self.wf(),
                forall|k: int|
                    #![trigger list@[k]]
                    0 <= k < list@.len() ==> list@[k] < i && meant(
                        ix,
                        *which,
                        ix.files[list@[k] as int],
                    ),
                forall|j: int|
                    #![trigger ix.files[j]]
                    0 <= j < i && meant(ix, *which, ix.files[j]) ==> list@.contains(j as usize),
                list@.no_duplicates(),
                sorted(ix, by, list@),
            decreases self.files@.len() - i,
        {
            if self.is_meant(which, i) {
                let ghost before = list@;
                self.put_in_order(by, &mut list, i);
                proof {
                    let k = choose|k: int|
                        0 <= k <= before.len() && list@ == #[trigger] before.insert(k, i);
                    inserted(before, k, i);
                    assert forall|l: int| #![trigger list@[l]] 0 <= l < list@.len() implies list@[l]
                        < i + 1 && meant(ix, *which, ix.files[list@[l] as int]) by {
                        if l < k {
                            assert(list@[l] == before[l]);
                        } else if l > k {
                            assert(list@[l] == before[l - 1]);
                        }
                    }
                }
            }
            i += 1;
        }
        list
    }
}

/// What putting in one more does to a list.
proof fn inserted(before: Seq<usize>, k: int, i: usize)
    requires
        0 <= k <= before.len(),
        before.no_duplicates(),
        forall|l: int| #![trigger before[l]] 0 <= l < before.len() ==> before[l] < i,
    ensures
        before.insert(k, i).no_duplicates(),
        before.insert(k, i).contains(i),
        forall|x: usize| #[trigger] before.contains(x) ==> before.insert(k, i).contains(x),
{
    let after = before.insert(k, i);
    assert(after[k] == i);
    assert forall|x: usize| #[trigger] before.contains(x) implies after.contains(x) by {
        let l = choose|l: int| 0 <= l < before.len() && before[l] == x;
        let m = if l < k { l } else { l + 1 };
        assert(after[m] == x);
    }
    assert forall|a: int, b: int|
        0 <= a < after.len() && 0 <= b < after.len() && a != b implies after[a] != after[b] by {
        let p = if a < k { a } else { a - 1 };
        let q = if b < k { b } else { b - 1 };
        if a != k {
            assert(after[a] == before[p]);
        }
        if b != k {
            assert(after[b] == before[q]);
        }
        if a != k && b != k {
            assert(before[p] != before[q]);
        }
    }
}

} // verus!
