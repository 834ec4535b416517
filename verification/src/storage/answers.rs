//! What the answers to questions about the index say of its files.

use vstd::prelude::*;

use super::chunker::ContentHash;
use super::db::{File, Index};
use super::listing;
use super::listing::{By, Which};
use super::promises;
use super::queries;
use super::vault;
use super::vault::Audience;
use crate::order;
use crate::sync::device::DeviceId;
use crate::sync::version::Version;

verus! {

/// A live file of the shared area.
pub open spec fn is_shared(f: File) -> bool {
    f.deleted_at is None && f.scope is None
}

/// Some device is known to hold the content where it could be asked for it.
pub open spec fn could_be_fetched(ix: Index, content: Seq<u8>) -> bool {
    exists|k: (Seq<u8>, Seq<u8>)| #[trigger]
        ix.replicas.contains_key(k) && k.0 == content && !ix.replicas[k].1
}

/// Some device is known to hold the content.
pub open spec fn is_elsewhere(ix: Index, content: Seq<u8>) -> bool {
    exists|k: (Seq<u8>, Seq<u8>)| #[trigger] ix.replicas.contains_key(k) && k.0 == content
}

proof fn where_content_is(ix: Index, content: Seq<u8>)
    ensures
        listing::reachable(ix, content) <==> could_be_fetched(ix, content),
        listing::delivered(ix, content) <==> is_elsewhere(ix, content),
{
    if could_be_fetched(ix, content) {
        let k = choose|k: (Seq<u8>, Seq<u8>)| #[trigger]
            ix.replicas.contains_key(k) && k.0 == content && !ix.replicas[k].1;
        assert(ix.replicas.contains_key((content, k.1)));
    }
    if is_elsewhere(ix, content) {
        let k = choose|k: (Seq<u8>, Seq<u8>)| #[trigger]
            ix.replicas.contains_key(k) && k.0 == content;
        assert(ix.replicas.contains_key((content, k.1)));
    }
}

/// Some file that is meant has the path.
pub open spec fn is_path_of(ix: Index, path: Seq<char>, is_meant: spec_fn(File) -> bool) -> bool {
    exists|f: File| #[trigger] ix.files.contains(f) && is_meant(f) && f.path == path
}

/// Each listed path is that of a file that is meant, and each such file's path is
/// listed.
pub open spec fn lists_paths(ix: Index, list: Seq<Seq<char>>, is_meant: spec_fn(File) -> bool) -> bool {
    &&& forall|f: File| #[trigger] ix.files.contains(f) && is_meant(f) ==> list.contains(f.path)
    &&& forall|k: int| 0 <= k < list.len() ==> #[trigger] is_path_of(ix, list[k], is_meant)
    &&& forall|k: int, l: int|
        #![trigger list[k], list[l]]
        0 <= k < l < list.len() ==> order::text_precedes(list[k], list[l])
}

proof fn paths_are_listed(
    ix: Index,
    which: Which,
    list: Seq<Seq<char>>,
    is_meant: spec_fn(File) -> bool,
)
    requires
        queries::are_paths(ix, which, list),
        forall|f: File| #[trigger] listing::meant(ix, which, f) <==> is_meant(f),
    ensures
        lists_paths(ix, list, is_meant),
{
    assert forall|f: File| #[trigger] ix.files.contains(f) && is_meant(f) implies list.contains(
        f.path,
    ) by {
        let i = choose|i: int| 0 <= i < ix.files.len() && ix.files[i] == f;
        assert(listing::meant(ix, which, ix.files[i]));
    }
    assert forall|k: int| 0 <= k < list.len() implies #[trigger] is_path_of(
        ix,
        list[k],
        is_meant,
    ) by {
        assert(list.contains(list[k]));
        let i = choose|i: int|
            0 <= i < ix.files.len() && listing::meant(ix, which, #[trigger] ix.files[i])
                && ix.files[i].path == list[k];
        assert(ix.files.contains(ix.files[i]));
    }
}

/// The live paths are the paths of the files of the shared area that were not
/// deleted, each once and in order.
pub proof fn law_live_paths_are_those_not_deleted(ix: Index, list: Seq<Seq<char>>)
    requires
        queries::are_paths(ix, Which::Live, list),
    ensures
        lists_paths(ix, list, |f: File| f.deleted_at is None && f.scope is None),
{
    paths_are_listed(ix, Which::Live, list, |f: File| f.deleted_at is None && f.scope is None);
}

/// The evicted paths are the live ones whose bytes are not held here.
pub proof fn law_evicted_paths_are_those_without_bytes(ix: Index, list: Seq<Seq<char>>)
    requires
        queries::are_paths(ix, Which::Evicted, list),
    ensures
        lists_paths(ix, list, |f: File| is_shared(f) && !f.materialised),
{
    paths_are_listed(ix, Which::Evicted, list, |f: File| is_shared(f) && !f.materialised);
}

/// The wanted paths are the live ones whose bytes were asked for and have not
/// come.
pub proof fn law_wanted_paths_are_those_asked_for(ix: Index, list: Seq<Seq<char>>)
    requires
        queries::are_paths(ix, Which::Wanted, list),
    ensures
        lists_paths(ix, list, |f: File| is_shared(f) && f.wanted && !f.materialised),
{
    paths_are_listed(
        ix,
        Which::Wanted,
        list,
        |f: File| is_shared(f) && f.wanted && !f.materialised,
    );
}

/// The paths that use a chunk are those of the files, wherever they are kept,
/// that were not deleted and are made of it.
pub proof fn law_paths_using_a_chunk_are_made_of_it(
    ix: Index,
    hash: ContentHash,
    list: Seq<Seq<char>>,
)
    requires
        queries::are_paths(ix, Which::Using(&hash), list),
    ensures
        lists_paths(ix, list, |f: File| f.deleted_at is None && f.chunks.contains(hash@)),
{
    paths_are_listed(
        ix,
        Which::Using(&hash),
        list,
        |f: File| f.deleted_at is None && f.chunks.contains(hash@),
    );
}

/// The places are those of the files that are meant, each once.
pub open spec fn picks_files(ix: Index, picks: Seq<usize>, is_meant: spec_fn(File) -> bool) -> bool {
    &&& picks.no_duplicates()
    &&& forall|k: int|
        #![trigger picks[k]]
        0 <= k < picks.len() ==> picks[k] < ix.files.len() && is_meant(ix.files[picks[k] as int])
    &&& forall|i: int|
        #![trigger ix.files[i]]
        0 <= i < ix.files.len() && is_meant(ix.files[i]) ==> picks.contains(i as usize)
}

/// What may be dropped is what is held here and could be fetched from another
/// device, the longest untouched first; among those touched at once, the larger
/// first.
pub proof fn law_what_may_be_dropped_comes_coldest_first(ix: Index, picks: Seq<usize>)
    requires
        listing::is_listing(ix, Which::Evictable, By::Coldest, picks),
    ensures
        picks_files(
            ix,
            picks,
            |f: File| is_shared(f) && f.materialised && could_be_fetched(ix, f.content_hash),
        ),
        forall|k: int, l: int|
            #![trigger picks[k], picks[l]]
            0 <= k < l < picks.len() ==> {
                let a = ix.files[picks[k] as int];
                let b = ix.files[picks[l] as int];
                a.touched_at <= b.touched_at && (a.touched_at == b.touched_at ==> a.size
                    >= b.size)
            },
{
    assert forall|f: File| #[trigger] listing::meant(ix, Which::Evictable, f) <==> (is_shared(f)
        && f.materialised && could_be_fetched(ix, f.content_hash)) by {
        where_content_is(ix, f.content_hash);
    }
}

/// What is undelivered is what was last changed here and is known to be nowhere
/// else, the latest change first.
pub proof fn law_what_is_undelivered_is_nowhere_else(ix: Index, picks: Seq<usize>)
    requires
        listing::is_listing(ix, Which::Undelivered, By::Newest, picks),
    ensures
        picks_files(
            ix,
            picks,
            |f: File|
                is_shared(f) && f.modified_by == Some(ix.device) && !is_elsewhere(
                    ix,
                    f.content_hash,
                ),
        ),
        newest_first(ix, picks),
{
    assert forall|f: File| #[trigger] listing::meant(ix, Which::Undelivered, f) <==> (is_shared(f)
        && f.modified_by == Some(ix.device) && !is_elsewhere(ix, f.content_hash)) by {
        where_content_is(ix, f.content_hash);
    }
}

/// What is pending is what lies in the vault of a device that is not known to
/// have it, the latest first.
pub proof fn law_what_is_pending_was_not_taken(ix: Index, picks: Seq<usize>)
    requires
        listing::is_listing(ix, Which::Pending, By::Newest, picks),
    ensures
        picks_files(
            ix,
            picks,
            |f: File|
                f.deleted_at is None && f.scope is Some && !ix.replicas.contains_key(
                    (f.content_hash, f.scope->0),
                ),
        ),
        newest_first(ix, picks),
{
}

/// The latest change comes first; of two at one time, the lesser path.
pub open spec fn newest_first(ix: Index, picks: Seq<usize>) -> bool {
    forall|k: int, l: int|
        #![trigger picks[k], picks[l]]
        0 <= k < l < picks.len() ==> {
            let a = ix.files[picks[k] as int];
            let b = ix.files[picks[l] as int];
            a.updated_at >= b.updated_at && (a.updated_at == b.updated_at
                ==> !order::text_precedes(b.path, a.path))
        }
}

/// Some version of the list tells of the file.
pub open spec fn is_told(list: Seq<Version>, f: File) -> bool {
    exists|k: int| 0 <= k < list.len() && promises::tells(#[trigger] list[k], f)
}

/// The version tells of some file that is meant.
pub open spec fn tells_one(ix: Index, v: Version, is_meant: spec_fn(File) -> bool) -> bool {
    exists|i: int|
        0 <= i < ix.files.len() && is_meant(#[trigger] ix.files[i]) && promises::tells(
            v,
            ix.files[i],
        )
}

/// Each version of the list tells of a file that is meant, each such file is told
/// of, and they come by path.
pub open spec fn tells_files(ix: Index, list: Seq<Version>, is_meant: spec_fn(File) -> bool) -> bool {
    &&& forall|i: int|
        0 <= i < ix.files.len() && is_meant(ix.files[i]) ==> #[trigger] is_told(list, ix.files[i])
    &&& forall|k: int| 0 <= k < list.len() ==> #[trigger] tells_one(ix, list[k], is_meant)
    &&& forall|k: int, l: int|
        #![trigger list[k], list[l]]
        0 <= k < l < list.len() ==> !order::text_precedes(list[l].path, list[k].path)
}

proof fn files_are_told(
    ix: Index,
    which: Which,
    list: Seq<Version>,
    is_meant: spec_fn(File) -> bool,
)
    requires
        queries::are_versions(ix, which, list),
        forall|f: File| #[trigger] listing::meant(ix, which, f) <==> is_meant(f),
        ix.files.len() <= usize::MAX,
    ensures
        tells_files(ix, list, is_meant),
{
    let picks = choose|picks: Seq<usize>| #[trigger]
        listing::is_listing(ix, which, By::Path, picks) && list.len() == picks.len() && forall|
            k: int,
        |
            #![trigger list[k]]
            0 <= k < list.len() ==> list[k] == queries::version_of(ix.files[picks[k] as int]);
    assert forall|i: int|
        0 <= i < ix.files.len() && is_meant(ix.files[i]) implies #[trigger] is_told(
        list,
        ix.files[i],
    ) by {
        assert(listing::meant(ix, which, ix.files[i]));
        let k = choose|k: int| 0 <= k < picks.len() && picks[k] == i as usize;
        promises::law_a_version_tells_what_the_file_is(ix.files[i], ix.files[i]);
        assert(list[k] == queries::version_of(ix.files[picks[k] as int]));
    }
    assert forall|k: int| 0 <= k < list.len() implies #[trigger] tells_one(
        ix,
        list[k],
        is_meant,
    ) by {
        let i = picks[k] as int;
        assert(listing::meant(ix, which, ix.files[i]));
        promises::law_a_version_tells_what_the_file_is(ix.files[i], ix.files[i]);
    }
    assert forall|k: int, l: int|
        #![trigger list[k], list[l]]
        0 <= k < l < list.len() implies !order::text_precedes(list[l].path, list[k].path) by {
        assert(!listing::ahead(
            By::Path,
            ix.files[picks[l] as int],
            ix.files[picks[k] as int],
        ));
    }
}

/// Every file is told of when all are asked for: tombstones, files whose bytes
/// were dropped, and files in vaults.
pub proof fn law_every_file_is_told_of(ix: Index, list: Seq<Version>)
    requires
        queries::are_versions(ix, Which::All, list),
        ix.files.len() <= usize::MAX,
    ensures
        tells_files(ix, list, |f: File| true),
{
    files_are_told(ix, Which::All, list, |f: File| true);
}

/// Some offer of the list tells of the file, and says whether it is private.
pub open spec fn is_offered(list: Seq<(Version, bool)>, f: File, private: bool) -> bool {
    exists|k: int|
        0 <= k < list.len() && promises::tells((#[trigger] list[k]).0, f) && list[k].1 == private
}

proof fn marked_are_offered(
    ix: Index,
    list: Seq<Version>,
    private: bool,
    is_meant: spec_fn(File) -> bool,
    all: Seq<(Version, bool)>,
    from: int,
)
    requires
        tells_files(ix, list, is_meant),
        0 <= from,
        from + list.len() <= all.len(),
        forall|k: int|
            #![trigger all[from + k]]
            0 <= k < list.len() ==> all[from + k] == (list[k], private),
    ensures
        forall|i: int|
            0 <= i < ix.files.len() && is_meant(ix.files[i]) ==> #[trigger] is_offered(
                all,
                ix.files[i],
                private,
            ),
{
    assert forall|i: int|
        0 <= i < ix.files.len() && is_meant(ix.files[i]) implies #[trigger] is_offered(
        all,
        ix.files[i],
        private,
    ) by {
        assert(is_told(list, ix.files[i]));
        let k = choose|k: int|
            0 <= k < list.len() && promises::tells(#[trigger] list[k], ix.files[i]);
        assert(all[from + k] == (list[k], private));
    }
}

/// A peer is offered the whole shared area, tombstones included, and what lies in
/// its own vault, marked as private; nothing else.
pub proof fn law_a_peer_is_offered_the_shared_area_and_its_vault(
    ix: Index,
    device: DeviceId,
    list: Seq<(Version, bool)>,
)
    requires
        vault::are_offers(ix, Audience::Device(&device), list),
        ix.files.len() <= usize::MAX,
    ensures
        forall|i: int|
            0 <= i < ix.files.len() && ix.files[i].scope is None ==> #[trigger] is_offered(
                list,
                ix.files[i],
                false,
            ),
        forall|i: int|
            0 <= i < ix.files.len() && ix.files[i].scope == Some(device@)
                ==> #[trigger] is_offered(list, ix.files[i], true),
        forall|k: int|
            #![trigger list[k]]
            0 <= k < list.len() ==> tells_one(
                ix,
                list[k].0,
                |f: File|
                    f.scope == if list[k].1 {
                        Some(device@)
                    } else {
                        None
                    },
            ),
{
    let (ours, theirs) = choose|ours: Seq<Version>, theirs: Seq<Version>|
        #![trigger vault::marked(ours, false), vault::marked(theirs, true)]
        queries::are_versions(ix, Which::Shared, ours) && queries::are_versions(
            ix,
            Which::Vault(&device),
            theirs,
        ) && list == vault::marked(ours, false) + vault::marked(theirs, true);
    let shared = |f: File| f.scope is None;
    let private = |f: File| f.scope == Some(device@);
    files_are_told(ix, Which::Shared, ours, shared);
    files_are_told(ix, Which::Vault(&device), theirs, private);
    let n = ours.len() as int;
    assert forall|k: int| #![trigger list[0 + k]] 0 <= k < n implies list[0 + k] == (
        ours[k],
        false,
    ) by {}
    marked_are_offered(ix, ours, false, shared, list, 0);
    marked_are_offered(ix, theirs, true, private, list, n);
    assert forall|k: int| #![trigger list[k]] 0 <= k < list.len() implies tells_one(
        ix,
        list[k].0,
        |f: File|
            f.scope == if list[k].1 {
                Some(device@)
            } else {
                None
            },
    ) by {
        if k < n {
            assert(list[k] == (ours[k], false));
            assert(tells_one(ix, ours[k], shared));
        } else {
            assert(list[k] == (theirs[k - n], true));
            assert(tells_one(ix, theirs[k - n], private));
        }
    }
}

/// A peer whose device is not known is offered the shared area and nothing else,
/// nothing of it private.
pub proof fn law_an_unplaced_peer_is_offered_the_shared_area(ix: Index, list: Seq<(Version, bool)>)
    requires
        vault::are_offers(ix, Audience::Unplaced, list),
        ix.files.len() <= usize::MAX,
    ensures
        forall|i: int|
            0 <= i < ix.files.len() && ix.files[i].scope is None ==> #[trigger] is_offered(
                list,
                ix.files[i],
                false,
            ),
        forall|k: int|
            #![trigger list[k]]
            0 <= k < list.len() ==> !list[k].1 && tells_one(
                ix,
                list[k].0,
                |f: File| f.scope is None,
            ),
{
    let all = choose|all: Seq<Version>| #[trigger]
        queries::are_versions(ix, Which::Shared, all) && list == vault::marked(all, false);
    let shared = |f: File| f.scope is None;
    files_are_told(ix, Which::Shared, all, shared);
    assert forall|k: int| #![trigger list[0 + k]] 0 <= k < all.len() implies list[0 + k] == (
        all[k],
        false,
    ) by {}
    marked_are_offered(ix, all, false, shared, list, 0);
    assert forall|k: int| #![trigger list[k]] 0 <= k < list.len() implies !list[k].1 && tells_one(
        ix,
        list[k].0,
        shared,
    ) by {
        assert(tells_one(ix, all[k], shared));
    }
}

/// A vault is seen by its own device and here, and by nobody else; the shared area
/// is seen by everybody.
pub proof fn law_a_vault_is_seen_by_its_device_alone(
    f: File,
    owner: DeviceId,
    other: DeviceId,
)
    requires
        owner@ != other@,
    ensures
        vault::visible(f, Audience::Ourselves),
        f.scope is None ==> vault::visible(f, Audience::Unplaced) && vault::visible(
            f,
            Audience::Device(&other),
        ),
        f.scope == Some(owner@) ==> vault::visible(f, Audience::Device(&owner)) && !vault::visible(
            f,
            Audience::Device(&other),
        ) && !vault::visible(f, Audience::Unplaced),
{
}

/// A chunk that may be released is held for another device that has it, and
/// leaves no file unreadable: each file made of it was deleted, or is in the
/// folder, or could be fetched, or lies in the vault of a device that has it. A
/// chunk of which both hold may be released.
pub proof fn law_a_release_leaves_every_file_readable(ix: Index, h: Seq<u8>)
    ensures
        vault::releasable(ix, h) <==> {
            &&& exists|f: File| #[trigger]
                ix.files.contains(f) && f.chunks.contains(h) && f.deleted_at is None
                    && f.scope is Some && ix.replicas.contains_key((f.content_hash, f.scope->0))
            &&& forall|f: File| #[trigger]
                ix.files.contains(f) && f.chunks.contains(h) ==> f.deleted_at is Some
                    || f.materialised || could_be_fetched(ix, f.content_hash) || (f.scope is Some
                    && ix.replicas.contains_key((f.content_hash, f.scope->0)))
        },
{
    assert forall|f: File| #[trigger] ix.files.contains(f) implies (vault::needs_the_payload(ix, f)
        <==> f.deleted_at is None && !f.materialised && !could_be_fetched(ix, f.content_hash) && !(
    f.scope is Some && ix.replicas.contains_key((f.content_hash, f.scope->0)))) by {
        where_content_is(ix, f.content_hash);
    }
    if vault::releasable(ix, h) {
        let i = choose|i: int|
            #![trigger ix.files[i]]
            0 <= i < ix.files.len() && vault::collected(ix, ix.files[i])
                && ix.files[i].chunks.contains(h);
        assert(ix.files.contains(ix.files[i]));
        assert forall|f: File| #[trigger]
            ix.files.contains(f) && f.chunks.contains(h) implies !vault::needs_the_payload(
            ix,
            f,
        ) by {
            let j = choose|j: int| 0 <= j < ix.files.len() && ix.files[j] == f;
            assert(!(vault::needs_the_payload(ix, ix.files[j]) && ix.files[j].chunks.contains(h)));
        }
    }
    if (exists|f: File| #[trigger]
        ix.files.contains(f) && f.chunks.contains(h) && f.deleted_at is None && f.scope is Some
            && ix.replicas.contains_key((f.content_hash, f.scope->0))) && (forall|f: File|
        #[trigger]
        ix.files.contains(f) && f.chunks.contains(h) ==> f.deleted_at is Some || f.materialised
            || could_be_fetched(ix, f.content_hash) || (f.scope is Some
            && ix.replicas.contains_key((f.content_hash, f.scope->0)))) {
        let f = choose|f: File| #[trigger]
            ix.files.contains(f) && f.chunks.contains(h) && f.deleted_at is None && f.scope is Some
                && ix.replicas.contains_key((f.content_hash, f.scope->0));
        let i = choose|i: int| 0 <= i < ix.files.len() && ix.files[i] == f;
        assert(vault::collected(ix, ix.files[i]));
        assert forall|j: int|
            #![trigger ix.files[j]]
            0 <= j < ix.files.len() implies !(vault::needs_the_payload(ix, ix.files[j])
            && ix.files[j].chunks.contains(h)) by {
            assert(ix.files.contains(ix.files[j]));
        }
    }
}

/// This device itself is told of every file, wherever it is kept, none of them as
/// private.
pub proof fn law_this_device_is_told_of_everything(ix: Index, list: Seq<(Version, bool)>)
    requires
        vault::are_offers(ix, Audience::Ourselves, list),
        ix.files.len() <= usize::MAX,
    ensures
        forall|i: int| 0 <= i < ix.files.len() ==> #[trigger] is_offered(list, ix.files[i], false),
        forall|k: int|
            #![trigger list[k]]
            0 <= k < list.len() ==> !list[k].1 && tells_one(ix, list[k].0, |f: File| true),
{
    let all = choose|all: Seq<Version>| #[trigger]
        queries::are_versions(ix, Which::All, all) && list == vault::marked(all, false);
    let any = |f: File| true;
    files_are_told(ix, Which::All, all, any);
    assert forall|k: int| #![trigger list[0 + k]] 0 <= k < all.len() implies list[0 + k] == (
        all[k],
        false,
    ) by {}
    marked_are_offered(ix, all, false, any, list, 0);
    assert forall|k: int| #![trigger list[k]] 0 <= k < list.len() implies !list[k].1 && tells_one(
        ix,
        list[k].0,
        any,
    ) by {
        assert(tells_one(ix, all[k], any));
    }
}

} // verus!
