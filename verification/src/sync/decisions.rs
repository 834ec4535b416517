//! What is decided about a path, in terms of what the two sides hold and know.

use vstd::prelude::*;

use super::calendar;
use super::clock;
use super::clock::Counts;
use super::reconcile;
use super::reconcile::Step;
use super::resolve;
use super::resolve::{Side, Verdict};
use super::version::Version;
use crate::order;
use crate::text;

verus! {

/// For each device the vector knows of as many changes as the better informed of
/// two, and no more.
pub open spec fn knows_both(v: Counts, a: Counts, b: Counts) -> bool {
    forall|d: Seq<u8>| #[trigger]
        clock::count(v, d) == if clock::count(a, d) >= clock::count(b, d) {
            clock::count(a, d)
        } else {
            clock::count(b, d)
        }
}

/// What was resolved knows exactly what the two sides knew together: it claims no
/// change that neither has seen.
pub proof fn law_a_resolution_claims_nothing_unseen(local: Version, remote: Version)
    ensures
        knows_both(resolve::settled_vector(local, remote), local.vector, remote.vector),
{
    let v = resolve::settled_vector(local, remote);
    assert forall|d: Seq<u8>| #[trigger] clock::count(v, d) == if clock::count(local.vector, d)
        >= clock::count(remote.vector, d) {
        clock::count(local.vector, d)
    } else {
        clock::count(remote.vector, d)
    } by {
        if clock::known_to(local.vector, remote.vector) {
            assert(clock::count(local.vector, d) <= clock::count(remote.vector, d));
        }
        if clock::known_to(remote.vector, local.vector) {
            assert(clock::count(remote.vector, d) <= clock::count(local.vector, d));
        }
    }
}

/// What there is to do about a path that both sides know follows from who has seen
/// what. Where each has seen all that the other has, nothing. Where one has seen all
/// that the other has, and more, its version is taken as it is: ours is offered, or
/// the remote one adopted.
pub proof fn law_the_better_informed_side_is_followed(local: Version, remote: Version)
    ensures
        clock::known_to(local.vector, remote.vector) && clock::known_to(
            remote.vector,
            local.vector,
        ) ==> reconcile::step_between(local, remote) is None,
        !clock::known_to(local.vector, remote.vector) && clock::known_to(
            remote.vector,
            local.vector,
        ) ==> reconcile::step_between(local, remote) == Some(Step::Offer { local }),
        clock::known_to(local.vector, remote.vector) && !clock::known_to(
            remote.vector,
            local.vector,
        ) ==> reconcile::step_between(local, remote) == Some(Step::Adopt { remote }),
        reconcile::step_for(Some(local), None) == Some(Step::Offer { local }),
        reconcile::step_for(None, Some(remote)) == Some(Step::Adopt { remote }),
        reconcile::step_for(None, None) is None,
        reconcile::step_for(Some(local), Some(remote)) == reconcile::step_between(local, remote),
{
}

/// Where neither side has seen all that the other has, nothing of either is lost.
/// The same content is kept, with the history of both. A file survives a deletion,
/// at its path. Of two files both are kept: one at the path, and the other beside it
/// under a name of its own, made from its own path, device and time. Whatever is
/// kept knows what both sides knew.
pub proof fn law_what_neither_side_has_seen_is_kept(local: Version, remote: Version)
    requires
        local.path == remote.path,
        !clock::known_to(local.vector, remote.vector),
        !clock::known_to(remote.vector, local.vector),
    ensures
        local.content == remote.content ==> {
            &&& reconcile::step_between(local, remote) matches Some(Step::Merge { resolved })
            &&& resolved.path == local.path
            &&& resolved.content == local.content
            &&& knows_both(resolved.vector, local.vector, remote.vector)
            &&& (resolved.modified_by == local.modified_by && resolved.modified_at
                == local.modified_at) || (resolved.modified_by == remote.modified_by
                && resolved.modified_at == remote.modified_at)
        },
        local.content is File && remote.content is Deleted ==> {
            &&& reconcile::step_between(local, remote) matches Some(Step::Resurrect { resolved })
            &&& resolved == (Version { vector: resolved.vector, ..local })
            &&& knows_both(resolved.vector, local.vector, remote.vector)
        },
        local.content is Deleted && remote.content is File ==> {
            &&& reconcile::step_between(local, remote) matches Some(Step::Resurrect { resolved })
            &&& resolved == (Version { vector: resolved.vector, ..remote })
            &&& knows_both(resolved.vector, local.vector, remote.vector)
        },
        local.content is File && remote.content is File && local.content != remote.content ==> {
            &&& reconcile::step_between(local, remote) matches Some(
                Step::Conflict { keeps_path, renamed },
            )
            &&& knows_both(keeps_path.vector, local.vector, remote.vector)
            &&& knows_both(renamed.vector, local.vector, remote.vector)
            &&& keeps_path == (Version { vector: keeps_path.vector, ..local }) && renamed == (
            Version {
                vector: renamed.vector,
                path: resolve::conflict_name(remote),
                ..remote
            }) || keeps_path == (Version { vector: keeps_path.vector, ..remote }) && renamed == (
            Version { vector: renamed.vector, path: resolve::conflict_name(local), ..local })
        },
{
    law_a_resolution_claims_nothing_unseen(local, remote);
}

/// Of two files that were edited without seeing each other, the one with the greater
/// content hash keeps the path, on whichever side it is, and the other is renamed.
pub proof fn law_the_greater_hash_keeps_the_path(local: Version, remote: Version)
    requires
        resolve::in_conflict(local, remote),
        local.content->hash != remote.content->hash,
    ensures
        order::bytes_precede(remote.content->hash, local.content->hash) ==> resolve::verdict(
            local,
            remote,
        ) == (Verdict::Conflict {
            keeps_path: Side::Local,
            renamed_to: resolve::conflict_name(remote),
        }),
        order::bytes_precede(local.content->hash, remote.content->hash) ==> resolve::verdict(
            local,
            remote,
        ) == (Verdict::Conflict {
            keeps_path: Side::Remote,
            renamed_to: resolve::conflict_name(local),
        }),
{
    order::bytes_order(local.content->hash, remote.content->hash, local.content->hash);
}

/// Two versions of one path that were made by devices whose identities start
/// differently, or whose times of change read differently, get different names when
/// they are put beside it: neither is written over the other.
pub proof fn law_conflict_names_tell_versions_apart(a: Version, b: Version)
    requires
        a.path == b.path,
        a.modified_by.len() == 32,
        b.modified_by.len() == 32,
        resolve::renamable(a.path),
        resolve::conflict_name(a) == resolve::conflict_name(b),
    ensures
        a.modified_by.take(4) == b.modified_by.take(4),
        calendar::utc(a.modified_at as int) == calendar::utc(b.modified_at as int),
{
    let path = a.path;
    let cut = resolve::extension_start(path);
    text::last_of_range(path, '/');
    text::last_of_range(path.skip(resolve::name_start(path) + 1), '.');
    assert(0 <= cut <= path.len());
    let mark = ".conflict-"@;
    let x = text::hex(a.modified_by.take(4));
    let y = text::hex(b.modified_by.take(4));
    let s = calendar::utc(a.modified_at as int);
    let t = calendar::utc(b.modified_at as int);
    let head = path.take(cut);
    let ext = path.skip(cut);
    let dash = "-"@;
    let name = resolve::conflict_name(a);
    let n = (head.len() + mark.len()) as int;
    assert(name == head + mark + x + dash + s + ext);
    assert(name == head + mark + y + dash + t + ext);
    assert(x.len() == 8 && y.len() == 8);
    assert(name.subrange(n, n + 8) =~= x);
    assert(name.subrange(n, n + 8) =~= y);
    text::hex_of_unique(a.modified_by.take(4), b.modified_by.take(4));
    let from = n + 8 + dash.len();
    assert(s.len() == t.len());
    assert(name.subrange(from, from + s.len()) =~= s);
    assert(name.subrange(from, from + s.len()) =~= t);
}

/// A conflict name says what it is: behind the name of the file and before its
/// extension stands that it is a conflict, with the start of the device's identity
/// and the time of the change.
pub proof fn law_a_conflict_name_says_whose_it_is(version: Version)
    requires
        resolve::renamable(version.path),
        version.modified_by.len() == 32,
    ensures
        ({
            let name = resolve::conflict_name(version);
            let mark = ".conflict-"@ + text::hex(version.modified_by).take(8) + "-"@
                + calendar::utc(version.modified_at as int);
            exists|cut: int|
                0 <= cut <= version.path.len() && #[trigger] version.path.take(cut) + mark
                    + version.path.skip(cut) == name
        }),
{
    let path = version.path;
    let cut = resolve::extension_start(path);
    text::last_of_range(path, '/');
    text::last_of_range(path.skip(resolve::name_start(path) + 1), '.');
    text::hex_of_prefix(version.modified_by, 4);
    let mark = ".conflict-"@ + text::hex(version.modified_by).take(8) + "-"@ + calendar::utc(
        version.modified_at as int,
    );
    assert(path.take(cut) + mark + path.skip(cut) =~= resolve::conflict_name(version));
}

/// Which of two records of the same content is kept does not depend on which side
/// asks: that of the lesser device, and the earlier of two of one device.
pub proof fn law_the_lesser_device_is_recorded(local: Version, remote: Version)
    ensures
        order::bytes_precede(local.modified_by, remote.modified_by) ==> reconcile::merge_keeper(
            local,
            remote,
        ) == local && reconcile::merge_keeper(remote, local) == local,
        local.modified_by == remote.modified_by && local.modified_at < remote.modified_at
            ==> reconcile::merge_keeper(local, remote) == local && reconcile::merge_keeper(
            remote,
            local,
        ) == local,
{
    order::bytes_order(local.modified_by, remote.modified_by, local.modified_by);
}

/// A plan has a step for each path that both trees do not agree on, or that only one
/// of them lists: each path once, in order, and nothing for any other path.
pub proof fn law_a_plan_covers_every_path(
    plan: Seq<Step>,
    local: Seq<Version>,
    remote: Seq<Version>,
    path: Seq<char>,
)
    requires
        reconcile::is_plan(plan, local, remote),
    ensures
        ({
            let step = reconcile::step_for(
                reconcile::lookup(local, path),
                reconcile::lookup(remote, path),
            );
            &&& step is Some <==> exists|i: int|
                0 <= i < plan.len() && reconcile::step_path(#[trigger] plan[i]) == path
            &&& step matches Some(s) ==> plan.contains(s)
        }),
        forall|i: int, j: int|
            #![trigger plan[i], plan[j]]
            0 <= i < j < plan.len() ==> reconcile::step_path(plan[i]) != reconcile::step_path(
                plan[j],
            ),
{
    if reconcile::planned(local, remote, path) is Some {
        let i = choose|i: int|
            0 <= i < plan.len() && reconcile::step_path(#[trigger] plan[i]) == path;
        assert(plan[i] == plan[i]);
    }
    assert forall|i: int, j: int|
        #![trigger plan[i], plan[j]]
        0 <= i < j < plan.len() implies reconcile::step_path(plan[i]) != reconcile::step_path(
        plan[j],
    ) by {
        order::text_order(
            reconcile::step_path(plan[i]),
            reconcile::step_path(plan[j]),
            reconcile::step_path(plan[i]),
        );
    }
}

/// What a tree says of a path is the last version that it lists for it.
pub proof fn law_the_last_listed_version_counts(tree: Seq<Version>, path: Seq<char>, i: int)
    requires
        0 <= i < tree.len(),
        tree[i].path == path,
        forall|j: int| #![trigger tree[j]] i < j < tree.len() ==> tree[j].path != path,
    ensures
        reconcile::lookup(tree, path) == Some(tree[i]),
    decreases tree.len(),
{
    if i < tree.len() - 1 {
        let rest = tree.drop_last();
        assert(tree[tree.len() - 1] == tree.last());
        assert forall|j: int| #![trigger rest[j]] i < j < rest.len() implies rest[j].path
            != path by {
            assert(rest[j] == tree[j]);
        }
        law_the_last_listed_version_counts(rest, path, i);
    }
}

/// The extension of a file stays at the end of its conflict name, behind the mark. It
/// is what follows the last dot of its name, unless the name starts there.
pub proof fn law_the_extension_stays_at_the_end(version: Version, head: Seq<char>, ext: Seq<char>)
    requires
        version.path == head + seq!['.'] + ext,
        head.len() > 0,
        head.last() != '/',
        forall|i: int| #![trigger ext[i]] 0 <= i < ext.len() ==> ext[i] != '.' && ext[i] != '/',
    ensures
        resolve::conflict_name(version) == head + ".conflict-"@ + text::hex(
            version.modified_by.take(4),
        ) + "-"@ + calendar::utc(version.modified_at as int) + seq!['.'] + ext,
{
    let path = version.path;
    let n = head.len() as int;
    text::last_of_range(head, '/');
    let slash = text::last_of(head, '/');
    assert forall|i: int| slash < i < path.len() implies path[i] != '/' by {
        if i < n {
            assert(path[i] == head[i]);
        } else if i > n {
            assert(path[i] == ext[i - n - 1]);
        }
    }
    if slash >= 0 {
        assert(path[slash] == head[slash]);
    }
    text::last_of_is(path, '/', slash);
    if slash == n - 1 {
        assert(head[slash] == head.last());
    }
    let from = slash + 2;
    assert(resolve::name_start(path) + 1 == from <= n);
    let rest = path.skip(from);
    assert forall|i: int| n - from < i < rest.len() implies rest[i] != '.' by {
        assert(rest[i] == ext[i + from - n - 1]);
    }
    assert(rest[n - from] == '.');
    text::last_of_is(rest, '.', n - from);
    assert(resolve::extension_start(path) == n);
    assert(path.take(n) =~= head);
    assert(path.skip(n) =~= seq!['.'] + ext);
    assert(resolve::conflict_name(version) =~= head + ".conflict-"@ + text::hex(
        version.modified_by.take(4),
    ) + "-"@ + calendar::utc(version.modified_at as int) + seq!['.'] + ext);
}

/// A name without a dot, but perhaps one that it starts with, has no extension: the
/// mark stands at the end.
pub proof fn law_a_name_without_extension_is_marked_at_the_end(
    version: Version,
    dir: Seq<char>,
    name: Seq<char>,
)
    requires
        version.path == dir + name,
        dir.len() > 0 ==> dir.last() == '/',
        name.len() > 0,
        forall|i: int| #![trigger name[i]] 0 <= i < name.len() ==> name[i] != '/',
        forall|i: int| #![trigger name[i]] 1 <= i < name.len() ==> name[i] != '.',
    ensures
        resolve::conflict_name(version) == version.path + ".conflict-"@ + text::hex(
            version.modified_by.take(4),
        ) + "-"@ + calendar::utc(version.modified_at as int),
{
    let path = version.path;
    let n = dir.len() as int;
    assert forall|i: int| n - 1 < i < path.len() implies path[i] != '/' by {
        assert(path[i] == name[i - n]);
    }
    if n > 0 {
        assert(path[n - 1] == dir.last());
    }
    text::last_of_is(path, '/', n - 1);
    let rest = path.skip(n + 1);
    assert forall|i: int| -1 < i < rest.len() implies rest[i] != '.' by {
        assert(rest[i] == name[i + 1]);
    }
    text::last_of_is(rest, '.', -1);
    assert(resolve::extension_start(path) == path.len());
    assert(path.take(path.len() as int) =~= path);
    assert(resolve::conflict_name(version) =~= path + ".conflict-"@ + text::hex(
        version.modified_by.take(4),
    ) + "-"@ + calendar::utc(version.modified_at as int));
}

} // verus!
