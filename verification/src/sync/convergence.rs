//! What an exchange of plans leads to.
//!
//! Two devices that compare notes each work out a plan and carry it out, with
//! no word about it between them. What is stated here is that they end up with
//! the same files, that nothing either of them wrote without the other's
//! knowledge is lost, and that afterwards there is nothing left to do.

use vstd::prelude::*;

use super::clock;
use super::clock::Causality;
use super::reconcile;
use super::reconcile::Step;
use super::resolve;
use super::resolve::Side;
use super::version::Version;
use crate::order;

verus! {

/// The version that carrying out a step leaves at `path`, where the step writes
/// there. An offer writes nothing: the other device does.
pub open spec fn written(step: Step, path: Seq<char>) -> Option<Version> {
    match step {
        Step::Offer { .. } => None,
        Step::Adopt { remote } => if remote.path == path {
            Some(remote)
        } else {
            None
        },
        Step::Conflict { keeps_path, renamed } => if renamed.path == path {
            Some(renamed)
        } else if keeps_path.path == path {
            Some(keeps_path)
        } else {
            None
        },
        Step::Resurrect { resolved } => if resolved.path == path {
            Some(resolved)
        } else {
            None
        },
        Step::Merge { resolved } => if resolved.path == path {
            Some(resolved)
        } else {
            None
        },
    }
}

/// What a device holds at `path` once it has carried out its plan, step by
/// step.
pub open spec fn after(tree: Seq<Version>, plan: Seq<Step>, path: Seq<char>) -> Option<Version>
    decreases plan.len(),
{
    if plan.len() == 0 {
        reconcile::lookup(tree, path)
    } else {
        match written(plan.last(), path) {
            Some(version) => Some(version),
            None => after(tree, plan.drop_last(), path),
        }
    }
}

/// Two versions of one path.
pub open spec fn of_one_path(l: Version, r: Version) -> bool {
    &&& l.path == r.path
    &&& clock::valid(l.vector)
    &&& clock::valid(r.vector)
}

/// Two versions of one path as two devices can come to hold them: a vector names
/// one version.
pub open spec fn comparable(l: Version, r: Version) -> bool {
    &&& of_one_path(l, r)
    &&& l.vector == r.vector ==> l == r
}

/// The vectors of all that both trees hold are such as vectors can be.
pub open spec fn trees_valid(local: Seq<Version>, remote: Seq<Version>) -> bool {
    forall|path: Seq<char>|
        #![trigger reconcile::lookup(local, path), reconcile::lookup(remote, path)]
        reconcile::lookup(local, path) is Some && reconcile::lookup(remote, path) is Some
            ==> of_one_path(
            reconcile::lookup(local, path)->0,
            reconcile::lookup(remote, path)->0,
        )
}

/// A conflict over `from` is renamed to `path`.
pub open spec fn renamed_to(
    local: Seq<Version>,
    remote: Seq<Version>,
    from: Seq<char>,
    path: Seq<char>,
) -> bool {
    reconcile::planned(local, remote, from) matches Some(Step::Conflict { renamed, .. })
        && renamed.path == path
}

/// No conflict is renamed to a path that either device already uses.
pub open spec fn uncontested(local: Seq<Version>, remote: Seq<Version>, path: Seq<char>) -> bool {
    forall|from: Seq<char>| #[trigger]
        renamed_to(local, remote, from, path) ==> {
            &&& reconcile::lookup(local, path) is None
            &&& reconcile::lookup(remote, path) is None
        }
}

/// Two conflicts are never renamed to one path.
proof fn renamed_from_one_path(
    local: Seq<Version>,
    remote: Seq<Version>,
    one: Seq<char>,
    other: Seq<char>,
    path: Seq<char>,
)
    requires
        reconcile::conflicts_renamable(local, remote),
        renamed_to(local, remote, one, path),
        renamed_to(local, remote, other, path),
    ensures
        one == other,
{
    reconcile::planned_path(local, remote, one);
    reconcile::planned_path(local, remote, other);
    let (l, r) = (reconcile::lookup(local, one)->0, reconcile::lookup(remote, one)->0);
    let (m, n) = (reconcile::lookup(local, other)->0, reconcile::lookup(remote, other)->0);
    assert(resolve::in_conflict(l, r));
    assert(resolve::in_conflict(m, n));
    let a = if resolve::path_keeper(l, r) == Side::Local {
        r
    } else {
        l
    };
    let b = if resolve::path_keeper(m, n) == Side::Local {
        n
    } else {
        m
    };
    resolve::law_conflict_names_do_not_collide(a, b);
}

/// What a device holds of a path after an exchange, conflict copies aside.
pub open spec fn settled(local: Option<Version>, remote: Option<Version>) -> Option<Version> {
    match reconcile::step_for(local, remote) {
        None => local,
        Some(Step::Offer { local: kept }) => Some(kept),
        Some(Step::Adopt { remote: taken }) => Some(taken),
        Some(Step::Conflict { keeps_path, .. }) => Some(keeps_path),
        Some(Step::Resurrect { resolved }) => Some(resolved),
        Some(Step::Merge { resolved }) => Some(resolved),
    }
}

/// The same step, told from the other side.
pub open spec fn mirrored(step: Option<Step>) -> Option<Step> {
    match step {
        Some(Step::Offer { local }) => Some(Step::Adopt { remote: local }),
        Some(Step::Adopt { remote }) => Some(Step::Offer { local: remote }),
        other => other,
    }
}

/// Each device plans for a path what the other plans, seen from its own side.
pub proof fn law_both_devices_plan_the_same(local: Option<Version>, remote: Option<Version>)
    requires
        local is Some && remote is Some ==> of_one_path(local->0, remote->0),
    ensures
        reconcile::step_for(remote, local) == mirrored(reconcile::step_for(local, remote)),
{
    if let (Some(l), Some(r)) = (local, remote) {
        resolve::law_decision_does_not_depend_on_who_asks(l, r);
        if resolve::verdict(l, r) is Merge {
            order::bytes_order(l.modified_by, r.modified_by, l.modified_by);
        }
        if resolve::verdict(l, r) is Conflict {
            assert(resolve::path_keeper(l, r) != resolve::path_keeper(r, l));
        }
    }
}

/// After an exchange both devices hold the same version of a path.
pub proof fn law_devices_agree_about_a_path(local: Option<Version>, remote: Option<Version>)
    requires
        local is Some && remote is Some ==> comparable(local->0, remote->0),
    ensures
        settled(local, remote) == settled(remote, local),
{
    law_both_devices_plan_the_same(local, remote);
    if let (Some(l), Some(r)) = (local, remote) {
        clock::law_equal_is_identical(l.vector, r.vector);
        clock::law_comparison_is_antisymmetric(l.vector, r.vector);
    }
}

/// What an exchange settled wins over what went into it, so that a device that
/// missed the exchange takes the result when it next hears of it, whoever tells
/// it.
pub proof fn law_an_exchange_supersedes_its_inputs(l: Version, r: Version)
    requires
        comparable(l, r),
    ensures
        settled(Some(l), settled(Some(l), Some(r))) == settled(Some(l), Some(r)),
        settled(Some(r), settled(Some(l), Some(r))) == settled(Some(l), Some(r)),
{
    let s = settled(Some(l), Some(r))->0;
    resolve::law_resolution_dominates_both_sides(l, r);
    clock::law_equal_is_identical(l.vector, r.vector);
    clock::law_merge_is_valid(l.vector, r.vector);
    clock::law_equal_is_identical(l.vector, s.vector);
    clock::law_equal_is_identical(r.vector, s.vector);
    assert(clock::known_to(l.vector, s.vector));
    assert(clock::known_to(r.vector, s.vector));
    if clock::causality(l.vector, r.vector) == Causality::Concurrent {
        assert(!clock::known_to(s.vector, l.vector)) by {
            if clock::known_to(s.vector, l.vector) {
                clock::law_comparison_is_transitive(r.vector, s.vector, l.vector);
            }
        }
        assert(!clock::known_to(s.vector, r.vector)) by {
            if clock::known_to(s.vector, r.vector) {
                clock::law_comparison_is_transitive(l.vector, s.vector, r.vector);
            }
        }
    }
}

/// Three devices that exchange pair by pair agree: once the first two have met,
/// and the third has met one of them, the other takes what came of it.
pub proof fn law_three_devices_agree_about_a_path(a: Version, b: Version, c: Version)
    requires
        comparable(a, b),
        comparable(settled(Some(a), Some(b))->0, c),
    ensures
        ({
            let first = settled(Some(a), Some(b));
            let second = settled(first, Some(c));
            &&& settled(Some(b), Some(a)) == first
            &&& settled(Some(c), first) == second
            &&& settled(first, second) == second
        }),
{
    law_devices_agree_about_a_path(Some(a), Some(b));
    let first = settled(Some(a), Some(b))->0;
    law_devices_agree_about_a_path(Some(first), Some(c));
    law_an_exchange_supersedes_its_inputs(first, c);
}

proof fn untouched(tree: Seq<Version>, plan: Seq<Step>, path: Seq<char>)
    requires
        forall|i: int| #![trigger plan[i]] 0 <= i < plan.len() ==> written(plan[i], path) is None,
    ensures
        after(tree, plan, path) == reconcile::lookup(tree, path),
    decreases plan.len(),
{
    if plan.len() > 0 {
        assert(plan.last() == plan[plan.len() - 1]);
        let rest = plan.drop_last();
        assert forall|i: int| #![trigger rest[i]] 0 <= i < rest.len() implies written(
            rest[i],
            path,
        ) is None by {
            assert(rest[i] == plan[i]);
        }
        untouched(tree, rest, path);
    }
}

proof fn touched_once(tree: Seq<Version>, plan: Seq<Step>, path: Seq<char>, k: int)
    requires
        0 <= k < plan.len(),
        written(plan[k], path) is Some,
        forall|i: int|
            #![trigger plan[i]]
            0 <= i < plan.len() && i != k ==> written(plan[i], path) is None,
    ensures
        after(tree, plan, path) == written(plan[k], path),
    decreases plan.len(),
{
    let n = plan.len() - 1;
    assert(plan.last() == plan[n]);
    if k < n {
        let rest = plan.drop_last();
        assert forall|i: int|
            #![trigger rest[i]]
            0 <= i < rest.len() && i != k implies written(rest[i], path) is None by {
            assert(rest[i] == plan[i]);
        }
        assert(rest[k] == plan[k]);
        touched_once(tree, rest, path, k);
    }
}

/// What an uncontested path holds after the plan is carried out: the conflict
/// copy that is renamed to it, or what the exchange settled for it.
proof fn after_is_settled(
    local: Seq<Version>,
    remote: Seq<Version>,
    plan: Seq<Step>,
    path: Seq<char>,
)
    requires
        reconcile::is_plan(plan, local, remote),
        reconcile::conflicts_renamable(local, remote),
        uncontested(local, remote, path),
    ensures
        (forall|from: Seq<char>| !#[trigger] renamed_to(local, remote, from, path)) ==> after(
            local,
            plan,
            path,
        ) == settled(reconcile::lookup(local, path), reconcile::lookup(remote, path)),
        forall|from: Seq<char>| #[trigger]
            renamed_to(local, remote, from, path) ==> after(local, plan, path) == Some(
                reconcile::planned(local, remote, from)->0->renamed,
            ),
{
    let step = reconcile::planned(local, remote, path);
    reconcile::planned_path(local, remote, path);
    if exists|from: Seq<char>| #[trigger] renamed_to(local, remote, from, path) {
        let from = choose|from: Seq<char>| #[trigger] renamed_to(local, remote, from, path);
        assert(reconcile::planned(local, remote, from) is Some);
        reconcile::planned_path(local, remote, from);
        let k = choose|k: int|
            0 <= k < plan.len() && reconcile::step_path(#[trigger] plan[k]) == from;
        assert(reconcile::planned(local, remote, path) is None);
        assert forall|i: int|
            #![trigger plan[i]]
            0 <= i < plan.len() && i != k implies written(plan[i], path) is None by {
            let p = reconcile::step_path(plan[i]);
            assert(p != from) by {
                order::text_order(p, from, p);
                order::text_order(from, from, from);
                if i < k {
                    assert(order::text_precedes(p, reconcile::step_path(plan[k])));
                } else {
                    assert(order::text_precedes(reconcile::step_path(plan[k]), p));
                }
            }
            if renamed_to(local, remote, p, path) {
                renamed_from_one_path(local, remote, p, from, path);
            }
            assert(reconcile::planned(local, remote, p) == Some(plan[i]));
        }
        touched_once(local, plan, path, k);
        assert forall|other: Seq<char>| #[trigger]
            renamed_to(local, remote, other, path) implies other == from by {
            renamed_from_one_path(local, remote, other, from, path);
        }
    } else {
        assert forall|i: int|
            #![trigger plan[i]]
            0 <= i < plan.len() && reconcile::step_path(plan[i]) != path implies written(
            plan[i],
            path,
        ) is None by {
            let p = reconcile::step_path(plan[i]);
            assert(!renamed_to(local, remote, p, path));
            assert(reconcile::planned(local, remote, p) == Some(plan[i]));
        }
        if step is Some {
            let k = choose|k: int|
                0 <= k < plan.len() && reconcile::step_path(#[trigger] plan[k]) == path;
            assert(plan[k] == step->0);
            assert(!renamed_to(local, remote, path, path));
            assert forall|i: int|
                #![trigger plan[i]]
                0 <= i < plan.len() && i != k implies reconcile::step_path(plan[i]) != path by {
                let p = reconcile::step_path(plan[i]);
                order::text_order(path, path, path);
                if i < k {
                    assert(order::text_precedes(p, reconcile::step_path(plan[k])));
                } else {
                    assert(order::text_precedes(reconcile::step_path(plan[k]), p));
                }
            }
            if step->0 is Offer {
                untouched(local, plan, path);
            } else {
                touched_once(local, plan, path, k);
            }
        } else {
            assert forall|i: int| #![trigger plan[i]] 0 <= i < plan.len() implies written(
                plan[i],
                path,
            ) is None by {
                if reconcile::step_path(plan[i]) == path {
                    assert(reconcile::planned(local, remote, path) == Some(plan[i]));
                }
            }
            untouched(local, plan, path);
        }
    }
}

/// What one device plans to rename, the other plans to rename too.
proof fn plans_mirror(local: Seq<Version>, remote: Seq<Version>)
    requires
        trees_valid(local, remote),
    ensures
        forall|from: Seq<char>| #[trigger]
            reconcile::planned(remote, local, from) == mirrored(
                reconcile::planned(local, remote, from),
            ),
        forall|from: Seq<char>, p: Seq<char>| #[trigger]
            renamed_to(remote, local, from, p) == renamed_to(local, remote, from, p),
        reconcile::conflicts_renamable(local, remote) ==> reconcile::conflicts_renamable(
            remote,
            local,
        ),
{
    assert forall|from: Seq<char>| #[trigger] reconcile::planned(remote, local, from) == mirrored(
        reconcile::planned(local, remote, from),
    ) by {
        law_both_devices_plan_the_same(
            reconcile::lookup(local, from),
            reconcile::lookup(remote, from),
        );
    }
    assert forall|from: Seq<char>, p: Seq<char>| #[trigger]
        renamed_to(remote, local, from, p) == renamed_to(local, remote, from, p) by {
        assert(reconcile::planned(remote, local, from) == mirrored(
            reconcile::planned(local, remote, from),
        ));
    }
    assert forall|path: Seq<char>|
        #![trigger reconcile::lookup(remote, path), reconcile::lookup(local, path)]
        reconcile::conflicts_renamable(local, remote) && reconcile::lookup(remote, path) is Some
            && reconcile::lookup(local, path) is Some && resolve::in_conflict(
            reconcile::lookup(remote, path)->0,
            reconcile::lookup(local, path)->0,
        ) implies resolve::renamable(path) by {
        let (l, r) = (reconcile::lookup(local, path)->0, reconcile::lookup(remote, path)->0);
        clock::law_comparison_is_antisymmetric(l.vector, r.vector);
        assert(resolve::in_conflict(l, r));
    }
}

/// Convergence: when each device has carried out its own plan, both hold the
/// same version of every path, conflict copies included. Left out are paths that
/// a conflict is renamed to although they are in use, and those of which the two
/// hold different versions under one and the same vector.
pub proof fn law_an_exchange_converges(
    local: Seq<Version>,
    remote: Seq<Version>,
    ours: Seq<Step>,
    theirs: Seq<Step>,
    path: Seq<char>,
)
    requires
        trees_valid(local, remote),
        reconcile::conflicts_renamable(local, remote),
        reconcile::is_plan(ours, local, remote),
        reconcile::is_plan(theirs, remote, local),
        uncontested(local, remote, path),
        reconcile::lookup(local, path) is Some && reconcile::lookup(remote, path) is Some
            ==> comparable(reconcile::lookup(local, path)->0, reconcile::lookup(remote, path)->0),
    ensures
        after(local, ours, path) == after(remote, theirs, path),
{
    plans_mirror(local, remote);
    assert(uncontested(remote, local, path));
    after_is_settled(local, remote, ours, path);
    after_is_settled(remote, local, theirs, path);
    if exists|from: Seq<char>| #[trigger] renamed_to(local, remote, from, path) {
        let from = choose|from: Seq<char>| #[trigger] renamed_to(local, remote, from, path);
        assert(renamed_to(remote, local, from, path));
        assert(reconcile::planned(remote, local, from) == mirrored(
            reconcile::planned(local, remote, from),
        ));
    } else {
        law_devices_agree_about_a_path(
            reconcile::lookup(local, path),
            reconcile::lookup(remote, path),
        );
    }
}

/// Both devices make the same plan, in the same order, each from its own side:
/// what one offers the other adopts, and all else is the same on both.
pub proof fn law_both_devices_make_the_same_plan(
    local: Seq<Version>,
    remote: Seq<Version>,
    ours: Seq<Step>,
    theirs: Seq<Step>,
)
    requires
        trees_valid(local, remote),
        reconcile::is_plan(ours, local, remote),
        reconcile::is_plan(theirs, remote, local),
    ensures
        theirs.len() == ours.len(),
        forall|i: int|
            #![trigger theirs[i]]
            0 <= i < ours.len() ==> Some(theirs[i]) == mirrored(Some(ours[i])),
{
    plans_mirror(local, remote);
    let told = Seq::new(ours.len(), |i: int| mirrored(Some(ours[i]))->0);
    assert forall|i: int| #![trigger told[i]] 0 <= i < told.len() implies reconcile::step_path(
        told[i],
    ) == reconcile::step_path(ours[i]) && reconcile::planned(
        remote,
        local,
        reconcile::step_path(told[i]),
    ) == Some(told[i]) by {
        let path = reconcile::step_path(ours[i]);
        assert(reconcile::planned(local, remote, path) == Some(ours[i]));
        assert(reconcile::planned(remote, local, path) == mirrored(Some(ours[i])));
    }
    assert forall|i: int, j: int| #![trigger told[i], told[j]] 0 <= i < j < told.len() implies
        order::text_precedes(reconcile::step_path(told[i]), reconcile::step_path(told[j])) by {
        assert(order::text_precedes(reconcile::step_path(ours[i]), reconcile::step_path(ours[j])));
    }
    assert forall|path: Seq<char>| #[trigger]
        reconcile::planned(remote, local, path) is Some implies exists|i: int|
        0 <= i < told.len() && reconcile::step_path(#[trigger] told[i]) == path by {
        assert(reconcile::planned(local, remote, path) is Some);
        let i = choose|i: int|
            0 <= i < ours.len() && reconcile::step_path(#[trigger] ours[i]) == path;
        assert(reconcile::step_path(told[i]) == path);
    }
    reconcile::law_a_plan_is_unique(told, theirs, remote, local);
}

/// After an exchange there is nothing to do about a path, whoever asks.
proof fn path_is_settled(
    local: Seq<Version>,
    remote: Seq<Version>,
    ours: Seq<Step>,
    theirs: Seq<Step>,
    path: Seq<char>,
)
    requires
        trees_valid(local, remote),
        reconcile::conflicts_renamable(local, remote),
        reconcile::is_plan(ours, local, remote),
        reconcile::is_plan(theirs, remote, local),
        uncontested(local, remote, path),
    ensures
        reconcile::step_for(after(local, ours, path), after(remote, theirs, path)) is None,
        reconcile::step_for(after(remote, theirs, path), after(local, ours, path)) is None,
{
    let held = reconcile::lookup(local, path);
    let heard = reconcile::lookup(remote, path);
    if held is Some && heard is Some && held->0.vector == heard->0.vector {
        plans_mirror(local, remote);
        assert(uncontested(remote, local, path));
        after_is_settled(local, remote, ours, path);
        after_is_settled(remote, local, theirs, path);
        clock::law_equal_is_identical(held->0.vector, heard->0.vector);
        assert(!exists|from: Seq<char>| #[trigger] renamed_to(local, remote, from, path));
    } else {
        law_an_exchange_converges(local, remote, ours, theirs, path);
        if let Some(v) = after(local, ours, path) {
            clock::law_comparison_is_antisymmetric(v.vector, v.vector);
        }
    }
}

/// One exchange settles everything: once each device has carried out its plan,
/// comparing notes again finds nothing to do on either side, so that the same
/// conflict is never found twice. Left out are exchanges that rename a conflict
/// to a path in use.
pub proof fn law_an_exchange_leaves_no_work(
    local: Seq<Version>,
    remote: Seq<Version>,
    ours: Seq<Step>,
    theirs: Seq<Step>,
    local_after: Seq<Version>,
    remote_after: Seq<Version>,
    here: Seq<Step>,
    there: Seq<Step>,
)
    requires
        trees_valid(local, remote),
        reconcile::conflicts_renamable(local, remote),
        reconcile::is_plan(ours, local, remote),
        reconcile::is_plan(theirs, remote, local),
        forall|path: Seq<char>| #[trigger] uncontested(local, remote, path),
        forall|path: Seq<char>|
            #![trigger reconcile::lookup(local_after, path)]
            reconcile::lookup(local_after, path) == after(local, ours, path),
        forall|path: Seq<char>|
            #![trigger reconcile::lookup(remote_after, path)]
            reconcile::lookup(remote_after, path) == after(remote, theirs, path),
        reconcile::is_plan(here, local_after, remote_after),
        reconcile::is_plan(there, remote_after, local_after),
    ensures
        here.len() == 0,
        there.len() == 0,
{
    if here.len() > 0 {
        let path = reconcile::step_path(here[0]);
        assert(reconcile::planned(local_after, remote_after, path) == Some(here[0]));
        assert(uncontested(local, remote, path));
        path_is_settled(local, remote, ours, theirs, path);
    }
    if there.len() > 0 {
        let path = reconcile::step_path(there[0]);
        assert(reconcile::planned(remote_after, local_after, path) == Some(there[0]));
        assert(uncontested(local, remote, path));
        path_is_settled(local, remote, ours, theirs, path);
    }
}

/// Two devices that agree have nothing to do.
pub proof fn law_devices_that_agree_have_no_work(
    local: Seq<Version>,
    remote: Seq<Version>,
    plan: Seq<Step>,
)
    requires
        forall|path: Seq<char>|
            #![trigger reconcile::lookup(local, path)]
            reconcile::lookup(local, path) == reconcile::lookup(remote, path),
        reconcile::is_plan(plan, local, remote),
    ensures
        plan.len() == 0,
{
    if plan.len() > 0 {
        let path = reconcile::step_path(plan[0]);
        assert(reconcile::planned(local, remote, path) == Some(plan[0]));
        assert(reconcile::lookup(local, path) == reconcile::lookup(remote, path));
        if let Some(v) = reconcile::lookup(local, path) {
            clock::law_comparison_is_antisymmetric(v.vector, v.vector);
        }
    }
}

/// No content is made up: what a step writes is what one of the two devices
/// held.
pub proof fn law_no_content_is_fabricated(l: Version, r: Version, path: Seq<char>)
    requires
        l.path == r.path,
        reconcile::step_between(l, r) is Some,
    ensures
        written(reconcile::step_between(l, r)->0, path) matches Some(v) ==> v.content == l.content
            || v.content == r.content,
{
}

/// An edit that the other device has not seen is not lost: it is what the path
/// holds afterwards, or it is kept beside it under a conflict name.
pub proof fn law_no_unseen_edit_is_lost(l: Version, r: Version)
    requires
        l.path == r.path,
        l.content is File,
        !clock::known_to(l.vector, r.vector),
        resolve::in_conflict(l, r) ==> resolve::renamable(l.path),
    ensures
        settled(Some(l), Some(r))->0.content == l.content || (reconcile::step_between(l, r) matches Some(
            Step::Conflict { keeps_path, renamed },
        ) && renamed.content == l.content && renamed.path != keeps_path.path),
{
    if resolve::verdict(l, r) is Conflict {
        let loser = if resolve::path_keeper(l, r) == Side::Local {
            r
        } else {
            l
        };
        assert(resolve::conflict_name(loser).len() > loser.path.len()) by {
            resolve::conflict_name_is_longer(loser);
        }
    }
}

/// A path that only one device knows is not new by that: it is offered as it is,
/// a deletion included, so that a deletion does not undo itself.
pub proof fn law_a_deletion_is_offered(l: Version)
    requires
        l.content is Deleted,
    ensures
        reconcile::step_for(Some(l), None) == Some(Step::Offer { local: l }),
        reconcile::step_for(None, Some(l)) == Some(Step::Adopt { remote: l }),
        settled(None, Some(l)) == Some(l),
{
}

} // verus!
