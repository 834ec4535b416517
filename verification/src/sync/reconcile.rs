//! Comparing two devices' views of a whole tree.
//!
//! [`resolve`](super::resolve) decides about one path. This decides about all
//! of them, and about paths only one side has heard of.

use vstd::prelude::*;

use super::resolve;
use super::resolve::{resolve, Outcome, Resolution, Side, Verdict};
use super::version::{FileVersion, Version};
use crate::order;
use crate::order::text_before;

verus! {

/// Something the engine should do.
///
/// Every variant describes the *end state* rather than the decision that led to
/// it, and carries the version vector that state should hold. That matters for
/// the concurrent cases: a resolution must record that it has seen both sides,
/// or the next comparison finds the same conflict again and the two devices
/// conflict with each other forever without ever converging.
#[derive(Debug, Clone, PartialEq, Eq)]
pub enum Action {
    /// Take the remote's version.
    ///
    /// If its content is a tombstone this means applying a deletion; otherwise
    /// it means fetching whatever chunks are missing and writing the file.
    Adopt { remote: FileVersion },
    /// Send ours, because the remote is behind or has never seen this path.
    Offer { local: FileVersion },
    /// Concurrent edits. Two files result, and both devices compute the same
    /// two from the same inputs without needing to agree on anything.
    Conflict {
        /// Stays at the original path.
        keeps_path: FileVersion,
        /// Written alongside it, under a conflict name.
        renamed: FileVersion,
    },
    /// Concurrent delete against edit. The edit survives; whichever side
    /// deleted the file needs it back.
    Resurrect { resolved: FileVersion },
    /// Both sides already hold the same content but reached it independently.
    ///
    /// No data moves. What changes is the recorded history: without this the
    /// two versions stay concurrent forever, and the next edit on either side
    /// raises a conflict over content that never disagreed.
    Merge { resolved: FileVersion },
}

/// An action, as values.
pub enum Step {
    Adopt { remote: Version },
    Offer { local: Version },
    Conflict { keeps_path: Version, renamed: Version },
    Resurrect { resolved: Version },
    Merge { resolved: Version },
}

impl View for Action {
    type V = Step;

    open spec fn view(&self) -> Step {
        match *self {
            Action::Adopt { remote } => Step::Adopt { remote: remote@ },
            Action::Offer { local } => Step::Offer { local: local@ },
            Action::Conflict { keeps_path, renamed } => Step::Conflict {
                keeps_path: keeps_path@,
                renamed: renamed@,
            },
            Action::Resurrect { resolved } => Step::Resurrect { resolved: resolved@ },
            Action::Merge { resolved } => Step::Merge { resolved: resolved@ },
        }
    }
}

/// The path that a step is about.
pub open spec fn step_path(step: Step) -> Seq<char> {
    match step {
        Step::Adopt { remote } => remote.path,
        Step::Offer { local } => local.path,
        Step::Conflict { keeps_path, .. } => keeps_path.path,
        Step::Resurrect { resolved } => resolved.path,
        Step::Merge { resolved } => resolved.path,
    }
}

impl Action {
    pub fn path(&self) -> (path: &str)
        ensures
            path@ == step_path(self@),
    {
        match self {
            Action::Adopt { remote } => &remote.path,
            Action::Offer { local } => &local.path,
            Action::Conflict { keeps_path, .. } => &keeps_path.path,
            Action::Resurrect { resolved } => &resolved.path,
            Action::Merge { resolved } => &resolved.path,
        }
    }
}

/// What a device believes, as values.
pub open spec fn views(versions: Seq<FileVersion>) -> Seq<Version> {
    Seq::new(versions.len(), |i: int| versions[i]@)
}

/// What a tree says of a path. Where it lists one path twice, the later entry
/// counts.
pub open spec fn lookup(tree: Seq<Version>, path: Seq<char>) -> Option<Version>
    decreases tree.len(),
{
    if tree.len() == 0 {
        None
    } else if tree.last().path == path {
        Some(tree.last())
    } else {
        lookup(tree.drop_last(), path)
    }
}

/// Which of two versions with the same content is recorded: that of the lesser
/// device, and the one with the earlier time where one device made both.
pub open spec fn merge_keeper(local: Version, remote: Version) -> Version {
    if order::bytes_precede(remote.modified_by, local.modified_by) || (remote.modified_by
        == local.modified_by && remote.modified_at < local.modified_at) {
        remote
    } else {
        local
    }
}

/// What there is to do about a path that both sides know.
pub open spec fn step_between(local: Version, remote: Version) -> Option<Step> {
    let vector = resolve::settled_vector(local, remote);
    match resolve::verdict(local, remote) {
        Verdict::InSync => None,
        Verdict::Merge => Some(
            Step::Merge { resolved: Version { vector, ..merge_keeper(local, remote) } },
        ),
        Verdict::KeepLocal => Some(Step::Offer { local }),
        Verdict::TakeRemote => Some(Step::Adopt { remote }),
        Verdict::Conflict { keeps_path, renamed_to } => {
            let (winner, loser) = if keeps_path == Side::Local {
                (local, remote)
            } else {
                (remote, local)
            };
            Some(
                Step::Conflict {
                    keeps_path: Version { vector, ..winner },
                    renamed: Version { path: renamed_to, vector, ..loser },
                },
            )
        },
        Verdict::Resurrect { survivor } => Some(
            Step::Resurrect {
                resolved: Version {
                    vector,
                    ..if survivor == Side::Local {
                        local
                    } else {
                        remote
                    }
                },
            },
        ),
    }
}

/// What there is to do about one path.
pub open spec fn step_for(local: Option<Version>, remote: Option<Version>) -> Option<Step> {
    match (local, remote) {
        (Some(l), Some(r)) => step_between(l, r),
        (Some(l), None) => Some(Step::Offer { local: l }),
        (None, Some(r)) => Some(Step::Adopt { remote: r }),
        (None, None) => None,
    }
}

/// What there is to do about `path`, given both trees.
pub open spec fn planned(local: Seq<Version>, remote: Seq<Version>, path: Seq<char>) -> Option<
    Step,
> {
    step_for(lookup(local, path), lookup(remote, path))
}

/// The steps, as values.
pub open spec fn steps(actions: Seq<Action>) -> Seq<Step> {
    Seq::new(actions.len(), |i: int| actions[i]@)
}

/// `plan` is what there is to do about the two trees: one step for each path
/// with something to do, in path order.
pub open spec fn is_plan(plan: Seq<Step>, local: Seq<Version>, remote: Seq<Version>) -> bool {
    &&& forall|i: int, j: int|
        #![trigger plan[i], plan[j]]
        0 <= i < j < plan.len() ==> order::text_precedes(step_path(plan[i]), step_path(plan[j]))
    &&& forall|i: int|
        #![trigger plan[i]]
        0 <= i < plan.len() ==> planned(local, remote, step_path(plan[i])) == Some(plan[i])
    &&& forall|path: Seq<char>| #[trigger]
        planned(local, remote, path) is Some ==> exists|i: int|
            0 <= i < plan.len() && step_path(#[trigger] plan[i]) == path
}

/// Files that both sides edited without seeing each other can be renamed.
pub open spec fn conflicts_renamable(local: Seq<Version>, remote: Seq<Version>) -> bool {
    forall|path: Seq<char>|
        #![trigger lookup(local, path), lookup(remote, path)]
        lookup(local, path) is Some && lookup(remote, path) is Some && resolve::in_conflict(
            lookup(local, path)->0,
            lookup(remote, path)->0,
        ) ==> resolve::renamable(path)
}

/// A version found for a path is one of that path.
proof fn lookup_has_path(tree: Seq<Version>, path: Seq<char>)
    ensures
        lookup(tree, path) matches Some(v) ==> v.path == path && tree.contains(v),
    decreases tree.len(),
{
    if tree.len() > 0 && tree.last().path != path {
        lookup_has_path(tree.drop_last(), path);
        if let Some(v) = lookup(tree.drop_last(), path) {
            let i = choose|i: int| 0 <= i < tree.drop_last().len() && tree.drop_last()[i] == v;
            assert(tree[i] == v);
        }
    }
}

/// What is planned for a path is about that path.
pub proof fn planned_path(local: Seq<Version>, remote: Seq<Version>, path: Seq<char>)
    ensures
        planned(local, remote, path) matches Some(step) ==> step_path(step) == path,
        lookup(local, path) matches Some(v) ==> v.path == path,
        lookup(remote, path) matches Some(v) ==> v.path == path,
{
    lookup_has_path(local, path);
    lookup_has_path(remote, path);
}

/// Two trees have one plan only.
pub proof fn law_a_plan_is_unique(
    p: Seq<Step>,
    q: Seq<Step>,
    local: Seq<Version>,
    remote: Seq<Version>,
)
    requires
        is_plan(p, local, remote),
        is_plan(q, local, remote),
    ensures
        p == q,
{
    plans_agree(p, q, local, remote, 0);
}

/// From the `n`-th step on, two plans that agree so far agree.
proof fn plans_agree(
    p: Seq<Step>,
    q: Seq<Step>,
    local: Seq<Version>,
    remote: Seq<Version>,
    n: int,
)
    requires
        is_plan(p, local, remote),
        is_plan(q, local, remote),
        0 <= n <= p.len(),
        n <= q.len(),
        forall|i: int| 0 <= i < n ==> p[i] == q[i],
    ensures
        p == q,
    decreases p.len() - n,
{
    if n < p.len() && n < q.len() {
        let x = step_path(p[n]);
        let y = step_path(q[n]);
        next_in_plan(p, q, local, remote, n);
        next_in_plan(q, p, local, remote, n);
        order::text_order(x, y, x);
        assert(planned(local, remote, x) == Some(p[n]));
        assert(planned(local, remote, y) == Some(q[n]));
        plans_agree(p, q, local, remote, n + 1);
    } else {
        if n < p.len() {
            next_in_plan(p, q, local, remote, n);
        }
        if n < q.len() {
            next_in_plan(q, p, local, remote, n);
        }
        assert(p =~= q);
    }
}

/// The path of the next step of one plan stands in the other too, not earlier.
proof fn next_in_plan(
    p: Seq<Step>,
    q: Seq<Step>,
    local: Seq<Version>,
    remote: Seq<Version>,
    n: int,
)
    requires
        is_plan(p, local, remote),
        is_plan(q, local, remote),
        0 <= n < p.len(),
        n <= q.len(),
        forall|i: int| 0 <= i < n ==> p[i] == q[i],
    ensures
        n < q.len(),
        step_path(p[n]) == step_path(q[n]) || order::text_precedes(
            step_path(q[n]),
            step_path(p[n]),
        ),
{
    let x = step_path(p[n]);
    assert(planned(local, remote, x) is Some);
    let k = choose|k: int| 0 <= k < q.len() && step_path(#[trigger] q[k]) == x;
    if k < n {
        assert(p[k] == q[k]);
        assert(order::text_precedes(step_path(p[k]), step_path(p[n])));
        order::text_order(x, x, x);
    } else if k > n {
        assert(order::text_precedes(step_path(q[n]), step_path(q[k])));
    }
}

/// `index` lists the tree's versions in path order, none of its paths twice.
spec fn in_order(index: Seq<usize>, tree: Seq<Version>) -> bool {
    &&& forall|i: int| #![trigger index[i]] 0 <= i < index.len() ==> index[i] < tree.len()
    &&& forall|i: int, j: int|
        #![trigger index[i], index[j]]
        0 <= i < j < index.len() ==> order::text_precedes(
            tree[index[i] as int].path,
            tree[index[j] as int].path,
        )
}

/// Each version that `index` points at is the one that counts for its path.
spec fn counting(index: Seq<usize>, tree: Seq<Version>) -> bool {
    forall|i: int|
        #![trigger index[i]]
        0 <= i < index.len() ==> lookup(tree, tree[index[i] as int].path) == Some(
            tree[index[i] as int],
        )
}

/// `index` points at a version of the path.
spec fn listed(index: Seq<usize>, tree: Seq<Version>, path: Seq<char>) -> bool {
    exists|i: int| 0 <= i < index.len() && tree[(#[trigger] index[i]) as int].path == path
}

/// `index` points at a version of each path of the tree.
spec fn complete(index: Seq<usize>, tree: Seq<Version>) -> bool {
    forall|path: Seq<char>| lookup(tree, path) is Some ==> #[trigger] listed(index, tree, path)
}

/// `index` points at the version that counts for each path of the tree, in path
/// order.
spec fn indexes(index: Seq<usize>, tree: Seq<Version>) -> bool {
    in_order(index, tree) && counting(index, tree) && complete(index, tree)
}

/// The first place of `index` whose path does not come before `path`.
fn place(versions: &[FileVersion], index: &Vec<usize>, path: &str) -> (at: usize)
    requires
        forall|i: int| #![trigger index@[i]] 0 <= i < index@.len() ==> index@[i] < versions@.len(),
        forall|i: int, j: int|
            #![trigger index@[i], index@[j]]
            0 <= i < j < index@.len() ==> order::text_precedes(
                versions@[index@[i] as int]@.path,
                versions@[index@[j] as int]@.path,
            ),
    ensures
        at <= index@.len(),
        forall|i: int|
            #![trigger index@[i]]
            0 <= i < at ==> order::text_precedes(versions@[index@[i] as int]@.path, path@),
        forall|i: int|
            #![trigger index@[i]]
            at <= i < index@.len() ==> !order::text_precedes(
                versions@[index@[i] as int]@.path,
                path@,
            ),
{
    let mut low: usize = 0;
    let mut high: usize = index.len();
    while low < high
        invariant
            low <= high <= index@.len(),
            forall|i: int|
                #![trigger index@[i]]
                0 <= i < index@.len() ==> index@[i] < versions@.len(),
            forall|i: int, j: int|
                #![trigger index@[i], index@[j]]
                0 <= i < j < index@.len() ==> order::text_precedes(
                    versions@[index@[i] as int]@.path,
                    versions@[index@[j] as int]@.path,
                ),
            forall|i: int|
                #![trigger index@[i]]
                0 <= i < low ==> order::text_precedes(versions@[index@[i] as int]@.path, path@),
            forall|i: int|
                #![trigger index@[i]]
                high <= i < index@.len() ==> !order::text_precedes(
                    versions@[index@[i] as int]@.path,
                    path@,
                ),
        decreases high - low,
    {
        let mid: usize = low + (high - low) / 2;
        let at: usize = index[mid];
        let ghost here = versions@[at as int]@.path;
        if text_before(&versions[at].path, path) {
            proof {
                assert forall|i: int| #![trigger index@[i]] 0 <= i <= mid implies order::text_precedes(
                    versions@[index@[i] as int]@.path,
                    path@,
                ) by {
                    if i < mid {
                        order::text_order(versions@[index@[i] as int]@.path, here, path@);
                    }
                }
            }
            low = mid + 1;
        } else {
            proof {
                assert forall|i: int| #![trigger index@[i]] mid <= i < index@.len() implies !order::text_precedes(
                    versions@[index@[i] as int]@.path,
                    path@,
                ) by {
                    if i > mid {
                        order::text_order(here, versions@[index@[i] as int]@.path, path@);
                    }
                }
            }
            high = mid;
        }
    }
    low
}

/// The place of one more version of a tree among those already listed.
spec fn place_of(tree: Seq<Version>, index: Seq<usize>, path: Seq<char>, at: int) -> bool {
    &&& 0 <= at <= index.len()
    &&& forall|i: int|
        #![trigger index[i]]
        0 <= i < at ==> order::text_precedes(tree[index[i] as int].path, path)
    &&& forall|i: int|
        #![trigger index[i]]
        at <= i < index.len() ==> !order::text_precedes(tree[index[i] as int].path, path)
}

/// A path that is listed already takes the version that comes later.
proof fn index_replaced(tree: Seq<Version>, index: Seq<usize>, at: int)
    requires
        tree.len() > 0,
        tree.len() <= usize::MAX,
        indexes(index, tree.drop_last()),
        0 <= at < index.len(),
        tree[index[at] as int].path == tree.last().path,
    ensures
        indexes(index.update(at, (tree.len() - 1) as usize), tree),
{
    let k = (tree.len() - 1) as usize;
    let past = tree.drop_last();
    let next = index.update(at, k);
    assert forall|i: int| #![trigger index[i]] 0 <= i < index.len() implies past[index[i] as int]
        == tree[index[i] as int] by {}
    assert(in_order(next, tree)) by {
        assert forall|i: int, j: int| #![trigger next[i], next[j]] 0 <= i < j
            < next.len() implies order::text_precedes(
            tree[next[i] as int].path,
            tree[next[j] as int].path,
        ) by {
            assert(order::text_precedes(past[index[i] as int].path, past[index[j] as int].path));
        }
    }
    assert(counting(next, tree)) by {
        assert forall|i: int| #![trigger next[i]] 0 <= i < next.len() implies lookup(
            tree,
            tree[next[i] as int].path,
        ) == Some(tree[next[i] as int]) by {
            if i != at {
                let p = past[index[i] as int].path;
                let q = past[index[at] as int].path;
                assert(lookup(past, p) == Some(past[index[i] as int]));
                assert(order::text_precedes(p, q) || order::text_precedes(q, p));
                order::text_order(p, p, p);
            }
        }
    }
    assert(complete(next, tree)) by {
        assert forall|p: Seq<char>| lookup(tree, p) is Some implies #[trigger] listed(
            next,
            tree,
            p,
        ) by {
            if p == tree.last().path {
                assert(tree[next[at] as int].path == p);
            } else {
                assert(listed(index, past, p));
                let i = choose|i: int|
                    0 <= i < index.len() && past[(#[trigger] index[i]) as int].path == p;
                assert(tree[next[i] as int].path == p);
            }
        }
    }
}

/// A path that is not listed yet is put in its place.
proof fn index_extended(tree: Seq<Version>, index: Seq<usize>, at: int)
    requires
        tree.len() > 0,
        tree.len() <= usize::MAX,
        indexes(index, tree.drop_last()),
        place_of(tree, index, tree.last().path, at),
        at < index.len() ==> tree[index[at] as int].path != tree.last().path,
    ensures
        indexes(index.insert(at, (tree.len() - 1) as usize), tree),
{
    let k = (tree.len() - 1) as usize;
    let path = tree.last().path;
    let past = tree.drop_last();
    let next = index.insert(at, k);
    assert forall|i: int| #![trigger index[i]] 0 <= i < index.len() implies past[index[i] as int]
        == tree[index[i] as int] && (i < at ==> order::text_precedes(tree[index[i] as int].path, path))
        && (i >= at ==> order::text_precedes(path, tree[index[i] as int].path)) by {
        let p = tree[index[i] as int].path;
        if i >= at {
            let q = tree[index[at] as int].path;
            order::text_order(path, q, p);
            if i > at {
                assert(order::text_precedes(past[index[at] as int].path, past[index[i] as int].path));
            }
        }
    }
    assert(in_order(next, tree)) by {
        assert forall|i: int, j: int| #![trigger next[i], next[j]] 0 <= i < j
            < next.len() implies order::text_precedes(
            tree[next[i] as int].path,
            tree[next[j] as int].path,
        ) by {
            let a = if i < at { i } else { i - 1 };
            let b = if j < at { j } else { j - 1 };
            if i != at && j != at {
                assert(next[i] == index[a] && next[j] == index[b]);
                assert(order::text_precedes(past[index[a] as int].path, past[index[b] as int].path));
            } else if i != at {
                assert(next[i] == index[a]);
            } else {
                assert(next[j] == index[b]);
            }
        }
    }
    assert(counting(next, tree)) by {
        assert forall|i: int| #![trigger next[i]] 0 <= i < next.len() implies lookup(
            tree,
            tree[next[i] as int].path,
        ) == Some(tree[next[i] as int]) by {
            if i != at {
                let a = if i < at { i } else { i - 1 };
                assert(next[i] == index[a]);
                assert(lookup(past, past[index[a] as int].path) == Some(past[index[a] as int]));
                order::text_order(path, path, path);
            }
        }
    }
    assert(complete(next, tree)) by {
        assert forall|p: Seq<char>| lookup(tree, p) is Some implies #[trigger] listed(
            next,
            tree,
            p,
        ) by {
            if p == path {
                assert(tree[next[at] as int].path == p);
            } else {
                assert(listed(index, past, p));
                let a = choose|a: int|
                    0 <= a < index.len() && past[(#[trigger] index[a]) as int].path == p;
                let i = if a < at { a } else { a + 1 };
                assert(next[i] == index[a]);
                assert(tree[next[i] as int].path == p);
            }
        }
    }
}

/// Where the version that counts for each path stands, in path order.
fn index_by_path(versions: &[FileVersion]) -> (index: Vec<usize>)
    ensures
        indexes(index@, views(versions@)),
{
    let ghost tree = views(versions@);
    let mut index: Vec<usize> = Vec::new();
    let mut k: usize = 0;
    while k < versions.len()
        invariant
            k <= versions@.len(),
            tree == views(versions@),
            indexes(index@, tree.take(k as int)),
        decreases versions@.len() - k,
    {
        proof {
            let old_tree = tree.take(k as int);
            assert forall|i: int| #![trigger index@[i]] 0 <= i < index@.len() implies index@[i]
                < versions@.len() && versions@[index@[i] as int]@ == old_tree[index@[i] as int]
                && tree[index@[i] as int] == old_tree[index@[i] as int] by {}
            assert forall|i: int, j: int| #![trigger index@[i], index@[j]] 0 <= i < j
                < index@.len() implies order::text_precedes(
                versions@[index@[i] as int]@.path,
                versions@[index@[j] as int]@.path,
            ) by {
                assert(order::text_precedes(
                    old_tree[index@[i] as int].path,
                    old_tree[index@[j] as int].path,
                ));
            }
        }
        let at: usize = place(versions, &index, &versions[k].path);
        let known: bool = at < index.len() && versions[index[at]].path == versions[k].path;
        proof {
            let grown = tree.take(k + 1);
            assert(grown.drop_last() =~= tree.take(k as int));
            assert(grown.last() == versions@[k as int]@);
            assert forall|i: int| #![trigger index@[i]] 0 <= i < index@.len() implies
                grown[index@[i] as int] == versions@[index@[i] as int]@ by {}
            if known {
                index_replaced(grown, index@, at as int);
            } else {
                index_extended(grown, index@, at as int);
            }
        }
        if known {
            index.set(at, k);
        } else {
            index.insert(at, k);
        }
        k += 1;
    }
    assert(tree.take(k as int) =~= tree);
    index
}

/// What there is to do about a path that both sides know.
fn action_between(l: &FileVersion, r: &FileVersion) -> (action: Option<Action>)
    requires
        l@.path == r@.path,
        resolve::in_conflict(l@, r@) ==> resolve::renamable(l@.path),
    ensures
        match action {
            Some(a) => step_between(l@, r@) == Some(a@),
            None => step_between(l@, r@) is None,
        },
{
    let resolution: Resolution = resolve(l, r);
    match resolution.outcome {
        Outcome::InSync => None,
        Outcome::Merge => {
            // Both devices must land on identical metadata, or they would still
            // disagree about this path. The content is the same either way, so
            // the choice only affects who is shown as having last touched it:
            // decided by device id purely because both sides can compute it
            // without consulting a clock, and by what is recorded of the change
            // where one device made both.
            let by_another: bool = order::bytes_before(
                r.modified_by.as_bytes(),
                l.modified_by.as_bytes(),
            );
            let by_one: bool = order::same_bytes(
                r.modified_by.as_bytes(),
                l.modified_by.as_bytes(),
            );
            let keeper: &FileVersion = if by_another || (by_one && r.modified_at < l.modified_at) {
                r
            } else {
                l
            };
            let mut resolved: FileVersion = keeper.clone();
            resolved.vector = resolution.vector;
            Some(Action::Merge { resolved })
        },
        Outcome::KeepLocal => Some(Action::Offer { local: l.clone() }),
        Outcome::TakeRemote => Some(Action::Adopt { remote: r.clone() }),
        Outcome::Conflict { keeps_path, renamed_to } => {
            let (winner, loser): (&FileVersion, &FileVersion) = match keeps_path {
                Side::Local => (l, r),
                Side::Remote => (r, l),
            };
            let mut keeps: FileVersion = winner.clone();
            keeps.vector = resolution.vector.clone();
            let mut renamed: FileVersion = loser.clone();
            renamed.path = renamed_to;
            renamed.vector = resolution.vector;
            Some(Action::Conflict { keeps_path: keeps, renamed })
        },
        Outcome::Resurrect { survivor } => {
            let mut resolved: FileVersion = match survivor {
                Side::Local => l.clone(),
                Side::Remote => r.clone(),
            };
            resolved.vector = resolution.vector;
            Some(Action::Resurrect { resolved })
        },
    }
}

/// The paths that the first `n` entries of an index point at are all planned
/// for.
spec fn covered(
    plan: Seq<Step>,
    tree: Seq<Version>,
    index: Seq<usize>,
    n: int,
    local: Seq<Version>,
    remote: Seq<Version>,
) -> bool {
    forall|i: int|
        #![trigger index[i]]
        0 <= i < n && planned(local, remote, tree[index[i] as int].path) is Some ==> exists|k: int|
            0 <= k < plan.len() && step_path(#[trigger] plan[k]) == tree[index[i] as int].path
}

/// All of the plan comes before what the index points at from `n` on.
spec fn behind(plan: Seq<Step>, tree: Seq<Version>, index: Seq<usize>, n: int) -> bool {
    forall|k: int, i: int|
        #![trigger plan[k], index[i]]
        0 <= k < plan.len() && n <= i < index.len() ==> order::text_precedes(
            step_path(plan[k]),
            tree[index[i] as int].path,
        )
}

/// What the first `m` entries of one index point at comes before what the other
/// points at from `n` on.
spec fn passed(
    a: Seq<Version>,
    left: Seq<usize>,
    m: int,
    b: Seq<Version>,
    right: Seq<usize>,
    n: int,
) -> bool {
    forall|i: int, j: int|
        #![trigger left[i], right[j]]
        0 <= i < m && n <= j < right.len() ==> order::text_precedes(
            a[left[i] as int].path,
            b[right[j] as int].path,
        )
}

/// A path between two neighbours of an index is not in its tree.
proof fn not_listed(tree: Seq<Version>, index: Seq<usize>, n: int, path: Seq<char>)
    requires
        indexes(index, tree),
        0 <= n <= index.len(),
        forall|i: int|
            #![trigger index[i]]
            0 <= i < n ==> order::text_precedes(tree[index[i] as int].path, path),
        n < index.len() ==> order::text_precedes(path, tree[index[n] as int].path),
    ensures
        lookup(tree, path) is None,
        forall|i: int|
            #![trigger index[i]]
            n <= i < index.len() ==> order::text_precedes(path, tree[index[i] as int].path),
{
    assert forall|i: int| #![trigger index[i]] n <= i < index.len() implies order::text_precedes(
        path,
        tree[index[i] as int].path,
    ) by {
        if i > n {
            order::text_order(path, tree[index[n] as int].path, tree[index[i] as int].path);
        }
    }
    if lookup(tree, path) is Some {
        assert(listed(index, tree, path));
        order::text_order(path, path, path);
    }
}

/// Work out what to do, given both sides' views.
///
/// Returns actions ordered by path, so the result is deterministic and two
/// devices comparing notes produce the same plan in the same order.
///
/// Paths present on only one side are not automatically "new". A path the
/// remote has never heard of may be one we deleted long ago, which is exactly
/// why tombstones are offered rather than skipped: otherwise the remote would
/// send the file back and the deletion would undo itself.
#[verifier::spinoff_prover]
#[verifier::rlimit(50)]
pub fn reconcile(local: &[FileVersion], remote: &[FileVersion]) -> (actions: Vec<Action>)
    requires
        conflicts_renamable(views(local@), views(remote@)),
    ensures
        is_plan(steps(actions@), views(local@), views(remote@)),
{
    let left: Vec<usize> = index_by_path(local);
    let right: Vec<usize> = index_by_path(remote);
    let ghost a = views(local@);
    let ghost b = views(remote@);
    let mut actions: Vec<Action> = Vec::new();
    let mut i: usize = 0;
    let mut j: usize = 0;
    while i < left.len() || j < right.len()
        invariant
            a == views(local@),
            b == views(remote@),
            conflicts_renamable(a, b),
            indexes(left@, a),
            indexes(right@, b),
            i <= left@.len(),
            j <= right@.len(),
            passed(a, left@, i as int, b, right@, j as int),
            passed(b, right@, j as int, a, left@, i as int),
            behind(steps(actions@), a, left@, i as int),
            behind(steps(actions@), b, right@, j as int),
            covered(steps(actions@), a, left@, i as int, a, b),
            covered(steps(actions@), b, right@, j as int, a, b),
            forall|m: int, n: int|
                #![trigger steps(actions@)[m], steps(actions@)[n]]
                0 <= m < n < actions@.len() ==> order::text_precedes(
                    step_path(steps(actions@)[m]),
                    step_path(steps(actions@)[n]),
                ),
            forall|m: int|
                #![trigger steps(actions@)[m]]
                0 <= m < actions@.len() ==> planned(a, b, step_path(steps(actions@)[m])) == Some(
                    steps(actions@)[m],
                ),
        decreases left@.len() - i + right@.len() - j,
    {
        let ghost before = steps(actions@);
        // Whether the next path is known here, there, or on both sides.
        let here: bool = i < left.len() && (j >= right.len() || !text_before(
            &remote[right[j]].path,
            &local[left[i]].path,
        ));
        let there: bool = j < right.len() && (i >= left.len() || !text_before(
            &local[left[i]].path,
            &remote[right[j]].path,
        ));
        let ghost path = if here { a[left@[i as int] as int].path } else { b[right@[j as int] as int].path };
        proof {
            if i < left@.len() && j < right@.len() {
                order::text_order(
                    a[left@[i as int] as int].path,
                    b[right@[j as int] as int].path,
                    path,
                );
                order::text_order(
                    b[right@[j as int] as int].path,
                    a[left@[i as int] as int].path,
                    path,
                );
            }
            if !here {
                not_listed(a, left@, i as int, path);
            }
            if !there {
                not_listed(b, right@, j as int, path);
            }
        }
        let action: Option<Action> = if here && there {
            let l: &FileVersion = &local[left[i]];
            let r: &FileVersion = &remote[right[j]];
            action_between(l, r)
        } else if here {
            Some(Action::Offer { local: local[left[i]].clone() })
        } else {
            Some(Action::Adopt { remote: remote[right[j]].clone() })
        };
        assert(match action {
            Some(x) => planned(a, b, path) == Some(x@) && step_path(x@) == path,
            None => planned(a, b, path) is None,
        });
        match action {
            Some(x) => {
                actions.push(x);
            },
            None => {},
        }
        let ghost after = steps(actions@);
        if here {
            i += 1;
        }
        if there {
            j += 1;
        }
        proof {
            assert(forall|m: int| 0 <= m < before.len() ==> after[m] == before[m]);
            if after.len() > before.len() {
                assert(after.len() == before.len() + 1);
                assert(step_path(after[before.len() as int]) == path);
            }
            // Everything still to come lies behind this path.
            assert forall|m: int| #![trigger left@[m]] i <= m < left@.len() implies order::text_precedes(
                path,
                a[left@[m] as int].path,
            ) by {}
            assert forall|m: int| #![trigger right@[m]] j <= m < right@.len() implies order::text_precedes(
                path,
                b[right@[m] as int].path,
            ) by {}
            assert(behind(after, a, left@, i as int));
            assert(behind(after, b, right@, j as int));
            assert(covered(after, a, left@, i as int, a, b)) by {
                covered_grows(before, after, a, left@, i - (if here { 1int } else { 0 }), i as int, a, b, path);
            }
            assert(covered(after, b, right@, j as int, a, b)) by {
                covered_grows(before, after, b, right@, j - (if there { 1int } else { 0 }), j as int, a, b, path);
            }
        }
    }
    proof {
        let plan = steps(actions@);
        assert forall|path: Seq<char>| #[trigger] planned(a, b, path) is Some implies exists|k: int|
            0 <= k < plan.len() && step_path(#[trigger] plan[k]) == path by {
            assert(lookup(a, path) is Some ==> listed(left@, a, path));
            assert(lookup(b, path) is Some ==> listed(right@, b, path));
        }
    }
    actions
}

proof fn covered_grows(
    before: Seq<Step>,
    after: Seq<Step>,
    tree: Seq<Version>,
    index: Seq<usize>,
    m: int,
    n: int,
    local: Seq<Version>,
    remote: Seq<Version>,
    path: Seq<char>,
)
    requires
        covered(before, tree, index, m, local, remote),
        before.len() <= after.len(),
        forall|i: int| 0 <= i < before.len() ==> after[i] == before[i],
        m <= n <= m + 1,
        m < n ==> tree[index[m] as int].path == path,
        planned(local, remote, path) is Some ==> after.len() == before.len() + 1 && step_path(
            after[before.len() as int],
        ) == path,
    ensures
        covered(after, tree, index, n, local, remote),
{
    assert forall|i: int|
        #![trigger index[i]]
        0 <= i < n && planned(local, remote, tree[index[i] as int].path) is Some implies exists|k: int|
            0 <= k < after.len() && step_path(#[trigger] after[k]) == tree[index[i] as int].path by {
        if i < m {
            let k = choose|k: int|
                0 <= k < before.len() && step_path(#[trigger] before[k]) == tree[index[i] as int].path;
            assert(step_path(after[k]) == tree[index[i] as int].path);
        }
    }
}

} // verus!
