//! What becomes of an event: from what the platform says to what is reported.

use vstd::prelude::*;

use super::debounce;
use super::debounce::{ChangeKind, Wait, Waiting};
use super::ignore;
use super::ignore::Rules;
use super::paths;
use super::settle;
use super::settle::{RawEvent, RawKind, Snapshot, Standing, Watching};

verus! {

/// The path waits to be reported as this kind of change, and its quiet period
/// runs from `now`.
pub open spec fn waits(w: Watching, path: Seq<char>, kind: ChangeKind, now: u64) -> bool {
    let k = paths::key(path);
    &&& w.waiting.pending.contains_key(k)
    &&& w.waiting.pending[k].kind == kind
    &&& w.waiting.pending[k].last_event == now
}

/// Of what is heard, each path that is not ignored waits as the last change of it
/// says, from now on. Its first event is now, unless it waited already.
pub proof fn law_what_is_heard_waits(
    w: Watching,
    changes: Seq<(Seq<char>, ChangeKind)>,
    looks: Seq<Option<Snapshot>>,
    rules: Rules,
    now: u64,
    n: int,
    i: int,
)
    requires
        0 <= i < n <= changes.len(),
        !ignore::ignored(rules, changes[i].0),
        forall|j: int|
            #![trigger changes[j]]
            i < j < n && !ignore::ignored(rules, changes[j].0) ==> paths::key(changes[j].0)
                != paths::key(changes[i].0),
    ensures
        ({
            let after = settle::heard(w, changes, looks, rules, now, n);
            let k = paths::key(changes[i].0);
            &&& waits(after, changes[i].0, changes[i].1, now)
            &&& after.waiting.pending[k].first_event == if w.waiting.pending.contains_key(k) {
                w.waiting.pending[k].first_event
            } else {
                now
            }
            &&& w.waiting.pending.contains_key(k) ==> after.waiting.pending[k].path
                == w.waiting.pending[k].path
            &&& !w.waiting.pending.contains_key(k) && (forall|j: int|
                #![trigger changes[j]]
                0 <= j < i ==> paths::key(changes[j].0) != k) ==> after.waiting.pending[k].path
                == changes[i].0
            &&& changes[i].1 == ChangeKind::Upserted && looks[i] is Some
                ==> after.seen.contains_key(k) && after.seen[k] == looks[i]->0
        }),
    decreases n,
{
    let k = paths::key(changes[i].0);
    let before = settle::heard(w, changes, looks, rules, now, n - 1);
    if i < n - 1 {
        law_what_is_heard_waits(w, changes, looks, rules, now, n - 1, i);
        assert(changes[n - 1] == changes[n - 1]);
    } else {
        first_event_stands(w, changes, looks, rules, now, n - 1, k);
    }
}

/// What is heard leaves the first event and the path of what waited as they were,
/// and starts what did not wait now.
proof fn first_event_stands(
    w: Watching,
    changes: Seq<(Seq<char>, ChangeKind)>,
    looks: Seq<Option<Snapshot>>,
    rules: Rules,
    now: u64,
    n: int,
    k: Seq<int>,
)
    requires
        0 <= n <= changes.len(),
    ensures
        settle::heard(w, changes, looks, rules, now, n).waiting.config == w.waiting.config,
        ({
            let pending = settle::heard(w, changes, looks, rules, now, n).waiting.pending;
            &&& w.waiting.pending.contains_key(k) ==> pending.contains_key(k)
                && pending[k].first_event == w.waiting.pending[k].first_event && pending[k].path
                == w.waiting.pending[k].path
            &&& !w.waiting.pending.contains_key(k) && pending.contains_key(k)
                ==> pending[k].first_event == now
            &&& !w.waiting.pending.contains_key(k) && (forall|j: int|
                #![trigger changes[j]]
                0 <= j < n ==> paths::key(changes[j].0) != k) ==> !pending.contains_key(k)
        }),
    decreases n,
{
    if n > 0 {
        first_event_stands(w, changes, looks, rules, now, n - 1, k);
        assert(changes[n - 1] == changes[n - 1]);
    }
}

/// What the platform says is heard for what it is. Paths that it says were
/// removed, or renamed away, wait as removals; the path of any other event waits
/// as a write, with how it looks now; of a rename from one path to another, the
/// old one waits as a removal and the new one as a write. What is ignored does
/// not wait. An event that only tells of a read changes nothing.
pub proof fn law_an_event_is_heard_for_what_it_is(
    w: Watching,
    kind: RawKind,
    list: Seq<Seq<char>>,
    looks: Seq<Option<Snapshot>>,
    rules: Rules,
    now: u64,
    i: int,
)
    requires
        looks.len() == list.len(),
        0 <= i < list.len(),
        !ignore::ignored(rules, list[i]),
    ensures
        ({
            let changes = settle::classified(kind, list);
            let after = settle::heard(w, changes, looks, rules, now, changes.len() as int);
            match kind {
                RawKind::Remove | RawKind::RenameFrom => waits(
                    after,
                    list[i],
                    ChangeKind::Removed,
                    now,
                ),
                RawKind::Other => {
                    &&& waits(after, list[i], ChangeKind::Upserted, now)
                    &&& looks[i] is Some && (forall|j: int|
                        #![trigger list[j]]
                        i < j < list.len() ==> paths::key(list[j]) != paths::key(list[i]))
                        ==> after.seen.contains_key(paths::key(list[i]))
                        && after.seen[paths::key(list[i])] == looks[i]->0
                },
                RawKind::RenameBoth => {
                    &&& i == 1 ==> waits(after, list[1], ChangeKind::Upserted, now)
                    &&& i == 1 && looks[1] is Some ==> after.seen.contains_key(paths::key(list[1]))
                        && after.seen[paths::key(list[1])] == looks[1]->0
                    &&& i == 0 && (list.len() == 1 || paths::key(list[1]) != paths::key(list[0]))
                        ==> waits(after, list[0], ChangeKind::Removed, now)
                },
                RawKind::Access => after == w,
            }
        }),
{
    let changes = settle::classified(kind, list);
    let n = changes.len() as int;
    match kind {
        RawKind::Access => {},
        RawKind::RenameBoth => {
            if i < 2 {
                if i == 1 || list.len() == 1 || paths::key(list[1]) != paths::key(list[0]) {
                    law_what_is_heard_waits(w, changes, looks, rules, now, n, i);
                }
            }
        },
        _ => {
            let last = last_alike(list, rules, i, list.len() as int);
            law_what_is_heard_waits(w, changes, looks, rules, now, n, last);
            if forall|j: int|
                #![trigger list[j]]
                i < j < list.len() ==> paths::key(list[j]) != paths::key(list[i]) {
                assert(last == i) by {
                    assert(paths::key(list[last]) == paths::key(list[i]));
                }
            }
        },
    }
}

/// The last path of a list that is the same path as the `i`-th and not ignored.
proof fn last_alike(list: Seq<Seq<char>>, rules: Rules, i: int, n: int) -> (last: int)
    requires
        0 <= i < n <= list.len(),
        !ignore::ignored(rules, list[i]),
    ensures
        i <= last < n,
        !ignore::ignored(rules, list[last]),
        paths::key(list[last]) == paths::key(list[i]),
        forall|j: int|
            #![trigger list[j]]
            last < j < n && !ignore::ignored(rules, list[j]) ==> paths::key(list[j])
                != paths::key(list[last]),
    decreases n,
{
    if i == n - 1 {
        i
    } else if !ignore::ignored(rules, list[n - 1]) && paths::key(list[n - 1]) == paths::key(
        list[i],
    ) {
        n - 1
    } else {
        last_alike(list, rules, i, n - 1)
    }
}

/// An event leaves alone every path that is not one of its own, and does not ask
/// for a rescan or settle one.
pub proof fn law_an_event_touches_its_own_paths_only(
    w: Watching,
    changes: Seq<(Seq<char>, ChangeKind)>,
    looks: Seq<Option<Snapshot>>,
    rules: Rules,
    now: u64,
    n: int,
    k: Seq<int>,
)
    requires
        0 <= n <= changes.len(),
        forall|j: int|
            #![trigger changes[j]]
            0 <= j < n ==> paths::key(changes[j].0) != k || ignore::ignored(rules, changes[j].0),
    ensures
        ({
            let after = settle::heard(w, changes, looks, rules, now, n);
            &&& after.waiting.pending.contains_key(k) == w.waiting.pending.contains_key(k)
            &&& w.waiting.pending.contains_key(k) ==> after.waiting.pending[k]
                == w.waiting.pending[k]
            &&& after.seen.contains_key(k) == w.seen.contains_key(k)
            &&& w.seen.contains_key(k) ==> after.seen[k] == w.seen[k]
            &&& after.waiting.rescan == w.waiting.rescan
            &&& after.waiting.config == w.waiting.config
        }),
    decreases n,
{
    if n > 0 {
        law_an_event_touches_its_own_paths_only(w, changes, looks, rules, now, n - 1, k);
        assert(changes[n - 1] == changes[n - 1]);
    }
}

/// A path that waits is released once it was quiet for the quiet period, or was
/// held for the longest hold, and not before. It is released once, as the kind of
/// change that it waits as, whichever kind that is. What is not released waits on
/// as it did.
pub proof fn law_what_waits_is_released_once_quiet(
    w: Waiting,
    now: u64,
    out: Seq<(Seq<char>, ChangeKind)>,
    k: Seq<int>,
)
    requires
        debounce::are_settled(w, now, out),
        w.pending.contains_key(k),
        paths::key(w.pending[k].path) == k,
    ensures
        ({
            let p = w.pending[k];
            let is_due = now - p.last_event >= w.config.quiet || now - p.first_event
                >= w.config.max_hold;
            let left = debounce::unsettled(w, now);
            &&& is_due && now >= p.last_event && now >= p.first_event ==> out.contains(
                (p.path, p.kind),
            ) && !left.contains_key(k)
            &&& !is_due && w.config.quiet > 0 && w.config.max_hold > 0 ==> !out.contains(
                (p.path, p.kind),
            ) && left.contains_key(k) && left[k] == p
        }),
        forall|i: int, j: int|
            #![trigger out[i], out[j]]
            0 <= i < j < out.len() ==> paths::path_precedes(out[i].0, out[j].0),
{
    let p = w.pending[k];
    if debounce::settled(w.config, p, now) {
        let i = choose|i: int| 0 <= i < out.len() && paths::key(#[trigger] out[i].0) == k;
        assert(out[i] == (p.path, p.kind));
    } else if out.contains((p.path, p.kind)) {
        let i = choose|i: int| 0 <= i < out.len() && out[i] == (p.path, p.kind);
        assert(paths::key(out[i].0) == k);
    }
}

/// Everything that is released was waiting, under its own path and kind.
pub proof fn law_only_what_waits_is_released(
    w: Waiting,
    now: u64,
    out: Seq<(Seq<char>, ChangeKind)>,
    i: int,
)
    requires
        debounce::are_settled(w, now, out),
        0 <= i < out.len(),
    ensures
        w.pending.contains_key(paths::key(out[i].0)),
        out[i] == (
            w.pending[paths::key(out[i].0)].path,
            w.pending[paths::key(out[i].0)].kind,
        ),
{
}

/// From the event to the report: a path that the platform says was removed, that
/// is not ignored and did not wait before, is reported as removed once the quiet
/// period has passed, and what stands there does not matter.
pub proof fn law_a_removal_is_reported(
    w: Watching,
    kind: RawKind,
    list: Seq<Seq<char>>,
    looks: Seq<Option<Snapshot>>,
    rules: Rules,
    now: u64,
    i: int,
    later: u64,
    out: Seq<(Seq<char>, ChangeKind)>,
    found: Standing,
)
    requires
        kind is Remove || kind is RenameFrom || (kind is RenameBoth && i == 0 && list.len() > 1
            && paths::key(list[1]) != paths::key(list[0])),
        looks.len() == list.len(),
        0 <= i < list.len(),
        !ignore::ignored(rules, list[i]),
        forall|j: int|
            #![trigger list[j]]
            0 <= j < i ==> paths::key(list[j]) != paths::key(list[i]),
        !w.waiting.pending.contains_key(paths::key(list[i])),
        later - now >= w.waiting.config.quiet,
        ({
            let changes = settle::classified(kind, list);
            debounce::are_settled(
                settle::heard(w, changes, looks, rules, now, changes.len() as int).waiting,
                later,
                out,
            )
        }),
    ensures
        out.contains((list[i], ChangeKind::Removed)),
        settle::reported(w, (list[i], ChangeKind::Removed), found) == Some(
            (list[i], ChangeKind::Removed),
        ),
{
    let changes = settle::classified(kind, list);
    let n = changes.len() as int;
    let after = settle::heard(w, changes, looks, rules, now, n);
    let k = paths::key(list[i]);
    law_an_event_is_heard_for_what_it_is(w, kind, list, looks, rules, now, i);
    first_event_stands(w, changes, looks, rules, now, n, k);
    assert(changes[i] == (list[i], ChangeKind::Removed));
    path_of_new(w, changes, looks, rules, now, n, i);
    law_what_waits_is_released_once_quiet(after.waiting, later, out, k);
}

/// A path that did not wait waits under the name it was first heard by.
proof fn path_of_new(
    w: Watching,
    changes: Seq<(Seq<char>, ChangeKind)>,
    looks: Seq<Option<Snapshot>>,
    rules: Rules,
    now: u64,
    n: int,
    i: int,
)
    requires
        0 <= i < n <= changes.len(),
        !ignore::ignored(rules, changes[i].0),
        !w.waiting.pending.contains_key(paths::key(changes[i].0)),
        forall|j: int|
            #![trigger changes[j]]
            0 <= j < i ==> paths::key(changes[j].0) != paths::key(changes[i].0),
    ensures
        ({
            let pending = settle::heard(w, changes, looks, rules, now, n).waiting.pending;
            let k = paths::key(changes[i].0);
            pending.contains_key(k) && pending[k].path == changes[i].0 && pending[k].first_event
                == now
        }),
    decreases n,
{
    let k = paths::key(changes[i].0);
    if i < n - 1 {
        path_of_new(w, changes, looks, rules, now, n - 1, i);
    } else {
        first_event_stands(w, changes, looks, rules, now, n - 1, k);
    }
}

/// A file that was written and looks the same when its quiet period is over is
/// reported as written, and nothing is left of it. Something gone by then is
/// reported as removed.
pub proof fn law_a_finished_write_is_reported(
    w: Watching,
    path: Seq<char>,
    looks: Snapshot,
    now: u64,
)
    requires
        w.seen.contains_key(paths::key(path)),
        w.seen[paths::key(path)] == looks,
    ensures
        ({
            let change = (path, ChangeKind::Upserted);
            let found = Standing::File { looks };
            let after = settle::looked_at(w, change, found, now);
            &&& settle::reported(w, change, found) == Some((path, ChangeKind::Upserted))
            &&& !after.seen.contains_key(paths::key(path))
            &&& after.waiting == w.waiting
        }),
        settle::reported(w, (path, ChangeKind::Upserted), Standing::Gone) == Some(
            (path, ChangeKind::Removed),
        ),
{
}

/// A file in flight waits on as a write that was touched now; its longest hold
/// goes on running.
pub proof fn law_a_file_in_flight_waits_anew(
    w: Watching,
    path: Seq<char>,
    looks: Snapshot,
    now: u64,
)
    requires
        !(w.seen.contains_key(paths::key(path)) && w.seen[paths::key(path)] == looks),
    ensures
        ({
            let k = paths::key(path);
            let after = settle::looked_at(
                w,
                (path, ChangeKind::Upserted),
                Standing::File { looks },
                now,
            );
            &&& after.waiting.pending[k] == if w.waiting.pending.contains_key(k) {
                Wait { last_event: now, ..w.waiting.pending[k] }
            } else {
                Wait { path, kind: ChangeKind::Upserted, first_event: now, last_event: now }
            }
            &&& after.waiting.rescan == w.waiting.rescan
            &&& forall|other: Seq<int>|
                other != k ==> (#[trigger] after.waiting.pending.contains_key(other)
                    <==> w.waiting.pending.contains_key(other))
        }),
{
}

/// A new directory is not reported; each file in it waits as a write from now on,
/// with how it looks now. One that could not be walked asks for a rescan.
pub proof fn law_a_new_directory_is_walked(
    w: Watching,
    path: Seq<char>,
    files: Seq<(Seq<char>, Option<Snapshot>)>,
    now: u64,
    i: int,
)
    requires
        0 <= i < files.len(),
    ensures
        ({
            let change = (path, ChangeKind::Upserted);
            let whole = Standing::Directory { files: Some(files) };
            let none = Standing::Directory { files: None };
            let after = settle::looked_at(w, change, whole, now);
            &&& settle::reported(w, change, whole) is None
            &&& waits(after, files[i].0, ChangeKind::Upserted, now)
            &&& after.waiting.rescan == w.waiting.rescan
            &&& files[i].1 is Some && (forall|j: int|
                #![trigger files[j]]
                i < j < files.len() ==> paths::key(files[j].0) != paths::key(files[i].0))
                ==> after.seen.contains_key(paths::key(files[i].0))
                && after.seen[paths::key(files[i].0)] == files[i].1->0
            &&& settle::reported(w, change, none) is None
            &&& settle::looked_at(w, change, none, now).waiting.rescan
            &&& settle::looked_at(w, change, none, now).waiting.pending == w.waiting.pending
        }),
{
    let forgotten = Watching { seen: w.seen.remove(paths::key(path)), ..w };
    walked_waits(forgotten, files, now, files.len() as int, i);
}

proof fn walked_waits(
    w: Watching,
    files: Seq<(Seq<char>, Option<Snapshot>)>,
    now: u64,
    n: int,
    i: int,
)
    requires
        0 <= i < n <= files.len(),
    ensures
        ({
            let after = settle::walked(w, files, now, n);
            &&& waits(after, files[i].0, ChangeKind::Upserted, now)
            &&& after.waiting.rescan == w.waiting.rescan
            &&& files[i].1 is Some && (forall|j: int|
                #![trigger files[j]]
                i < j < n ==> paths::key(files[j].0) != paths::key(files[i].0))
                ==> after.seen.contains_key(paths::key(files[i].0))
                && after.seen[paths::key(files[i].0)] == files[i].1->0
        }),
    decreases n,
{
    if i < n - 1 {
        walked_waits(w, files, now, n - 1, i);
        assert(files[n - 1] == files[n - 1]);
    } else {
        walked_keeps_rescan(w, files, now, n - 1);
    }
}

proof fn walked_keeps_rescan(
    w: Watching,
    files: Seq<(Seq<char>, Option<Snapshot>)>,
    now: u64,
    n: int,
)
    requires
        0 <= n <= files.len(),
    ensures
        settle::walked(w, files, now, n).waiting.rescan == w.waiting.rescan,
    decreases n,
{
    if n > 0 {
        walked_keeps_rescan(w, files, now, n - 1);
    }
}

/// What was reported is done with: how the path looked is forgotten, it asks for no
/// rescan, and nothing else that waits changes.
pub proof fn law_what_was_reported_is_done_with(
    w: Watching,
    change: (Seq<char>, ChangeKind),
    found: Standing,
    now: u64,
)
    requires
        settle::reported(w, change, found) is Some,
    ensures
        ({
            let after = settle::looked_at(w, change, found, now);
            &&& !after.seen.contains_key(paths::key(change.0))
            &&& after.waiting == w.waiting
            &&& forall|k: Seq<int>|
                k != paths::key(change.0) ==> (#[trigger] after.seen.contains_key(k)
                    <==> w.seen.contains_key(k))
            &&& forall|k: Seq<int>|
                k != paths::key(change.0) && #[trigger] after.seen.contains_key(k)
                    ==> after.seen[k] == w.seen[k]
        }),
        (settle::reported(w, change, found)->0).0 == change.0,
{
}

/// Where events were dropped a rescan is owed, and nothing that waits is lost.
pub proof fn law_dropped_events_ask_for_a_rescan(
    w: Watching,
    looks: Seq<Option<Snapshot>>,
    rules: Rules,
    now: u64,
)
    ensures
        ({
            let after = settle::handled(w, RawEvent::Overflow, looks, rules, now);
            &&& after.waiting.rescan
            &&& after.waiting.pending == w.waiting.pending
            &&& after.waiting.config == w.waiting.config
            &&& after.seen == w.seen
        }),
{
}

/// Handing out what has settled leaves what has not, and how everything looked, as it
/// was: what was handed out waits no longer, and nothing else stops waiting.
pub proof fn law_handing_out_leaves_the_rest(w: Watching, now: u64, k: Seq<int>)
    requires
        w.waiting.pending.contains_key(k),
        w.waiting.config.quiet > 0,
        w.waiting.config.max_hold > 0,
    ensures
        ({
            let after = settle::drained(w, now);
            let p = w.waiting.pending[k];
            &&& after.waiting.pending.contains_key(k) <==> now - p.last_event
                < w.waiting.config.quiet && now - p.first_event < w.waiting.config.max_hold
            &&& after.waiting.pending.contains_key(k) ==> after.waiting.pending[k] == p
            &&& after.waiting.rescan == w.waiting.rescan
            &&& after.waiting.config == w.waiting.config
            &&& after.seen == w.seen
        }),
{
}

} // verus!
