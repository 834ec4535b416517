//! Turning a stream of raw filesystem events into settled changes.
//!
//! Raw events are far noisier than the changes a user made. Saving one file in a
//! text editor typically produces a create, several writes, a rename, a delete,
//! and a permissions change, for two paths. Acting on each event would re-chunk
//! the same file dozens of times and transfer half-written data.
//!
//! So events are collected per path and released only once that path has been
//! quiet for a while. Two rules govern the release:
//!
//! - **Quiet period.** A path is released when no event has touched it for
//!   `quiet`. This is what collapses an editor's burst into one change.
//! - **Maximum hold.** A path is released regardless once `max_hold` has passed
//!   since its first event. Without this, a file being appended to continuously
//!   would never settle and would never sync at all.
//!
//! This type is free of I/O and of any clock of its own: the caller passes the
//! current time in. Times are nanoseconds, counted from any one moment.

use vstd::prelude::*;

use super::paths;
use super::paths::{path_before, same_path};
use crate::keyed;

verus! {

#[derive(Debug, Clone, Copy, PartialEq, Eq, Structural)]
pub enum ChangeKind {
    /// Created or modified. The engine treats both the same way: read the file
    /// and store whatever is there now.
    Upserted,
    Removed,
}

#[derive(Debug, Clone, PartialEq, Eq)]
pub struct Change {
    pub path: String,
    pub kind: ChangeKind,
}

impl View for Change {
    type V = (Seq<char>, ChangeKind);

    open spec fn view(&self) -> (Seq<char>, ChangeKind) {
        (self.path@, self.kind)
    }
}

impl Change {
    pub fn upserted(path: &str) -> (change: Self)
        ensures
            change@ == (path@, ChangeKind::Upserted),
    {
        Change { path: path.to_owned(), kind: ChangeKind::Upserted }
    }

    pub fn removed(path: &str) -> (change: Self)
        ensures
            change@ == (path@, ChangeKind::Removed),
    {
        Change { path: path.to_owned(), kind: ChangeKind::Removed }
    }
}

pub open spec fn change_views(s: Seq<Change>) -> Seq<(Seq<char>, ChangeKind)> {
    Seq::new(s.len(), |i: int| s[i]@)
}

#[derive(Debug)]
struct Pending {
    path: String,
    kind: ChangeKind,
    first_event: u64,
    last_event: u64,
}

/// How long to wait, in nanoseconds.
#[derive(Debug, Clone, Copy, PartialEq, Eq, Structural)]
pub struct DebounceConfig {
    pub quiet: u64,
    pub max_hold: u64,
}

impl Default for DebounceConfig {
    fn default() -> (config: Self)
        ensures
            config == (DebounceConfig { quiet: 400_000_000, max_hold: 5_000_000_000 }),
    {
        DebounceConfig {
            // Long enough to absorb an editor's save sequence, short enough
            // that sync still feels immediate.
            quiet: 400_000_000,
            // A file written to continuously still syncs every few seconds
            // rather than never.
            max_hold: 5_000_000_000,
        }
    }
}

/// A path that waits, spelled as it first came.
pub struct Wait {
    pub path: Seq<char>,
    pub kind: ChangeKind,
    pub first_event: u64,
    pub last_event: u64,
}

/// What is waiting, and whether a rescan is owed.
pub struct Waiting {
    pub config: DebounceConfig,
    pub pending: Map<Seq<int>, Wait>,
    pub rescan: bool,
}

pub struct Debouncer {
    config: DebounceConfig,
    pending: Vec<Pending>,
    rescan_requested: bool,
}

spec fn pairs(s: Seq<Pending>) -> Seq<(Seq<int>, Wait)> {
    Seq::new(
        s.len(),
        |i: int|
            (
                paths::key(s[i].path@),
                Wait {
                    path: s[i].path@,
                    kind: s[i].kind,
                    first_event: s[i].first_event,
                    last_event: s[i].last_event,
                },
            ),
    )
}

impl View for Debouncer {
    type V = Waiting;

    closed spec fn view(&self) -> Waiting {
        Waiting {
            config: self.config,
            pending: keyed::to_map(pairs(self.pending@)),
            rescan: self.rescan_requested,
        }
    }
}

/// How much later one moment is than another.
pub open spec fn since(now: u64, then: u64) -> int {
    if now >= then {
        now - then
    } else {
        0
    }
}

/// Whether a path has settled.
pub open spec fn settled(config: DebounceConfig, w: Wait, now: u64) -> bool {
    since(now, w.last_event) >= config.quiet || since(now, w.first_event) >= config.max_hold
}

/// The moment from which on a path counts as settled.
pub open spec fn deadline(config: DebounceConfig, w: Wait) -> int {
    let by_quiet = w.last_event + config.quiet;
    let by_hold = w.first_event + config.max_hold;
    if by_quiet <= by_hold {
        by_quiet
    } else {
        by_hold
    }
}

/// The soonest moment at which a path that waits counts as settled; none where
/// nothing waits.
pub open spec fn is_next_deadline(w: Waiting, soonest: Option<u64>) -> bool {
    match soonest {
        None => w.pending == Map::<Seq<int>, Wait>::empty(),
        Some(t) => {
            &&& exists|k: Seq<int>| #[trigger]
                w.pending.contains_key(k) && deadline(w.config, w.pending[k]) == t
            &&& forall|k: Seq<int>| #[trigger]
                w.pending.contains_key(k) ==> deadline(w.config, w.pending[k]) >= t
        },
    }
}

/// What waits after an event. The most recent event for a path wins.
pub open spec fn observed(
    pending: Map<Seq<int>, Wait>,
    path: Seq<char>,
    kind: ChangeKind,
    now: u64,
) -> Map<Seq<int>, Wait> {
    let k = paths::key(path);
    pending.insert(
        k,
        if pending.contains_key(k) {
            Wait { kind, last_event: now, ..pending[k] }
        } else {
            Wait { path, kind, first_event: now, last_event: now }
        },
    )
}

/// What waits after a path was put back.
pub open spec fn deferred(pending: Map<Seq<int>, Wait>, path: Seq<char>, now: u64) -> Map<
    Seq<int>,
    Wait,
> {
    let k = paths::key(path);
    pending.insert(
        k,
        if pending.contains_key(k) {
            Wait { last_event: now, ..pending[k] }
        } else {
            Wait { path, kind: ChangeKind::Upserted, first_event: now, last_event: now }
        },
    )
}

/// What still waits once the settled paths have been released.
pub open spec fn unsettled(w: Waiting, now: u64) -> Map<Seq<int>, Wait> {
    w.pending.restrict(
        w.pending.dom().filter(|k: Seq<int>| !settled(w.config, w.pending[k], now)),
    )
}

/// Each path comes strictly before the next.
pub open spec fn in_order(out: Seq<(Seq<char>, ChangeKind)>) -> bool {
    forall|i: int, j: int|
        #![trigger out[i], out[j]]
        0 <= i < j < out.len() ==> paths::path_precedes(out[i].0, out[j].0)
}

/// Exactly the paths that have settled, in order.
pub open spec fn are_settled(w: Waiting, now: u64, out: Seq<(Seq<char>, ChangeKind)>) -> bool {
    &&& in_order(out)
    &&& forall|i: int|
        #![trigger out[i]]
        0 <= i < out.len() ==> {
            let k = paths::key(out[i].0);
            &&& w.pending.contains_key(k)
            &&& settled(w.config, w.pending[k], now)
            &&& out[i] == (w.pending[k].path, w.pending[k].kind)
        }
    &&& forall|k: Seq<int>| #[trigger]
        w.pending.contains_key(k) && settled(w.config, w.pending[k], now) ==> exists|i: int|
            0 <= i < out.len() && paths::key(#[trigger] out[i].0) == k
}

/// Puts a change into a list that is in order.
fn put_in_order(out: &mut Vec<Change>, change: Change)
    requires
        in_order(change_views(old(out)@)),
        forall|i: int|
            #![trigger change_views(old(out)@)[i]]
            0 <= i < old(out)@.len() ==> paths::key(change_views(old(out)@)[i].0) != paths::key(
                change@.0,
            ),
    ensures
        in_order(change_views(final(out)@)),
        exists|k: int|
            0 <= k <= old(out)@.len() && change_views(final(out)@) == #[trigger] change_views(
                old(out)@,
            ).insert(k, change@),
{
    let ghost before = change_views(out@);
    let mut k: usize = out.len();
    while k > 0 && path_before(change.path.as_str(), out[k - 1].path.as_str())
        invariant
            k <= out@.len(),
            *out == *old(out),
            before == change_views(out@),
            forall|i: int|
                #![trigger before[i]]
                k <= i < before.len() ==> paths::path_precedes(change@.0, before[i].0),
        decreases k,
    {
        k -= 1;
        assert(before[k as int] == out@[k as int]@);
    }
    let ghost added = change@;
    if k > 0 {
        assert(before[k - 1] == out@[k - 1]@);
    }
    out.insert(k, change);
    proof {
        let after = before.insert(k as int, added);
        assert(change_views(out@) =~= after);
        if k > 0 {
            paths::path_order(before[k - 1].0, added.0, added.0);
        }
        assert forall|i: int, j: int|
            #![trigger after[i], after[j]]
            0 <= i < j < after.len() implies paths::path_precedes(after[i].0, after[j].0) by {
            let p = if i < k { i } else { i - 1 };
            let q = if j < k { j } else { j - 1 };
            if i != k && j != k {
                assert(after[i] == before[p] && after[j] == before[q]);
            } else if i == k {
                assert(after[j] == before[j - 1]);
            } else {
                assert(after[i] == before[i]);
                if i < k - 1 {
                    assert(paths::path_precedes(before[i].0, before[k - 1].0));
                    paths::path_order(before[i].0, before[k - 1].0, added.0);
                }
            }
        }
    }
}

impl Debouncer {
    /// No path waits twice.
    pub closed spec fn wf(&self) -> bool {
        keyed::distinct(pairs(self.pending@))
    }

    pub fn new(config: DebounceConfig) -> (debouncer: Self)
        ensures
            debouncer.wf(),
            debouncer@ == (Waiting { config, pending: Map::empty(), rescan: false }),
    {
        let debouncer = Debouncer { config, pending: Vec::new(), rescan_requested: false };
        proof {
            keyed::empty_map(pairs(debouncer.pending@));
        }
        debouncer
    }

    /// Where a path waits.
    fn position(&self, path: &str) -> (found: Option<usize>)
        requires
            self.wf(),
        ensures
            match found {
                Some(i) => {
                    &&& i < self.pending@.len()
                    &&& pairs(self.pending@)[i as int].0 == paths::key(path@)
                    &&& self@.pending.contains_key(paths::key(path@))
                    &&& self@.pending[paths::key(path@)] == pairs(self.pending@)[i as int].1
                },
                None => !self@.pending.contains_key(paths::key(path@)),
            },
    {
        let ghost s = pairs(self.pending@);
        let mut i: usize = 0;
        while i < self.pending.len()
            invariant
                i <= self.pending@.len(),
                self.wf(),
                s == pairs(self.pending@),
                forall|j: int| 0 <= j < i ==> (#[trigger] s[j]).0 != paths::key(path@),
            decreases self.pending@.len() - i,
        {
            assert(s[i as int].0 == paths::key(self.pending@[i as int].path@));
            if same_path(self.pending[i].path.as_str(), path) {
                proof {
                    keyed::entry_in_map(s, i as int);
                }
                return Some(i);
            }
            i += 1;
        }
        proof {
            keyed::key_in_map(s, paths::key(path@));
        }
        None
    }

    /// A path waits from now on, or waits on with what is known of it changed.
    fn put(&mut self, path: &str, kind: Option<ChangeKind>, now: u64)
        requires
            old(self).wf(),
        ensures
            final(self).wf(),
            final(self)@ == (Waiting {
                pending: match kind {
                    Some(kind) => observed(old(self)@.pending, path@, kind, now),
                    None => deferred(old(self)@.pending, path@, now),
                },
                ..old(self)@
            }),
    {
        let ghost s = pairs(self.pending@);
        let ghost k = paths::key(path@);
        match self.position(path) {
            Some(i) => {
                let kept: ChangeKind = match kind {
                    Some(kind) => kind,
                    None => self.pending[i].kind,
                };
                let spelled: String = self.pending[i].path.clone();
                let first_event: u64 = self.pending[i].first_event;
                let row: Pending = Pending { path: spelled, kind: kept, first_event, last_event: now };
                let ghost e = (
                    k,
                    Wait { path: row.path@, kind: kept, first_event, last_event: now },
                );
                proof {
                    keyed::replaced(s, i as int, e);
                }
                self.pending.set(i, row);
                assert(pairs(self.pending@) =~= s.update(i as int, e));
            },
            None => {
                let fresh: ChangeKind = match kind {
                    Some(kind) => kind,
                    None => ChangeKind::Upserted,
                };
                let ghost e = (
                    k,
                    Wait { path: path@, kind: fresh, first_event: now, last_event: now },
                );
                proof {
                    keyed::pushed(s, e);
                }
                self.pending.push(
                    Pending {
                        path: path.to_owned(),
                        kind: fresh,
                        first_event: now,
                        last_event: now,
                    },
                );
                assert(pairs(self.pending@) =~= s.push(e));
            },
        }
    }

    /// Record a raw event.
    ///
    /// The most recent event for a path wins: a file created and then deleted
    /// within the quiet period settles as a removal, and one deleted then
    /// recreated, which is how many editors save, settles as an upsert.
    pub fn observe(&mut self, path: &str, kind: ChangeKind, now: u64)
        requires
            old(self).wf(),
        ensures
            final(self).wf(),
            final(self)@ == (Waiting {
                pending: observed(old(self)@.pending, path@, kind, now),
                ..old(self)@
            }),
    {
        self.put(path, Some(kind), now);
    }

    /// Record that the platform dropped events.
    ///
    /// Every backend has a bounded queue, and a large operation can overrun it.
    /// When that happens the event stream is no longer a complete description of
    /// what changed, and the only correct response is a full rescan.
    pub fn observe_overflow(&mut self)
        requires
            old(self).wf(),
        ensures
            final(self).wf(),
            final(self)@ == (Waiting { rescan: true, ..old(self)@ }),
    {
        self.rescan_requested = true;
    }

    /// Whether a full rescan is owed, clearing the flag.
    pub fn take_rescan(&mut self) -> (owed: bool)
        requires
            old(self).wf(),
        ensures
            final(self).wf(),
            owed == old(self)@.rescan,
            final(self)@ == (Waiting { rescan: false, ..old(self)@ }),
    {
        let owed: bool = self.rescan_requested;
        self.rescan_requested = false;
        owed
    }

    /// Remove and return every path that has settled.
    pub fn drain_settled(&mut self, now: u64) -> (out: Vec<Change>)
        requires
            old(self).wf(),
        ensures
            final(self).wf(),
            final(self)@ == (Waiting { pending: unsettled(old(self)@, now), ..old(self)@ }),
            are_settled(old(self)@, now, change_views(out@)),
    {
        let ghost w = self@;
        let ghost old_pending = w.pending;
        let config: DebounceConfig = self.config;
        let mut out: Vec<Change> = Vec::new();
        let mut i: usize = 0;
        while i < self.pending.len()
            invariant
                i <= self.pending@.len(),
                self.wf(),
                w == old(self)@,
                old_pending == w.pending,
                config == w.config,
                self@ == (Waiting { pending: self@.pending, ..w }),
                in_order(change_views(out@)),
                forall|j: int|
                    #![trigger pairs(self.pending@)[j]]
                    0 <= j < i ==> !settled(config, pairs(self.pending@)[j].1, now),
                forall|k: Seq<int>| #[trigger]
                    self@.pending.contains_key(k) ==> old_pending.contains_key(k)
                        && self@.pending[k] == old_pending[k],
                forall|j: int|
                    #![trigger change_views(out@)[j]]
                    0 <= j < out@.len() ==> {
                        let k = paths::key(change_views(out@)[j].0);
                        &&& old_pending.contains_key(k)
                        &&& settled(config, old_pending[k], now)
                        &&& change_views(out@)[j] == (old_pending[k].path, old_pending[k].kind)
                        &&& !self@.pending.contains_key(k)
                    },
                forall|k: Seq<int>| #[trigger]
                    old_pending.contains_key(k) ==> self@.pending.contains_key(k) || exists|j: int|
                        0 <= j < out@.len() && paths::key(#[trigger] change_views(out@)[j].0) == k,
            decreases self.pending@.len() - i,
        {
            let ghost s = pairs(self.pending@);
            let ghost here = self@.pending;
            let last_event: u64 = self.pending[i].last_event;
            let first_event: u64 = self.pending[i].first_event;
            let quiet_for: u64 = if now >= last_event {
                now - last_event
            } else {
                0
            };
            let held_for: u64 = if now >= first_event {
                now - first_event
            } else {
                0
            };
            proof {
                keyed::entry_in_map(s, i as int);
            }
            if quiet_for >= config.quiet || held_for >= config.max_hold {
                let ghost k = s[i as int].0;
                let ghost before = change_views(out@);
                let row: Pending = self.pending.remove(i);
                let change: Change = Change { path: row.path, kind: row.kind };
                let ghost added = change@;
                proof {
                    assert(pairs(self.pending@) =~= s.remove(i as int));
                    keyed::removed(s, i as int);
                    assert(self@.pending == here.remove(k));
                }
                put_in_order(&mut out, change);
                proof {
                    let at = choose|at: int|
                        0 <= at <= before.len() && change_views(out@) == #[trigger] before.insert(
                            at,
                            added,
                        );
                    let after = change_views(out@);
                    assert(after.len() == out@.len() && before.len() + 1 == after.len());
                    assert forall|j: int| #![trigger after[j]] 0 <= j < out@.len() implies {
                        let k = paths::key(after[j].0);
                        &&& old_pending.contains_key(k)
                        &&& settled(config, old_pending[k], now)
                        &&& after[j] == (old_pending[k].path, old_pending[k].kind)
                        &&& !self@.pending.contains_key(k)
                    } by {
                        if j < at {
                            assert(after[j] == before[j]);
                        } else if j > at {
                            assert(after[j] == before[j - 1]);
                        }
                    }
                    assert forall|g: Seq<int>| #[trigger]
                        old_pending.contains_key(g) implies self@.pending.contains_key(g)
                        || exists|j: int|
                        0 <= j < out@.len() && paths::key(#[trigger] after[j].0) == g by {
                        if g == k {
                            assert(paths::key(after[at].0) == g);
                        } else if !here.contains_key(g) {
                            let j = choose|j: int|
                                0 <= j < before.len() && paths::key(#[trigger] before[j].0) == g;
                            let l = if j < at { j } else { j + 1 };
                            assert(after[l] == before[j]);
                        }
                    }
                }
            } else {
                i += 1;
            }
        }
        proof {
            let s = pairs(self.pending@);
            let all = change_views(out@);
            assert forall|k: Seq<int>| #[trigger] self@.pending.contains_key(k) implies !settled(
                config,
                old_pending[k],
                now,
            ) by {
                keyed::key_in_map(s, k);
                let j = keyed::position(s, k);
                keyed::entry_in_map(s, j);
            }
            assert(self@.pending =~= unsettled(w, now));
            assert forall|k: Seq<int>| #[trigger]
                w.pending.contains_key(k) && settled(w.config, w.pending[k], now) implies exists|
                i: int,
            |
                0 <= i < all.len() && paths::key(#[trigger] all[i].0) == k by {
                assert(!self@.pending.contains_key(k));
            }
        }
        out
    }

    /// Push a path's quiet period back, because it turned out not to be finished
    /// after all.
    ///
    /// For a file whose size or modification time changed between the last event
    /// and the moment it was about to be released: a write whose event has not
    /// arrived yet. Chunking a file mid-write would store a torn copy.
    pub fn defer(&mut self, path: &str, now: u64)
        requires
            old(self).wf(),
        ensures
            final(self).wf(),
            final(self)@ == (Waiting {
                pending: deferred(old(self)@.pending, path@, now),
                ..old(self)@
            }),
    {
        self.put(path, None, now);
    }

    /// When the next path becomes eligible, if any are waiting.
    ///
    /// Lets the caller sleep until there is something to do instead of polling.
    pub fn next_deadline(&self) -> (soonest: Option<u64>)
        requires
            self.wf(),
            forall|k: Seq<int>| #[trigger]
                self@.pending.contains_key(k) ==> self@.pending[k].last_event
                    + self@.config.quiet <= u64::MAX && self@.pending[k].first_event
                    + self@.config.max_hold <= u64::MAX,
        ensures
            is_next_deadline(self@, soonest),
    {
        let ghost s = pairs(self.pending@);
        let mut soonest: Option<u64> = None;
        let mut i: usize = 0;
        while i < self.pending.len()
            invariant
                i <= self.pending@.len(),
                self.wf(),
                s == pairs(self.pending@),
                forall|k: Seq<int>| #[trigger]
                    self@.pending.contains_key(k) ==> self@.pending[k].last_event
                        + self@.config.quiet <= u64::MAX && self@.pending[k].first_event
                        + self@.config.max_hold <= u64::MAX,
                match soonest {
                    None => i == 0,
                    Some(t) => {
                        &&& exists|k: Seq<int>| #[trigger]
                            self@.pending.contains_key(k) && deadline(
                                self@.config,
                                self@.pending[k],
                            ) == t
                        &&& forall|j: int|
                            #![trigger s[j]]
                            0 <= j < i ==> deadline(self@.config, s[j].1) >= t
                    },
                },
            decreases self.pending@.len() - i,
        {
            proof {
                keyed::entry_in_map(s, i as int);
                assert(self@.pending.contains_key(s[i as int].0));
            }
            let by_quiet: u64 = self.pending[i].last_event + self.config.quiet;
            let by_hold: u64 = self.pending[i].first_event + self.config.max_hold;
            let due: u64 = if by_quiet <= by_hold {
                by_quiet
            } else {
                by_hold
            };
            soonest = match soonest {
                Some(t) => if t <= due {
                    Some(t)
                } else {
                    Some(due)
                },
                None => Some(due),
            };
            i += 1;
        }
        proof {
            assert forall|k: Seq<int>| #[trigger] self@.pending.contains_key(k) implies i > 0
                && deadline(self@.config, self@.pending[k]) >= soonest->0 by {
                keyed::key_in_map(s, k);
                let j = keyed::position(s, k);
                keyed::entry_in_map(s, j);
                assert(s[j].0 == k);
            }
            if soonest is None {
                assert(self@.pending =~= Map::<Seq<int>, Wait>::empty());
            }
        }
        soonest
    }

    pub fn pending_count(&self) -> (n: usize)
        requires
            self.wf(),
        ensures
            n == self@.pending.dom().len(),
            n == 0 <==> self@.pending == Map::<Seq<int>, Wait>::empty(),
    {
        proof {
            keyed::map_size(pairs(self.pending@));
            if self.pending@.len() == 0 {
                keyed::empty_map(pairs(self.pending@));
            } else {
                keyed::entry_in_map(pairs(self.pending@), 0);
            }
        }
        self.pending.len()
    }
}

/// A path settles at its deadline and not before.
pub proof fn law_a_path_settles_at_its_deadline(config: DebounceConfig, w: Wait, now: u64)
    requires
        config.quiet > 0,
        config.max_hold > 0,
    ensures
        settled(config, w, now) <==> now >= deadline(config, w),
{
}

/// There is a next deadline exactly where something waits, and paths are
/// released exactly from that moment on.
pub proof fn law_a_drain_finds_something_from_the_next_deadline_on(
    w: Waiting,
    soonest: Option<u64>,
    now: u64,
    out: Seq<(Seq<char>, ChangeKind)>,
)
    requires
        w.config.quiet > 0,
        w.config.max_hold > 0,
        is_next_deadline(w, soonest),
        are_settled(w, now, out),
    ensures
        soonest is None <==> w.pending == Map::<Seq<int>, Wait>::empty(),
        soonest is None ==> out.len() == 0,
        soonest matches Some(t) ==> (out.len() > 0 <==> now >= t),
{
    if out.len() > 0 {
        assert(out[0] == out[0]);
        assert(w.pending.contains_key(paths::key(out[0].0)));
    }
    if let Some(t) = soonest {
        let k = choose|k: Seq<int>| #[trigger]
            w.pending.contains_key(k) && deadline(w.config, w.pending[k]) == t;
        if now >= t {
            assert(settled(w.config, w.pending[k], now));
        }
    }
}

/// However often a path is touched, it is released once the maximum hold has
/// passed since its first event.
pub proof fn law_a_busy_path_is_released_in_the_end(
    config: DebounceConfig,
    pending: Map<Seq<int>, Wait>,
    path: Seq<char>,
    kind: ChangeKind,
    at: u64,
    now: u64,
)
    requires
        pending.contains_key(paths::key(path)),
        now - pending[paths::key(path)].first_event >= config.max_hold,
    ensures
        settled(config, observed(pending, path, kind, at)[paths::key(path)], now),
        settled(config, deferred(pending, path, at)[paths::key(path)], now),
{
}

/// Each event starts the quiet period anew: until it has passed, or the maximum
/// hold has, the path is not released.
pub proof fn law_a_touched_path_stays_quiet_first(
    config: DebounceConfig,
    pending: Map<Seq<int>, Wait>,
    path: Seq<char>,
    kind: ChangeKind,
    at: u64,
    now: u64,
)
    requires
        since(now, at) < config.quiet,
        since(now, at) < config.max_hold,
        pending.contains_key(paths::key(path)) ==> since(
            now,
            pending[paths::key(path)].first_event,
        ) < config.max_hold,
    ensures
        !settled(config, observed(pending, path, kind, at)[paths::key(path)], now),
{
}

/// The last event decides what a path is released as, and other paths are left
/// as they are.
pub proof fn law_the_last_event_decides(
    pending: Map<Seq<int>, Wait>,
    path: Seq<char>,
    first: ChangeKind,
    last: ChangeKind,
    at: u64,
    then: u64,
    other: Seq<int>,
)
    requires
        other != paths::key(path),
    ensures
        ({
            let after = observed(observed(pending, path, first, at), path, last, then);
            &&& after[paths::key(path)].kind == last
            &&& after[paths::key(path)].last_event == then
            &&& after.contains_key(other) == pending.contains_key(other)
            &&& pending.contains_key(other) ==> after[other] == pending[other]
        }),
{
}

} // verus!
