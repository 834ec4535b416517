//! From raw events to settled changes.
//!
//! Between the events and the release of a path the file is looked at twice:
//! when an event touches it and when it is about to be released. Only one that
//! looks the same both times is taken to be finished.

use vstd::prelude::*;

use super::debounce;
use super::debounce::{Change, ChangeKind, DebounceConfig, Debouncer, Waiting};
use super::ignore;
use super::ignore::{IgnoreRules, Rules};
use super::paths;
use super::paths::same_path;
use super::reports;
use crate::keyed;

verus! {

/// What the watcher reports.
#[derive(Debug, Clone, PartialEq, Eq)]
pub enum Event {
    /// Paths that have settled. Absolute.
    ///
    /// A `Removed` path may name a file or a directory that no longer exists, and
    /// there is no way to tell which after the fact. The caller must treat
    /// removal as covering everything it knows about beneath that path.
    Changes(Vec<Change>),
    /// Events were dropped and the stream is no longer complete. The caller must
    /// run a full scan and reconcile.
    RescanRequired,
}

/// Size and modification time, used to tell "finished writing" from "paused".
#[derive(Debug, Clone, Copy, PartialEq, Eq, Structural)]
pub struct Snapshot {
    pub size: u64,
    pub mtime_ns: i64,
}

/// What kind of thing a platform event tells of.
#[derive(Debug, Clone, Copy, PartialEq, Eq, Structural)]
pub enum RawKind {
    Remove,
    /// A rename away from the path.
    RenameFrom,
    /// A rename from the first path to the second.
    RenameBoth,
    Access,
    /// Creates, writes, metadata changes, a rename to the path, and anything the
    /// backend could not classify.
    Other,
}

/// What the platform reports.
#[derive(Debug)]
pub enum RawEvent {
    Notify { kind: RawKind, paths: Vec<String> },
    Overflow,
}

pub open spec fn texts(s: Seq<String>) -> Seq<Seq<char>> {
    Seq::new(s.len(), |i: int| s[i]@)
}

/// The changes that a platform event implies. A rename carries both paths, and
/// produces two changes: the old path is gone and the new one has appeared.
pub open spec fn classified(kind: RawKind, list: Seq<Seq<char>>) -> Seq<(Seq<char>, ChangeKind)> {
    match kind {
        RawKind::Remove => list.map_values(|p: Seq<char>| (p, ChangeKind::Removed)),
        RawKind::RenameFrom => list.map_values(|p: Seq<char>| (p, ChangeKind::Removed)),
        RawKind::RenameBoth => if list.len() == 0 {
            Seq::empty()
        } else if list.len() == 1 {
            seq![(list[0], ChangeKind::Removed)]
        } else {
            seq![(list[0], ChangeKind::Removed), (list[1], ChangeKind::Upserted)]
        },
        RawKind::Access => Seq::empty(),
        RawKind::Other => list.map_values(|p: Seq<char>| (p, ChangeKind::Upserted)),
    }
}

fn all_as(list: &Vec<String>, kind: ChangeKind) -> (out: Vec<Change>)
    ensures
        debounce::change_views(out@) == texts(list@).map_values(|p: Seq<char>| (p, kind)),
{
    let mut out: Vec<Change> = Vec::new();
    let mut i: usize = 0;
    while i < list.len()
        invariant
            i <= list@.len(),
            out@.len() == i,
            forall|j: int| #![trigger out@[j]] 0 <= j < i ==> out@[j]@ == (list@[j]@, kind),
        decreases list@.len() - i,
    {
        out.push(Change { path: list[i].clone(), kind });
        i += 1;
    }
    assert(debounce::change_views(out@) =~= texts(list@).map_values(|p: Seq<char>| (p, kind)));
    out
}

/// Map a platform event onto the changes it implies.
pub fn classify(kind: RawKind, list: &Vec<String>) -> (out: Vec<Change>)
    ensures
        debounce::change_views(out@) == classified(kind, texts(list@)),
{
    match kind {
        RawKind::Remove => all_as(list, ChangeKind::Removed),
        RawKind::RenameFrom => all_as(list, ChangeKind::Removed),
        RawKind::RenameBoth => {
            let mut out: Vec<Change> = Vec::new();
            if list.len() > 0 {
                out.push(Change::removed(list[0].as_str()));
            }
            if list.len() > 1 {
                out.push(Change::upserted(list[1].as_str()));
            }
            assert(debounce::change_views(out@) =~= classified(kind, texts(list@)));
            out
        },
        // Reads change nothing worth syncing.
        RawKind::Access => {
            let out: Vec<Change> = Vec::new();
            assert(debounce::change_views(out@) =~= classified(kind, texts(list@)));
            out
        },
        // Treating an unknown event as a possible write costs one look; ignoring
        // it would lose data.
        RawKind::Other => all_as(list, ChangeKind::Upserted),
    }
}

/// What stands at a path that is about to be released.
#[derive(Debug)]
pub enum Found {
    /// Nothing: gone between the event and now.
    Gone,
    /// A directory, with the files in it; none where it could not be walked.
    Directory(Option<Vec<(String, Option<Snapshot>)>>),
    File(Snapshot),
}

/// What stands at a path, as values.
pub enum Standing {
    Gone,
    Directory { files: Option<Seq<(Seq<char>, Option<Snapshot>)>> },
    File { looks: Snapshot },
}

impl View for Found {
    type V = Standing;

    open spec fn view(&self) -> Standing {
        match *self {
            Found::Gone => Standing::Gone,
            Found::Directory(None) => Standing::Directory { files: None },
            Found::Directory(Some(list)) => Standing::Directory {
                files: Some(Seq::new(list@.len(), |i: int| (list@[i].0@, list@[i].1))),
            },
            Found::File(looks) => Standing::File { looks },
        }
    }
}

#[derive(Debug)]
struct Sighting {
    path: String,
    looks: Snapshot,
}

/// Collects events until their paths have settled.
pub struct Settler {
    pub debouncer: Debouncer,
    seen: Vec<Sighting>,
}

/// What is waiting, and how each path looked when it was last looked at.
pub struct Watching {
    pub waiting: Waiting,
    pub seen: Map<Seq<int>, Snapshot>,
}

spec fn pairs(s: Seq<Sighting>) -> Seq<(Seq<int>, Snapshot)> {
    Seq::new(s.len(), |i: int| (paths::key(s[i].path@), s[i].looks))
}

impl View for Settler {
    type V = Watching;

    closed spec fn view(&self) -> Watching {
        Watching { waiting: self.debouncer@, seen: keyed::to_map(pairs(self.seen@)) }
    }
}

/// What is known after one change that an event implies.
pub open spec fn heard_one(
    w: Watching,
    change: (Seq<char>, ChangeKind),
    looks: Option<Snapshot>,
    rules: Rules,
    now: u64,
) -> Watching {
    if ignore::ignored(rules, change.0) {
        w
    } else {
        Watching {
            seen: if change.1 == ChangeKind::Upserted && looks is Some {
                w.seen.insert(paths::key(change.0), looks->0)
            } else {
                w.seen
            },
            waiting: Waiting {
                pending: debounce::observed(w.waiting.pending, change.0, change.1, now),
                ..w.waiting
            },
        }
    }
}

/// What is known after the first `n` changes that an event implies.
pub open spec fn heard(
    w: Watching,
    changes: Seq<(Seq<char>, ChangeKind)>,
    looks: Seq<Option<Snapshot>>,
    rules: Rules,
    now: u64,
    n: int,
) -> Watching
    decreases n,
{
    if n <= 0 {
        w
    } else {
        heard_one(
            heard(w, changes, looks, rules, now, n - 1),
            changes[n - 1],
            looks[n - 1],
            rules,
            now,
        )
    }
}

/// What is known once an event was taken in.
pub open spec fn handled(
    w: Watching,
    event: RawEvent,
    looks: Seq<Option<Snapshot>>,
    rules: Rules,
    now: u64,
) -> Watching {
    match event {
        RawEvent::Overflow => Watching { waiting: Waiting { rescan: true, ..w.waiting }, ..w },
        RawEvent::Notify { kind, paths } => {
            let changes = classified(kind, texts(paths@));
            heard(w, changes, looks, rules, now, changes.len() as int)
        },
    }
}

/// What is known once the paths that have settled were handed out.
pub open spec fn drained(w: Watching, now: u64) -> Watching {
    Watching {
        waiting: Waiting { pending: debounce::unsettled(w.waiting, now), ..w.waiting },
        ..w
    }
}

/// What is known once the first `n` files of a new directory were taken up.
/// Anything written into a new directory before it was watched produced no event
/// at all.
pub open spec fn walked(
    w: Watching,
    files: Seq<(Seq<char>, Option<Snapshot>)>,
    now: u64,
    n: int,
) -> Watching
    decreases n,
{
    if n <= 0 {
        w
    } else {
        let before = walked(w, files, now, n - 1);
        let (path, looks) = files[n - 1];
        Watching {
            seen: match looks {
                Some(s) => before.seen.insert(paths::key(path), s),
                None => before.seen,
            },
            waiting: Waiting {
                pending: debounce::observed(
                    before.waiting.pending,
                    path,
                    ChangeKind::Upserted,
                    now,
                ),
                ..before.waiting
            },
        }
    }
}

/// What is known once a path that has settled was looked at again.
pub open spec fn looked_at(
    w: Watching,
    change: (Seq<char>, ChangeKind),
    found: Standing,
    now: u64,
) -> Watching {
    let k = paths::key(change.0);
    let forgotten = Watching { seen: w.seen.remove(k), ..w };
    if change.1 == ChangeKind::Removed {
        forgotten
    } else {
        match found {
            Standing::Gone => forgotten,
            Standing::Directory { files: None } => Watching {
                waiting: Waiting { rescan: true, ..w.waiting },
                ..forgotten
            },
            Standing::Directory { files: Some(files) } => walked(
                forgotten,
                files,
                now,
                files.len() as int,
            ),
            Standing::File { looks } => if w.seen.contains_key(k) && w.seen[k] == looks {
                forgotten
            } else {
                Watching {
                    seen: w.seen.insert(k, looks),
                    waiting: Waiting {
                        pending: debounce::deferred(w.waiting.pending, change.0, now),
                        ..w.waiting
                    },
                }
            },
        }
    }
}

/// What is reported of a path that has settled.
pub open spec fn reported(w: Watching, change: (Seq<char>, ChangeKind), found: Standing) -> Option<
    (Seq<char>, ChangeKind),
> {
    let k = paths::key(change.0);
    if change.1 == ChangeKind::Removed {
        Some(change)
    } else {
        match found {
            Standing::Gone => Some((change.0, ChangeKind::Removed)),
            Standing::Directory { .. } => None,
            Standing::File { looks } => if w.seen.contains_key(k) && w.seen[k] == looks {
                Some(change)
            } else {
                None
            },
        }
    }
}

impl Settler {
    /// No path waits twice, and of none two looks are kept.
    pub closed spec fn wf(&self) -> bool {
        self.debouncer.wf() && keyed::distinct(pairs(self.seen@))
    }

    pub fn new(config: DebounceConfig) -> (settler: Self)
        ensures
            settler.wf(),
            settler@ == (Watching {
                waiting: Waiting { config, pending: Map::empty(), rescan: false },
                seen: Map::empty(),
            }),
    {
        let settler = Settler { debouncer: Debouncer::new(config), seen: Vec::new() };
        proof {
            keyed::empty_map(pairs(settler.seen@));
        }
        settler
    }

    /// Where a look is kept.
    fn sighting(&self, path: &str) -> (found: Option<usize>)
        requires
            self.wf(),
        ensures
            match found {
                Some(i) => {
                    &&& i < self.seen@.len()
                    &&& pairs(self.seen@)[i as int].0 == paths::key(path@)
                    &&& self@.seen.contains_key(paths::key(path@))
                    &&& self@.seen[paths::key(path@)] == self.seen@[i as int].looks
                },
                None => !self@.seen.contains_key(paths::key(path@)),
            },
    {
        let ghost s = pairs(self.seen@);
        let mut i: usize = 0;
        while i < self.seen.len()
            invariant
                i <= self.seen@.len(),
                self.wf(),
                s == pairs(self.seen@),
                forall|j: int| 0 <= j < i ==> (#[trigger] s[j]).0 != paths::key(path@),
            decreases self.seen@.len() - i,
        {
            assert(s[i as int].0 == paths::key(self.seen@[i as int].path@));
            if same_path(self.seen[i].path.as_str(), path) {
                proof {
                    keyed::entry_in_map(s, i as int);
                }
                return Some(i);
            }
            i += 1;
        }
        proof {
            keyed::key_in_map(s, paths::key(path@));
        }
        None
    }

    fn remember(&mut self, path: &str, looks: Snapshot)
        requires
            old(self).wf(),
        ensures
            final(self).wf(),
            final(self)@ == (Watching {
                seen: old(self)@.seen.insert(paths::key(path@), looks),
                ..old(self)@
            }),
    {
        let ghost s = pairs(self.seen@);
        let ghost e = (paths::key(path@), looks);
        match self.sighting(path) {
            Some(i) => {
                proof {
                    keyed::replaced(s, i as int, e);
                }
                self.seen.set(i, Sighting { path: path.to_owned(), looks });
                assert(pairs(self.seen@) =~= s.update(i as int, e));
            },
            None => {
                proof {
                    keyed::pushed(s, e);
                }
                self.seen.push(Sighting { path: path.to_owned(), looks });
                assert(pairs(self.seen@) =~= s.push(e));
            },
        }
    }

    fn forget(&mut self, path: &str)
        requires
            old(self).wf(),
        ensures
            final(self).wf(),
            final(self)@ == (Watching {
                seen: old(self)@.seen.remove(paths::key(path@)),
                ..old(self)@
            }),
    {
        let ghost s = pairs(self.seen@);
        match self.sighting(path) {
            Some(i) => {
                proof {
                    keyed::removed(s, i as int);
                }
                self.seen.remove(i);
                assert(pairs(self.seen@) =~= s.remove(i as int));
            },
            None => {
                assert(self@.seen.remove(paths::key(path@)) =~= self@.seen);
            },
        }
    }

    /// Take in what the platform reports. `looks` says how the file at each path
    /// of the event looks now, where there is one.
    pub fn handle(
        &mut self,
        event: &RawEvent,
        looks: &Vec<Option<Snapshot>>,
        rules: &IgnoreRules,
        now: u64,
    )
        requires
            old(self).wf(),
            event matches RawEvent::Notify { paths, .. } ==> looks@.len() == paths@.len(),
        ensures
            final(self).wf(),
            final(self)@ == handled(old(self)@, *event, looks@, rules@, now),
            event matches RawEvent::Notify { kind, paths } ==> forall|i: int|
                #![trigger paths@[i]]
                0 <= i < paths@.len() && !ignore::ignored(rules@, paths@[i]@) ==> {
                    &&& kind is Remove || kind is RenameFrom ==> reports::waits(
                        final(self)@,
                        paths@[i]@,
                        ChangeKind::Removed,
                        now,
                    )
                    &&& kind is Other || (kind is RenameBoth && i == 1) ==> reports::waits(
                        final(self)@,
                        paths@[i]@,
                        ChangeKind::Upserted,
                        now,
                    )
                },
    {
        match event {
            RawEvent::Overflow => {
                self.debouncer.observe_overflow();
            },
            RawEvent::Notify { kind, paths: list } => {
                let changes: Vec<Change> = classify(*kind, list);
                let ghost all = debounce::change_views(changes@);
                assert(all.len() == changes@.len());
                assert(all.len() <= looks@.len());
                let mut i: usize = 0;
                while i < changes.len()
                    invariant
                        i <= changes@.len() <= looks@.len(),
                        all == debounce::change_views(changes@),
                        self.wf(),
                        self@ == heard(old(self)@, all, looks@, rules@, now, i as int),
                    decreases changes@.len() - i,
                {
                    assert(all[i as int] == changes@[i as int]@);
                    self.hear(&changes[i], looks[i], rules, now);
                    i += 1;
                }
                proof {
                    let all_paths = texts(list@);
                    assert forall|n: int|
                        #![trigger list@[n]]
                        0 <= n < list@.len() && !ignore::ignored(rules@, list@[n]@) implies {
                        &&& *kind is Remove || *kind is RenameFrom ==> reports::waits(
                            self@,
                            list@[n]@,
                            ChangeKind::Removed,
                            now,
                        )
                        &&& *kind is Other || (*kind is RenameBoth && n == 1) ==> reports::waits(
                            self@,
                            list@[n]@,
                            ChangeKind::Upserted,
                            now,
                        )
                    } by {
                        assert(all_paths[n] == list@[n]@);
                        reports::law_an_event_is_heard_for_what_it_is(
                            old(self)@,
                            *kind,
                            all_paths,
                            looks@,
                            rules@,
                            now,
                            n,
                        );
                    }
                }
            },
        }
    }

    fn hear(&mut self, change: &Change, looks: Option<Snapshot>, rules: &IgnoreRules, now: u64)
        requires
            old(self).wf(),
        ensures
            final(self).wf(),
            final(self)@ == heard_one(old(self)@, change@, looks, rules@, now),
    {
        if rules.is_ignored(change.path.as_str()) {
            return;
        }
        if let ChangeKind::Upserted = change.kind {
            // What the file looks like now, so that the check at release time
            // has something to compare against.
            if let Some(s) = looks {
                self.remember(change.path.as_str(), s);
            }
        }
        self.debouncer.observe(change.path.as_str(), change.kind, now);
    }

    /// Decide what becomes of a path that has settled, given what stands there
    /// now.
    ///
    /// A file that looks different from when it was last looked at has a write in
    /// flight whose event has not arrived: reading it now could store a
    /// half-written copy, so it waits on. A directory is not reported: the files
    /// in it are taken up instead, with a quiet period of their own.
    pub fn release(&mut self, change: Change, found: &Found, now: u64) -> (report: Option<Change>)
        requires
            old(self).wf(),
        ensures
            final(self).wf(),
            final(self)@ == looked_at(old(self)@, change@, found@, now),
            reported(old(self)@, change@, found@) == (match report {
                Some(c) => Some(c@),
                None => None,
            }),
    {
        if let ChangeKind::Removed = change.kind {
            self.forget(change.path.as_str());
            return Some(change);
        }
        match found {
            Found::Gone => {
                self.forget(change.path.as_str());
                Some(Change::removed(change.path.as_str()))
            },
            Found::Directory(files) => {
                self.forget(change.path.as_str());
                match files {
                    Some(list) => {
                        self.take_up(list, now);
                    },
                    None => {
                        // What is inside cannot be known. A rescan is the honest
                        // response.
                        self.debouncer.observe_overflow();
                    },
                }
                None
            },
            Found::File(looks) => {
                let same: bool = match self.sighting(change.path.as_str()) {
                    Some(i) => self.seen[i].looks == *looks,
                    None => false,
                };
                if same {
                    self.forget(change.path.as_str());
                    Some(change)
                } else {
                    self.remember(change.path.as_str(), *looks);
                    self.debouncer.defer(change.path.as_str(), now);
                    None
                }
            },
        }
    }

    fn take_up(&mut self, list: &Vec<(String, Option<Snapshot>)>, now: u64)
        requires
            old(self).wf(),
        ensures
            final(self).wf(),
            ({
                let files = Seq::new(list@.len(), |i: int| (list@[i].0@, list@[i].1));
                final(self)@ == walked(old(self)@, files, now, files.len() as int)
            }),
    {
        let ghost files = Seq::new(list@.len(), |i: int| (list@[i].0@, list@[i].1));
        let mut i: usize = 0;
        while i < list.len()
            invariant
                i <= list@.len(),
                files == Seq::new(list@.len(), |i: int| (list@[i].0@, list@[i].1)),
                self.wf(),
                self@ == walked(old(self)@, files, now, i as int),
            decreases list@.len() - i,
        {
            assert(files[i as int] == (list@[i as int].0@, list@[i as int].1));
            if let Some(s) = list[i].1 {
                self.remember(list[i].0.as_str(), s);
            }
            self.debouncer.observe(list[i].0.as_str(), ChangeKind::Upserted, now);
            i += 1;
        }
    }

    /// Remove and return every path that has settled.
    pub fn due(&mut self, now: u64) -> (out: Vec<Change>)
        requires
            old(self).wf(),
        ensures
            final(self).wf(),
            final(self)@ == drained(old(self)@, now),
            debounce::are_settled(
                old(self)@.waiting,
                now,
                debounce::change_views(out@),
            ),
    {
        self.debouncer.drain_settled(now)
    }

    /// Whether a full rescan is owed, clearing the flag.
    pub fn take_rescan(&mut self) -> (owed: bool)
        requires
            old(self).wf(),
        ensures
            final(self).wf(),
            owed == old(self)@.waiting.rescan,
            final(self)@ == (Watching {
                waiting: Waiting { rescan: false, ..old(self)@.waiting },
                ..old(self)@
            }),
    {
        self.debouncer.take_rescan()
    }
}

/// The event that reports settled changes, if there are any.
pub fn batch(settled: Vec<Change>) -> (event: Option<Event>)
    ensures
        event == if settled@.len() == 0 {
            None
        } else {
            Some(Event::Changes(settled))
        },
{
    if settled.len() == 0 {
        None
    } else {
        Some(Event::Changes(settled))
    }
}

/// A file is reported as written only if it looks now as it did when it was last
/// looked at.
pub proof fn law_nothing_is_reported_mid_write(
    w: Watching,
    path: Seq<char>,
    found: Standing,
)
    requires
        reported(w, (path, ChangeKind::Upserted), found) == Some((path, ChangeKind::Upserted)),
    ensures
        found is File,
        w.seen.contains_key(paths::key(path)),
        w.seen[paths::key(path)] == found->looks,
{
}

/// A file that changed since it was last looked at is not reported, and waits on:
/// no change is lost.
pub proof fn law_a_file_in_flight_waits_on(
    w: Watching,
    path: Seq<char>,
    looks: Snapshot,
    now: u64,
)
    requires
        !(w.seen.contains_key(paths::key(path)) && w.seen[paths::key(path)] == looks),
    ensures
        ({
            let change = (path, ChangeKind::Upserted);
            let found = Standing::File { looks };
            &&& reported(w, change, found) is None
            &&& looked_at(w, change, found, now).waiting.pending.contains_key(paths::key(path))
            &&& looked_at(w, change, found, now).seen[paths::key(path)] == looks
        }),
{
}

/// Every file in a new directory waits from then on.
pub proof fn law_a_new_directory_is_taken_up_whole(
    w: Watching,
    files: Seq<(Seq<char>, Option<Snapshot>)>,
    now: u64,
    n: int,
    i: int,
)
    requires
        0 <= i < n <= files.len(),
    ensures
        walked(w, files, now, n).waiting.pending.contains_key(paths::key(files[i].0)),
    decreases n,
{
    if i < n - 1 {
        law_a_new_directory_is_taken_up_whole(w, files, now, n - 1, i);
    }
}

/// What is ignored leaves no trace.
pub proof fn law_what_is_ignored_is_not_watched(
    w: Watching,
    change: (Seq<char>, ChangeKind),
    looks: Option<Snapshot>,
    rules: Rules,
    now: u64,
)
    requires
        ignore::ignored(rules, change.0),
    ensures
        heard_one(w, change, looks, rules, now) == w,
{
}

} // verus!
