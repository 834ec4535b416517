//! What happened, and whether it can still be answered tomorrow.
//!
//! "Why is my file not here?" is a question about the past, and a log that ended
//! at the last restart cannot answer it.

use vstd::prelude::*;

use super::db;
use super::db::{Db, Index};
use crate::sync::device::DeviceId;
use crate::text::same_text;

verus! {

/// What kind of thing happened.
///
/// Known by a word, so that a history read by hand reads as sentences. An
/// unknown word from a newer build is kept rather than dropped, because losing
/// history to a downgrade is worse than showing one unfamiliar word.
#[derive(Debug, Clone, PartialEq, Eq)]
pub enum Event {
    /// A file changed here and was stored.
    Stored,
    /// A path was deleted here.
    Deleted,
    /// A version arrived from another device.
    Received,
    /// A file was put in another device's vault.
    Sent,
    /// That device collected it.
    Collected,
    /// A local copy was dropped to stay under the storage limit.
    Evicted,
    /// A dropped file's contents came back.
    Restored,
    /// Two concurrent edits; both kept.
    Conflicted,
    /// A device was paired with.
    Paired,
    /// Something went wrong that a person may need to know about.
    Failed,
    /// Written by a build that knew a kind this one does not.
    Other(String),
}

impl View for Event {
    type V = Seq<char>;

    /// The word.
    open spec fn view(&self) -> Seq<char> {
        match *self {
            Event::Stored => "stored"@,
            Event::Deleted => "deleted"@,
            Event::Received => "received"@,
            Event::Sent => "sent"@,
            Event::Collected => "collected"@,
            Event::Evicted => "evicted"@,
            Event::Restored => "restored"@,
            Event::Conflicted => "conflicted"@,
            Event::Paired => "paired"@,
            Event::Failed => "failed"@,
            Event::Other(word) => word@,
        }
    }
}

/// Whether a word is one that this build knows.
pub open spec fn familiar(word: Seq<char>) -> bool {
    word == "stored"@ || word == "deleted"@ || word == "received"@ || word == "sent"@ || word
        == "collected"@ || word == "evicted"@ || word == "restored"@ || word == "conflicted"@
        || word == "paired"@ || word == "failed"@
}

impl Event {
    pub fn as_str(&self) -> (word: &str)
        ensures
            word@ == self@,
    {
        match self {
            Event::Stored => "stored",
            Event::Deleted => "deleted",
            Event::Received => "received",
            Event::Sent => "sent",
            Event::Collected => "collected",
            Event::Evicted => "evicted",
            Event::Restored => "restored",
            Event::Conflicted => "conflicted",
            Event::Paired => "paired",
            Event::Failed => "failed",
            Event::Other(word) => word.as_str(),
        }
    }

    /// The word, as an owned text.
    pub fn to_string(&self) -> (word: String)
        ensures
            word@ == self@,
    {
        self.as_str().to_owned()
    }

    /// What a word means.
    pub fn parse(word: &str) -> (event: Self)
        ensures
            event@ == word@,
            event is Other <==> !familiar(word@),
    {
        if same_text(word, "stored") {
            Event::Stored
        } else if same_text(word, "deleted") {
            Event::Deleted
        } else if same_text(word, "received") {
            Event::Received
        } else if same_text(word, "sent") {
            Event::Sent
        } else if same_text(word, "collected") {
            Event::Collected
        } else if same_text(word, "evicted") {
            Event::Evicted
        } else if same_text(word, "restored") {
            Event::Restored
        } else if same_text(word, "conflicted") {
            Event::Conflicted
        } else if same_text(word, "paired") {
            Event::Paired
        } else if same_text(word, "failed") {
            Event::Failed
        } else {
            Event::Other(word.to_owned())
        }
    }
}

/// One thing that happened, in a form an interface can render directly.
#[derive(Debug, Clone, PartialEq, Eq)]
pub struct Activity {
    pub id: i64,
    /// Unix seconds.
    pub at: i64,
    pub kind: Event,
    pub path: Option<String>,
    pub size: Option<u64>,
    /// The device at the other end, where there is one.
    pub device: Option<DeviceId>,
    /// A sentence for what the rest cannot carry: why something failed, what a
    /// conflict was filed as.
    pub detail: Option<String>,
}

/// One thing that happened, as values.
pub struct Happening {
    pub id: i64,
    pub at: i64,
    pub kind: Seq<char>,
    pub path: Option<Seq<char>>,
    pub size: Option<u64>,
    pub device: Option<Seq<u8>>,
    pub detail: Option<Seq<char>>,
}

/// An optional text, as a value.
pub open spec fn text_view(text: Option<String>) -> Option<Seq<char>> {
    match text {
        Some(t) => Some(t@),
        None => None,
    }
}

/// An optional borrowed text, as a value.
pub open spec fn str_view(text: Option<&str>) -> Option<Seq<char>> {
    match text {
        Some(t) => Some(t@),
        None => None,
    }
}

impl View for Activity {
    type V = Happening;

    open spec fn view(&self) -> Happening {
        Happening {
            id: self.id,
            at: self.at,
            kind: self.kind@,
            path: text_view(self.path),
            size: self.size,
            device: db::device_view(self.device),
            detail: text_view(self.detail),
        }
    }
}

pub open spec fn happenings(s: Seq<Activity>) -> Seq<Happening> {
    Seq::new(s.len(), |i: int| s[i]@)
}

/// Things are numbered in the order in which they were written down.
pub open spec fn numbered(s: Seq<Happening>) -> bool {
    forall|i: int, j: int| #![trigger s[i], s[j]] 0 <= i < j < s.len() ==> s[i].id < s[j].id
}

/// The number of the next thing that happens.
pub open spec fn next_number(s: Seq<Happening>) -> int {
    if s.len() == 0 {
        1
    } else {
        s.last().id + 1
    }
}

/// The index once something that happened was written down.
pub open spec fn written_down(
    ix: Index,
    kind: Seq<char>,
    path: Option<Seq<char>>,
    size: Option<u64>,
    device: Option<Seq<u8>>,
    detail: Option<Seq<char>>,
    now: i64,
) -> Index {
    Index {
        history: ix.history.push(
            Happening {
                id: next_number(ix.history) as i64,
                at: now,
                kind,
                path,
                size,
                device,
                detail,
            },
        ),
        ..ix
    }
}

/// `a` is newer than `b`. Two events in the same second are told apart by their
/// numbers.
pub open spec fn newer(a: Happening, b: Happening) -> bool {
    a.at > b.at || (a.at == b.at && a.id > b.id)
}

/// A question about the past.
pub enum Asked<'a> {
    /// Everything, or what was written down before a number.
    Before(Option<i64>),
    /// What happened to one path.
    About(&'a str),
}

/// Whether a question is about something that happened.
pub open spec fn asked_of(asked: Asked, h: Happening) -> bool {
    match asked {
        Asked::Before(None) => true,
        Asked::Before(Some(id)) => h.id < id,
        Asked::About(path) => h.path == Some(path@),
    }
}

/// The newest of what a question is about, newest first: at most `limit`, and
/// all where there is less.
pub open spec fn is_page(all: Seq<Happening>, asked: Asked, limit: nat, page: Seq<Happening>) -> bool {
    &&& page.len() <= limit
    &&& forall|i: int, j: int|
        #![trigger page[i], page[j]]
        0 <= i < j < page.len() ==> newer(page[i], page[j])
    &&& forall|i: int|
        #![trigger page[i]]
        0 <= i < page.len() ==> all.contains(page[i]) && asked_of(asked, page[i])
    &&& forall|k: int|
        #![trigger all[k]]
        0 <= k < all.len() && asked_of(asked, all[k]) ==> page.contains(all[k]) || (page.len()
            == limit && forall|i: int|
            #![trigger page[i]]
            0 <= i < page.len() ==> newer(page[i], all[k]))
}

/// What happened after a moment.
pub open spec fn since(s: Seq<Happening>, cutoff: i64) -> Seq<Happening>
    decreases s.len(),
{
    if s.len() == 0 {
        Seq::empty()
    } else if s.last().at <= cutoff {
        since(s.drop_last(), cutoff)
    } else {
        since(s.drop_last(), cutoff).push(s.last())
    }
}

/// How many of a list are newer than one.
pub open spec fn rank(s: Seq<Happening>, h: Happening) -> nat
    decreases s.len(),
{
    if s.len() == 0 {
        0
    } else {
        rank(s.drop_last(), h) + if newer(s.last(), h) {
            1nat
        } else {
            0
        }
    }
}

/// Those of the first `n` that are among the newest `keep` of all.
pub open spec fn newest(s: Seq<Happening>, keep: nat, n: int) -> Seq<Happening>
    decreases n,
{
    if n <= 0 {
        Seq::empty()
    } else if rank(s, s[n - 1]) < keep {
        newest(s, keep, n - 1).push(s[n - 1])
    } else {
        newest(s, keep, n - 1)
    }
}

/// The history once it has been pruned.
pub open spec fn pruned(s: Seq<Happening>, cutoff: i64, keep: nat) -> Seq<Happening> {
    let recent = since(s, cutoff);
    newest(recent, keep, recent.len() as int)
}

fn copy_text(text: &Option<String>) -> (out: Option<String>)
    ensures
        text_view(out) == text_view(*text),
{
    match text {
        Some(t) => Some(t.clone()),
        None => None,
    }
}

fn own(text: Option<&str>) -> (out: Option<String>)
    ensures
        text_view(out) == str_view(text),
{
    match text {
        Some(t) => Some(t.to_owned()),
        None => None,
    }
}

fn copy(row: &Activity) -> (out: Activity)
    ensures
        out@ == row@,
{
    Activity {
        id: row.id,
        at: row.at,
        kind: Event::parse(row.kind.as_str()),
        path: copy_text(&row.path),
        size: row.size,
        device: row.device,
        detail: copy_text(&row.detail),
    }
}

fn is_newer(a: &Activity, b: &Activity) -> (yes: bool)
    ensures
        yes == newer(a@, b@),
{
    a.at > b.at || (a.at == b.at && a.id > b.id)
}

fn is_asked(asked: &Asked<'_>, row: &Activity) -> (yes: bool)
    ensures
        yes == asked_of(*asked, row@),
{
    match asked {
        Asked::Before(None) => true,
        Asked::Before(Some(id)) => row.id < *id,
        Asked::About(path) => match &row.path {
            Some(p) => same_text(p.as_str(), path),
            None => false,
        },
    }
}

/// Puts one more into a page of at most `limit`.
fn put_in_page(page: &mut Vec<Activity>, row: &Activity, limit: usize)
    requires
        old(page)@.len() <= limit,
        forall|i: int, j: int|
            #![trigger happenings(old(page)@)[i], happenings(old(page)@)[j]]
            0 <= i < j < old(page)@.len() ==> newer(
                happenings(old(page)@)[i],
                happenings(old(page)@)[j],
            ),
        forall|i: int|
            #![trigger happenings(old(page)@)[i]]
            0 <= i < old(page)@.len() ==> happenings(old(page)@)[i].id < row@.id,
    ensures
        final(page)@.len() <= limit,
        ({
            let before = happenings(old(page)@);
            let after = happenings(final(page)@);
            exists|k: int|
                #![trigger before.insert(k, row@)]
                0 <= k <= before.len() && {
                    let full = before.insert(k, row@);
                    &&& after == full.take(if full.len() <= limit {
                        full.len() as int
                    } else {
                        limit as int
                    })
                    &&& forall|i: int, j: int|
                        #![trigger full[i], full[j]]
                        0 <= i < j < full.len() ==> newer(full[i], full[j])
                }
        }),
{
    let ghost before = happenings(page@);
    let mut k: usize = page.len();
    while k > 0 && is_newer(row, &page[k - 1])
        invariant
            k <= page@.len(),
            *page == *old(page),
            before == happenings(page@),
            forall|i: int|
                #![trigger before[i]]
                k <= i < before.len() ==> newer(row@, before[i]),
        decreases k,
    {
        k -= 1;
        assert(before[k as int] == page@[k as int]@);
    }
    let len: usize = page.len();
    let ghost full = before.insert(k as int, row@);
    proof {
        if k > 0 {
            assert(before[k - 1] == page@[k - 1]@);
            assert(newer(before[k - 1], row@));
        }
        assert forall|i: int, j: int|
            #![trigger full[i], full[j]]
            0 <= i < j < full.len() implies newer(full[i], full[j]) by {
            let p = if i < k { i } else { i - 1 };
            let q = if j < k { j } else { j - 1 };
            if i != k && j != k {
                assert(full[i] == before[p] && full[j] == before[q]);
            } else if i == k {
                assert(full[j] == before[j - 1]);
            } else {
                assert(full[i] == before[i]);
                if i < k - 1 {
                    assert(newer(before[i], before[k - 1]));
                }
            }
        }
    }
    if len < limit {
        page.insert(k, copy(row));
        assert(happenings(page@) =~= full);
        assert(full.take(full.len() as int) =~= full);
    } else if k < limit {
        page.pop();
        page.insert(k, copy(row));
        assert(happenings(page@) =~= full.take(limit as int));
    } else {
        assert(happenings(page@) =~= full.take(limit as int));
    }
}

impl Db {
    /// Write down that something happened.
    pub fn record(
        &mut self,
        kind: &Event,
        path: Option<&str>,
        size: Option<u64>,
        device: Option<&DeviceId>,
        detail: Option<&str>,
        now: i64,
    )
        requires
            old(self).wf(),
            next_number(old(self)@.history) <= i64::MAX,
        ensures
            final(self).wf(),
            final(self)@ == written_down(
                old(self)@,
                kind@,
                str_view(path),
                size,
                match device {
                    Some(d) => Some(d@),
                    None => None,
                },
                str_view(detail),
                now,
            ),
    {
        let ghost before = self@.history;
        let n: usize = self.history.len();
        let id: i64 = if n == 0 {
            1
        } else {
            assert(before.last() == self.history@[n - 1]@);
            self.history[n - 1].id + 1
        };
        let device: Option<DeviceId> = match device {
            Some(d) => Some(*d),
            None => None,
        };
        let row: Activity = Activity {
            id,
            at: now,
            kind: Event::parse(kind.as_str()),
            path: own(path),
            size,
            device,
            detail: own(detail),
        };
        self.history.push(row);
        proof {
            let after = self@.history;
            assert(after =~= before.push(row@));
            assert forall|i: int, j: int|
                #![trigger after[i], after[j]]
                0 <= i < j < after.len() implies after[i].id < after[j].id by {
                if j < n {
                    assert(before[i].id < before[j].id);
                } else if i < n - 1 {
                    assert(before[i].id < before[n - 1].id);
                }
            }
        }
    }

    /// The shorter form for the common case: a kind and a path.
    pub fn note(&mut self, kind: &Event, path: &str, now: i64)
        requires
            old(self).wf(),
            next_number(old(self)@.history) <= i64::MAX,
        ensures
            final(self).wf(),
            final(self)@ == written_down(
                old(self)@,
                kind@,
                Some(path@),
                None,
                None,
                None,
                now,
            ),
    {
        self.record(kind, Some(path), None, None, None, now);
    }

    fn page(&self, asked: &Asked<'_>, limit: usize) -> (list: Vec<Activity>)
        requires
            self.wf(),
        ensures
            is_page(self@.history, *asked, limit as nat, happenings(list@)),
    {
        let ghost all = self@.history;
        let mut list: Vec<Activity> = Vec::new();
        let mut n: usize = 0;
        assert(all.take(0) =~= Seq::<Happening>::empty());
        while n < self.history.len()
            invariant
                n <= self.history@.len(),
                self.wf(),
                all == self@.history,
                is_page(all.take(n as int), *asked, limit as nat, happenings(list@)),
            decreases self.history@.len() - n,
        {
            let row: &Activity = &self.history[n];
            let ghost seen = all.take(n as int);
            let ghost more = all.take(n + 1);
            let ghost before = happenings(list@);
            proof {
                assert(all[n as int] == row@);
                assert(more =~= seen.push(row@));
                assert forall|i: int| #![trigger before[i]] 0 <= i < before.len() implies before[i].id
                    < row@.id by {
                    let k = choose|k: int| 0 <= k < seen.len() && seen[k] == before[i];
                    assert(all[k].id < all[n as int].id);
                }
            }
            if is_asked(asked, row) {
                put_in_page(&mut list, row, limit);
                proof {
                    let k = choose|k: int|
                        #![trigger before.insert(k, row@)]
                        0 <= k <= before.len() && {
                            let full = before.insert(k, row@);
                            &&& happenings(list@) == full.take(if full.len() <= limit {
                                full.len() as int
                            } else {
                                limit as int
                            })
                            &&& forall|i: int, j: int|
                                #![trigger full[i], full[j]]
                                0 <= i < j < full.len() ==> newer(full[i], full[j])
                        };
                    page_grows(
                        seen,
                        *asked,
                        limit as nat,
                        before,
                        row@,
                        k,
                        happenings(list@),
                    );
                }
            } else {
                proof {
                    page_stays(seen, *asked, limit as nat, before, row@);
                }
            }
            n += 1;
        }
        assert(all.take(n as int) =~= all);
        list
    }

    /// What happened, newest first.
    ///
    /// `before` pages backwards: pass the `id` of the oldest row already shown
    /// and the next page follows it. By `id` rather than by time because two
    /// events in the same second are indistinguishable by time, and a page
    /// boundary landing between them would repeat or skip one.
    pub fn activity(&self, limit: usize, before: Option<i64>) -> (list: Vec<Activity>)
        requires
            self.wf(),
        ensures
            is_page(self@.history, Asked::Before(before), limit as nat, happenings(list@)),
    {
        self.page(&Asked::Before(before), limit)
    }

    /// What happened to one path, newest first.
    pub fn activity_for(&self, path: &str, limit: usize) -> (list: Vec<Activity>)
        requires
            self.wf(),
        ensures
            is_page(self@.history, Asked::About(path), limit as nat, happenings(list@)),
    {
        self.page(&Asked::About(path), limit)
    }

    /// Drop history past its window, and cap what is left.
    ///
    /// Two limits rather than one because they fail differently. Age alone lets
    /// a busy week grow the table without bound; a count alone lets a quiet
    /// device keep rows from years ago. Returns how many rows went.
    pub fn prune_activity(&mut self, keep_for: u64, keep_at_most: usize, now: i64) -> (gone: usize)
        requires
            old(self).wf(),
            keep_for <= i64::MAX,
            now - keep_for >= i64::MIN,
        ensures
            final(self).wf(),
            final(self)@ == (Index {
                history: pruned(
                    old(self)@.history,
                    (now - keep_for) as i64,
                    keep_at_most as nat,
                ),
                ..old(self)@
            }),
            gone == old(self)@.history.len() - final(self)@.history.len(),
    {
        let cutoff: i64 = now - keep_for as i64;
        let ghost all = self@.history;
        let len: usize = self.history.len();
        let mut recent: Vec<Activity> = Vec::new();
        let mut i: usize = 0;
        assert(happenings(recent@) =~= since(all.take(0), cutoff));
        while i < len
            invariant
                i <= len == self.history@.len(),
                all == self@.history,
                *self == *old(self),
                recent@.len() <= i,
                happenings(recent@) == since(all.take(i as int), cutoff),
            decreases len - i,
        {
            proof {
                assert(all.take(i + 1).drop_last() =~= all.take(i as int));
                assert(all.take(i + 1).last() == self.history@[i as int]@);
            }
            if self.history[i].at > cutoff {
                let ghost before = happenings(recent@);
                recent.push(copy(&self.history[i]));
                assert(happenings(recent@) =~= before.push(all[i as int]));
            }
            i += 1;
        }
        assert(all.take(i as int) =~= all);
        let ghost mid = happenings(recent@);
        let mut kept: Vec<Activity> = Vec::new();
        let mut k: usize = 0;
        assert(happenings(kept@) =~= newest(mid, keep_at_most as nat, 0));
        while k < recent.len()
            invariant
                k <= recent@.len() <= len,
                mid == happenings(recent@),
                kept@.len() <= k,
                happenings(kept@) == newest(mid, keep_at_most as nat, k as int),
            decreases recent@.len() - k,
        {
            assert(mid[k as int] == recent@[k as int]@);
            if rank_of(&recent, k) < keep_at_most {
                let ghost before = happenings(kept@);
                kept.push(copy(&recent[k]));
                assert(happenings(kept@) =~= before.push(mid[k as int]));
            }
            k += 1;
        }
        let gone: usize = len - kept.len();
        proof {
            since_stays_numbered(all, cutoff);
            newest_stays_numbered(mid, keep_at_most as nat, mid.len() as int);
        }
        self.history = kept;
        gone
    }
}

/// How many of a list are newer than one of its members.
fn rank_of(list: &Vec<Activity>, k: usize) -> (n: usize)
    requires
        k < list@.len(),
    ensures
        n == rank(happenings(list@), list@[k as int]@),
{
    let ghost all = happenings(list@);
    let len: usize = list.len();
    let mut n: usize = 0;
    let mut i: usize = 0;
    while i < len
        invariant
            i <= len == list@.len(),
            k < len,
            n <= i,
            all == happenings(list@),
            n == rank(all.take(i as int), list@[k as int]@),
        decreases len - i,
    {
        assert(all.take(i + 1).drop_last() =~= all.take(i as int));
        assert(all.take(i + 1).last() == list@[i as int]@);
        if is_newer(&list[i], &list[k]) {
            n += 1;
        }
        i += 1;
    }
    assert(all.take(i as int) =~= all);
    n
}

proof fn since_stays_numbered(s: Seq<Happening>, cutoff: i64)
    requires
        numbered(s),
    ensures
        numbered(since(s, cutoff)),
        forall|i: int|
            #![trigger since(s, cutoff)[i]]
            0 <= i < since(s, cutoff).len() ==> s.contains(since(s, cutoff)[i]),
        since(s, cutoff).len() <= s.len(),
    decreases s.len(),
{
    if s.len() > 0 {
        let rest = s.drop_last();
        assert forall|i: int, j: int|
            #![trigger rest[i], rest[j]]
            0 <= i < j < rest.len() implies rest[i].id < rest[j].id by {
            assert(s[i].id < s[j].id);
        }
        since_stays_numbered(rest, cutoff);
        let some = since(rest, cutoff);
        let all = since(s, cutoff);
        assert forall|i: int| #![trigger all[i]] 0 <= i < all.len() implies s.contains(all[i]) by {
            if i < some.len() {
                assert(all[i] == some[i]);
                let k = choose|k: int| 0 <= k < rest.len() && rest[k] == some[i];
                assert(s[k] == all[i]);
            } else {
                assert(s[s.len() - 1] == all[i]);
            }
        }
        assert forall|i: int, j: int|
            #![trigger all[i], all[j]]
            0 <= i < j < all.len() implies all[i].id < all[j].id by {
            assert(all[i] == some[i]);
            if j < some.len() {
                assert(all[j] == some[j]);
            } else {
                let k = choose|k: int| 0 <= k < rest.len() && rest[k] == some[i];
                assert(s[k].id < s[s.len() - 1].id);
            }
        }
    }
}

proof fn newest_stays_numbered(s: Seq<Happening>, keep: nat, n: int)
    requires
        numbered(s),
        0 <= n <= s.len(),
    ensures
        numbered(newest(s, keep, n)),
        newest(s, keep, n).len() <= n,
        forall|i: int|
            #![trigger newest(s, keep, n)[i]]
            0 <= i < newest(s, keep, n).len() ==> exists|k: int|
                0 <= k < n && #[trigger] s[k] == newest(s, keep, n)[i],
    decreases n,
{
    if n > 0 {
        newest_stays_numbered(s, keep, n - 1);
        let some = newest(s, keep, n - 1);
        let all = newest(s, keep, n);
        assert forall|i: int| #![trigger all[i]] 0 <= i < all.len() implies exists|k: int|
            0 <= k < n && #[trigger] s[k] == all[i] by {
            if i < some.len() {
                assert(all[i] == some[i]);
                let k = choose|k: int| 0 <= k < n - 1 && #[trigger] s[k] == some[i];
                assert(s[k] == all[i]);
            } else {
                assert(s[n - 1] == all[i]);
            }
        }
        assert forall|i: int, j: int|
            #![trigger all[i], all[j]]
            0 <= i < j < all.len() implies all[i].id < all[j].id by {
            assert(all[i] == some[i]);
            if j < some.len() {
                assert(all[j] == some[j]);
            } else {
                let k = choose|k: int| 0 <= k < n - 1 && #[trigger] s[k] == some[i];
                assert(s[k].id < s[n - 1].id);
            }
        }
    }
}

/// A page takes in one more thing that the question is about.
proof fn page_grows(
    seen: Seq<Happening>,
    asked: Asked,
    limit: nat,
    before: Seq<Happening>,
    h: Happening,
    k: int,
    after: Seq<Happening>,
)
    requires
        is_page(seen, asked, limit, before),
        asked_of(asked, h),
        0 <= k <= before.len(),
        after == before.insert(k, h).take(if before.len() + 1 <= limit {
            (before.len() + 1) as int
        } else {
            limit as int
        }),
        forall|i: int, j: int|
            #![trigger before.insert(k, h)[i], before.insert(k, h)[j]]
            0 <= i < j <= before.len() ==> newer(before.insert(k, h)[i], before.insert(k, h)[j]),
    ensures
        is_page(seen.push(h), asked, limit, after),
{
    let full = before.insert(k, h);
    let all = seen.push(h);
    assert(all[seen.len() as int] == h);
    assert forall|i: int, j: int|
        #![trigger after[i], after[j]]
        0 <= i < j < after.len() implies newer(after[i], after[j]) by {
        assert(after[i] == full[i] && after[j] == full[j]);
    }
    assert forall|i: int| #![trigger after[i]] 0 <= i < after.len() implies all.contains(after[i])
        && asked_of(asked, after[i]) by {
        assert(after[i] == full[i]);
        if i != k {
            let p = if i < k { i } else { i - 1 };
            assert(full[i] == before[p]);
            let n = choose|n: int| 0 <= n < seen.len() && seen[n] == before[p];
            assert(all[n] == before[p]);
        }
    }
    assert forall|n: int|
        #![trigger all[n]]
        0 <= n < all.len() && asked_of(asked, all[n]) implies after.contains(all[n]) || (
    after.len() == limit && forall|i: int|
        #![trigger after[i]]
        0 <= i < after.len() ==> newer(after[i], all[n])) by {
        if n == seen.len() {
            if k < after.len() {
                assert(after[k] == h);
            } else {
                assert forall|i: int| #![trigger after[i]] 0 <= i < after.len() implies newer(
                    after[i],
                    all[n],
                ) by {
                    assert(after[i] == full[i]);
                    assert(newer(full[i], full[k]));
                }
            }
        } else {
            assert(all[n] == seen[n]);
            if before.contains(seen[n]) {
                let p = choose|p: int| 0 <= p < before.len() && before[p] == seen[n];
                let q = if p < k { p } else { p + 1 };
                assert(full[q] == seen[n]);
                if q < after.len() {
                    assert(after[q] == full[q]);
                } else {
                    assert forall|i: int| #![trigger after[i]] 0 <= i < after.len() implies newer(
                        after[i],
                        all[n],
                    ) by {
                        assert(after[i] == full[i]);
                        assert(newer(full[i], full[q]));
                    }
                }
            } else {
                assert forall|i: int| #![trigger after[i]] 0 <= i < after.len() implies newer(
                    after[i],
                    all[n],
                ) by {
                    assert(after[i] == full[i]);
                    if i != k {
                        let p = if i < k { i } else { i - 1 };
                        assert(full[i] == before[p]);
                    } else {
                        assert(newer(full[k], full[k + 1]));
                        assert(full[k + 1] == before[k]);
                        assert(newer(before[k], all[n]));
                    }
                }
            }
        }
    }
}

/// A page does not change for something that the question is not about.
proof fn page_stays(
    seen: Seq<Happening>,
    asked: Asked,
    limit: nat,
    page: Seq<Happening>,
    h: Happening,
)
    requires
        is_page(seen, asked, limit, page),
        !asked_of(asked, h),
    ensures
        is_page(seen.push(h), asked, limit, page),
{
    let all = seen.push(h);
    assert forall|i: int| #![trigger page[i]] 0 <= i < page.len() implies all.contains(page[i])
        && asked_of(asked, page[i]) by {
        let n = choose|n: int| 0 <= n < seen.len() && seen[n] == page[i];
        assert(all[n] == page[i]);
    }
    assert forall|n: int|
        #![trigger all[n]]
        0 <= n < all.len() && asked_of(asked, all[n]) implies page.contains(all[n]) || (page.len()
        == limit && forall|i: int|
        #![trigger page[i]]
        0 <= i < page.len() ==> newer(page[i], all[n])) by {
        assert(all[n] == seen[n]);
    }
}

/// The clock did not go back while the history was written.
pub open spec fn chronological(s: Seq<Happening>) -> bool {
    forall|i: int, j: int| #![trigger s[i], s[j]] 0 <= i < j < s.len() ==> s[i].at <= s[j].at
}

/// Paging neither repeats nor skips: a page, and the page before its oldest
/// line, are together one longer page.
pub proof fn law_paging_neither_repeats_nor_skips(
    all: Seq<Happening>,
    before: Option<i64>,
    first: Seq<Happening>,
    second: Seq<Happening>,
    n: nat,
    m: nat,
)
    requires
        numbered(all),
        chronological(all),
        first.len() > 0,
        is_page(all, Asked::Before(before), n, first),
        is_page(all, Asked::Before(Some(first.last().id)), m, second),
    ensures
        is_page(all, Asked::Before(before), (first.len() + m) as nat, first + second),
{
    let page = first + second;
    let last = first.last();
    assert(first[first.len() - 1] == last);
    let l = choose|l: int| 0 <= l < all.len() && all[l] == last;
    // What has a lower number is older, and what has a higher one is newer.
    assert forall|k: int| #![trigger all[k]] 0 <= k < all.len() implies (all[k].id < last.id
        <==> newer(last, all[k])) && (all[k].id > last.id <==> newer(all[k], last)) && (
    all[k].id == last.id <==> all[k] == last) by {
        if k < l {
            assert(all[k].id < all[l].id && all[k].at <= all[l].at);
        } else if l < k {
            assert(all[l].id < all[k].id && all[l].at <= all[k].at);
        }
    }
    assert forall|i: int| #![trigger second[i]] 0 <= i < second.len() implies newer(
        last,
        second[i],
    ) by {
        let k = choose|k: int| 0 <= k < all.len() && all[k] == second[i];
        assert(all[k].id < last.id);
    }
    assert forall|i: int| #![trigger first[i]] 0 <= i < first.len() - 1 implies newer(
        first[i],
        last,
    ) by {
        assert(newer(first[i], first[first.len() - 1]));
    }
    assert forall|i: int, j: int|
        #![trigger page[i], page[j]]
        0 <= i < j < page.len() implies newer(page[i], page[j]) by {
        if j < first.len() {
            assert(page[i] == first[i] && page[j] == first[j]);
        } else if i >= first.len() {
            assert(page[i] == second[i - first.len()] && page[j] == second[j - first.len()]);
        } else {
            assert(page[i] == first[i]);
            assert(page[j] == second[j - first.len()]);
            assert(newer(last, second[j - first.len()]));
            if i < first.len() - 1 {
                assert(newer(first[i], last));
            }
        }
    }
    assert forall|i: int| #![trigger page[i]] 0 <= i < page.len() implies all.contains(page[i])
        && asked_of(Asked::Before(before), page[i]) by {
        if i < first.len() {
            assert(page[i] == first[i]);
        } else {
            assert(page[i] == second[i - first.len()]);
            assert(asked_of(Asked::Before(before), first[first.len() - 1]));
        }
    }
    assert forall|k: int|
        #![trigger all[k]]
        0 <= k < all.len() && asked_of(Asked::Before(before), all[k]) implies page.contains(all[k])
        || (page.len() == first.len() + m && forall|i: int|
        #![trigger page[i]]
        0 <= i < page.len() ==> newer(page[i], all[k])) by {
        if all[k].id < last.id {
            if second.contains(all[k]) {
                let i = choose|i: int| 0 <= i < second.len() && second[i] == all[k];
                assert(page[first.len() + i] == all[k]);
            } else {
                assert forall|i: int| #![trigger page[i]] 0 <= i < page.len() implies newer(
                    page[i],
                    all[k],
                ) by {
                    if i < first.len() {
                        assert(page[i] == first[i]);
                        if i < first.len() - 1 {
                            assert(newer(first[i], last));
                        }
                    } else {
                        assert(page[i] == second[i - first.len()]);
                    }
                }
            }
        } else {
            if first.contains(all[k]) {
                let i = choose|i: int| 0 <= i < first.len() && first[i] == all[k];
                assert(page[i] == all[k]);
            } else {
                assert(newer(first[first.len() - 1], all[k]));
            }
        }
    }
}

/// A page says what was asked for, the latest first: of two entries the one that
/// was written down at the later time, or later at one time, comes first. Asking
/// for what came before an entry leaves that entry and everything after it out;
/// asking about a path leaves out every entry that is not about it. Nothing that was
/// asked for is left out while there is room.
pub proof fn law_a_page_says_what_was_asked(
    all: Seq<Happening>,
    asked: Asked,
    limit: nat,
    page: Seq<Happening>,
    h: Happening,
)
    requires
        is_page(all, asked, limit, page),
    ensures
        page.len() <= limit,
        forall|i: int, j: int|
            #![trigger page[i], page[j]]
            0 <= i < j < page.len() ==> page[i].at > page[j].at || (page[i].at == page[j].at
                && page[i].id > page[j].id),
        page.contains(h) ==> all.contains(h) && match asked {
            Asked::Before(None) => true,
            Asked::Before(Some(id)) => h.id < id,
            Asked::About(path) => h.path == Some(path@),
        },
        all.contains(h) && page.len() < limit && (match asked {
            Asked::Before(None) => true,
            Asked::Before(Some(id)) => h.id < id,
            Asked::About(path) => h.path == Some(path@),
        }) ==> page.contains(h),
{
    if page.contains(h) {
        let i = choose|i: int| 0 <= i < page.len() && page[i] == h;
        assert(all.contains(page[i]));
    }
    if all.contains(h) {
        let k = choose|k: int| 0 <= k < all.len() && all[k] == h;
        assert(all[k] == h);
    }
}

/// What is later has fewer that are later still.
proof fn later_ranks_less(s: Seq<Happening>, a: Happening, b: Happening)
    requires
        newer(a, b),
    ensures
        rank(s, a) <= rank(s, b),
        s.contains(a) ==> rank(s, a) < rank(s, b),
    decreases s.len(),
{
    if s.len() > 0 {
        let rest = s.drop_last();
        later_ranks_less(rest, a, b);
        if s.contains(a) && !rest.contains(a) {
            let k = choose|k: int| 0 <= k < s.len() && s[k] == a;
            if k < rest.len() {
                assert(rest[k] == a);
            }
            assert(s.last() == a);
        }
    }
}

proof fn kept_entries(s: Seq<Happening>, keep: nat, n: int, h: Happening)
    requires
        0 <= n <= s.len(),
    ensures
        newest(s, keep, n).contains(h) <==> rank(s, h) < keep && s.take(n).contains(h),
    decreases n,
{
    if n > 0 {
        kept_entries(s, keep, n - 1, h);
        let a = newest(s, keep, n - 1);
        let b = newest(s, keep, n);
        let x = s.take(n - 1);
        let y = s.take(n);
        let last = s[n - 1];
        if a.contains(h) {
            let k = choose|k: int| 0 <= k < a.len() && a[k] == h;
            assert(b[k] == h);
        }
        if b.contains(h) {
            let k = choose|k: int| 0 <= k < b.len() && b[k] == h;
            if k < a.len() {
                assert(a[k] == h);
            }
        }
        if x.contains(h) {
            let k = choose|k: int| 0 <= k < x.len() && x[k] == h;
            assert(y[k] == h);
        }
        if y.contains(h) {
            let k = choose|k: int| 0 <= k < y.len() && y[k] == h;
            if k < n - 1 {
                assert(x[k] == h);
            }
        }
        assert(y[n - 1] == last);
        if rank(s, last) < keep {
            assert(b[a.len() as int] == last);
        }
    }
}

proof fn recent_entries(s: Seq<Happening>, cutoff: i64, h: Happening)
    ensures
        since(s, cutoff).contains(h) <==> s.contains(h) && h.at > cutoff,
    decreases s.len(),
{
    if s.len() > 0 {
        let rest = s.drop_last();
        recent_entries(rest, cutoff, h);
        let a = since(rest, cutoff);
        let b = since(s, cutoff);
        let last = s.last();
        assert(s[s.len() - 1] == last);
        if a.contains(h) {
            let k = choose|k: int| 0 <= k < a.len() && a[k] == h;
            assert(b[k] == h);
        }
        if b.contains(h) {
            let k = choose|k: int| 0 <= k < b.len() && b[k] == h;
            if k < a.len() {
                assert(a[k] == h);
            }
        }
        if rest.contains(h) {
            let k = choose|k: int| 0 <= k < rest.len() && rest[k] == h;
            assert(s[k] == h);
        }
        if s.contains(h) {
            let k = choose|k: int| 0 <= k < s.len() && s[k] == h;
            if k < rest.len() {
                assert(rest[k] == h);
            }
        }
        if last.at > cutoff {
            assert(b[a.len() as int] == last);
        }
    }
}

/// Pruning keeps the latest entries and forgets the oldest first: an entry at or
/// before the cutoff goes; of the others one that goes is older than every one that
/// stays, and none goes that fewer than the limit are later than.
pub proof fn law_pruning_forgets_the_oldest_first(
    s: Seq<Happening>,
    cutoff: i64,
    keep: nat,
    gone: Happening,
    kept: Happening,
)
    requires
        s.contains(gone),
        s.contains(kept),
        !pruned(s, cutoff, keep).contains(gone),
        pruned(s, cutoff, keep).contains(kept),
        gone != kept,
        gone.id != kept.id,
    ensures
        kept.at > cutoff,
        gone.at <= cutoff || gone.at < kept.at || (gone.at == kept.at && gone.id < kept.id),
        gone.at <= cutoff || rank(since(s, cutoff), gone) >= keep,
{
    let recent = since(s, cutoff);
    let n = recent.len() as int;
    recent_entries(s, cutoff, gone);
    recent_entries(s, cutoff, kept);
    kept_entries(recent, keep, n, gone);
    kept_entries(recent, keep, n, kept);
    assert(recent.take(n) =~= recent);
    if gone.at > cutoff && newer(gone, kept) {
        later_ranks_less(recent, gone, kept);
    }
}

/// Where no more entries than the limit are recent enough, pruning keeps exactly
/// those.
pub proof fn law_pruning_keeps_what_is_recent_enough(
    s: Seq<Happening>,
    cutoff: i64,
    keep: nat,
    h: Happening,
)
    requires
        s.len() <= keep,
        numbered(s),
    ensures
        pruned(s, cutoff, keep).contains(h) <==> s.contains(h) && h.at > cutoff,
{
    let recent = since(s, cutoff);
    let n = recent.len() as int;
    recent_entries(s, cutoff, h);
    since_stays_numbered(s, cutoff);
    kept_entries(recent, keep, n, h);
    assert(recent.take(n) =~= recent);
    if recent.contains(h) {
        rank_is_below(recent, h);
    }
}

proof fn rank_is_at_most(s: Seq<Happening>, h: Happening)
    ensures
        rank(s, h) <= s.len(),
    decreases s.len(),
{
    if s.len() > 0 {
        rank_is_at_most(s.drop_last(), h);
    }
}

proof fn rank_is_below(s: Seq<Happening>, h: Happening)
    requires
        s.contains(h),
    ensures
        rank(s, h) < s.len(),
    decreases s.len(),
{
    let rest = s.drop_last();
    if rest.contains(h) {
        rank_is_below(rest, h);
    } else {
        let k = choose|k: int| 0 <= k < s.len() && s[k] == h;
        if k < rest.len() {
            assert(rest[k] == h);
        }
        rank_is_at_most(rest, h);
    }
}

/// Every kind of event that has a word of its own is known by it, and no two by the
/// same.
pub proof fn law_events_are_known_by_their_words(a: Event, b: Event)
    requires
        !(a is Other),
        !(b is Other),
    ensures
        familiar(a@),
        a@ == b@ ==> a == b,
{
    reveal_strlit("stored");
    reveal_strlit("deleted");
    reveal_strlit("received");
    reveal_strlit("sent");
    reveal_strlit("collected");
    reveal_strlit("evicted");
    reveal_strlit("restored");
    reveal_strlit("conflicted");
    reveal_strlit("paired");
    reveal_strlit("failed");
    if a@ == b@ {
        assert(a@[0] == b@[0]);
        assert(a@.len() == b@.len());
        assert(a@[2] == b@[2]);
    }
}

/// What happened is written down behind everything that was, as it was told and at
/// the time it was told, under a number above all others; what was written down
/// before stays, and nothing else changes.
pub proof fn law_what_happened_is_written_down(
    ix: Index,
    kind: Seq<char>,
    path: Option<Seq<char>>,
    size: Option<u64>,
    device: Option<Seq<u8>>,
    detail: Option<Seq<char>>,
    now: i64,
)
    requires
        numbered(ix.history),
        next_number(ix.history) <= i64::MAX,
    ensures
        ({
            let after = written_down(ix, kind, path, size, device, detail, now);
            let h = after.history.last();
            &&& after.history.len() == ix.history.len() + 1
            &&& after.history.drop_last() == ix.history
            &&& h.at == now && h.kind == kind && h.path == path && h.size == size && h.device
                == device && h.detail == detail
            &&& forall|i: int|
                #![trigger ix.history[i]]
                0 <= i < ix.history.len() ==> ix.history[i].id < h.id
            &&& after == (Index { history: after.history, ..ix })
        }),
{
    let after = written_down(ix, kind, path, size, device, detail, now);
    assert(after.history.drop_last() =~= ix.history);
    let n = ix.history.len() - 1;
    assert forall|i: int| #![trigger ix.history[i]] 0 <= i < ix.history.len() implies ix.history[i].id
        < after.history.last().id by {
        if i < n {
            assert(ix.history[i].id < ix.history[n].id);
        }
    }
}

} // verus!
