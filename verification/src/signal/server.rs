//! The rendezvous service.
//!
//! Remembers where each connected device says it is, and introduces two that
//! want to reach each other, telling both to punch at the same moment. What is
//! decided here is what to answer and whom to tell; holding the connections and
//! carrying the messages is left to whoever runs the service. Each connection is
//! known here by a number, its link.

use vstd::prelude::*;
use vstd::string::StringSliceAdditionalSpecFns;

use super::message::{Asked, Endpoints, FromClient, FromServer, Places, Presence, Present, Said};
use super::introductions;
use super::message;
use super::rendezvous::{GroupId, MemberId};
use super::wake::WakeToken;
use crate::keyed;

verus! {

/// Limits, so that anyone who finds the port cannot exhaust the machine.
///
/// None of these protect against a determined attacker with many addresses.
/// What they do is make the cheap attacks cheap to survive: one connection
/// cannot spend the server's memory, and one group cannot grow without bound.
#[derive(Debug, Clone, Copy)]
pub struct Limits {
    /// Connections held at once, across everyone.
    pub max_connections: usize,
    /// Devices in one group. A person with more than this has a different
    /// problem.
    pub max_members_per_group: usize,
    /// Longest wake-up token accepted. Real ones are a few hundred bytes;
    /// anything much larger is somebody using the service as storage.
    pub max_wake_token: usize,
    /// How many wake-up tokens to hold before dropping the oldest. They
    /// outlive connections on purpose, so something has to bound them.
    pub max_wake_tokens: usize,
    /// Messages one connection may send per second, averaged.
    pub messages_per_second: u32,
    /// How much of a burst to tolerate before the average applies. Announcing
    /// and immediately asking for several peers is normal.
    pub burst: u32,
    /// The largest message accepted, in bytes.
    pub max_message: usize,
}

impl Default for Limits {
    fn default() -> (limits: Self)
        ensures
            limits == (Limits {
                max_connections: 10_000,
                max_members_per_group: 64,
                max_wake_token: 4096,
                max_wake_tokens: 100_000,
                messages_per_second: 20,
                burst: 60,
                max_message: 16_384,
            }),
    {
        Limits {
            max_connections: 10_000,
            max_members_per_group: 64,
            max_wake_token: 4096,
            max_wake_tokens: 100_000,
            messages_per_second: 20,
            burst: 60,
            max_message: 16 * 1024,
        }
    }
}

impl Limits {
    /// Whether one more connection may be taken on while `held` are open.
    ///
    /// Asked before the handshake, so a flood costs an accept rather than an
    /// upgrade and a task.
    pub fn admits(&self, held: usize) -> (admitted: bool)
        ensures
            admitted == (held < self.max_connections),
    {
        held < self.max_connections
    }
}

/// Who a connection has announced itself as: the group, then the member.
pub type Who = (Seq<u8>, Seq<u8>);

/// Where a connected member is, and which connection is its own.
pub struct Seat {
    pub endpoints: Places,
    pub link: u64,
}

/// What the service knows.
pub struct Known {
    /// Who is connected, and where they say they are.
    pub members: Map<Who, Seat>,
    /// Who has been told somebody has something for them, but was not here to
    /// hear it: the group, the absent member, and who has something.
    pub waiting: Set<(Seq<u8>, Seq<u8>, Seq<u8>)>,
    /// How to wake each member that has said it can be, and when it said so.
    pub wake: Map<Who, (Seq<char>, u64)>,
}

struct Entry {
    group: GroupId,
    member: MemberId,
    endpoints: Endpoints,
    link: u64,
}

struct Note {
    group: GroupId,
    to: MemberId,
    from: MemberId,
}

struct Waking {
    group: GroupId,
    member: MemberId,
    token: WakeToken,
    at: u64,
}

/// Who is connected, and where they say they are.
///
/// Notes for absent members say only *that* there is work, never what. Two
/// devices that change a thousand files between them leave one note, because the
/// answer to "should I sync" is the same either way.
///
/// Wake-up tokens outlive both the connection and the group. A token is only
/// ever useful for a device that is *not* here, and the case that matters most
/// is everybody being away at once. So they are bounded by count instead, oldest
/// first. Devices register again on every connection, so an eviction costs at
/// most one missed wake-up and heals itself.
pub struct Directory {
    members: Vec<Entry>,
    waiting: Vec<Note>,
    wake: Vec<Waking>,
}

spec fn seats(s: Seq<Entry>) -> Seq<(Who, Seat)> {
    Seq::new(
        s.len(),
        |i: int|
            ((s[i].group@, s[i].member@), Seat { endpoints: s[i].endpoints@, link: s[i].link }),
    )
}

spec fn notes(s: Seq<Note>) -> Seq<((Seq<u8>, Seq<u8>, Seq<u8>), ())> {
    Seq::new(s.len(), |i: int| ((s[i].group@, s[i].to@, s[i].from@), ()))
}

spec fn tokens(s: Seq<Waking>) -> Seq<(Who, (Seq<char>, u64))> {
    Seq::new(s.len(), |i: int| ((s[i].group@, s[i].member@), (s[i].token@, s[i].at)))
}

impl View for Directory {
    type V = Known;

    closed spec fn view(&self) -> Known {
        Known {
            members: keyed::to_map(seats(self.members@)),
            waiting: keyed::to_map(notes(self.waiting@)).dom(),
            wake: keyed::to_map(tokens(self.wake@)),
        }
    }
}

/// A message and the connection that it goes to.
pub struct Delivery {
    pub link: u64,
    pub message: FromServer,
}

/// A message and the connection that it goes to, as values.
pub struct Sent {
    pub link: u64,
    pub message: Said,
}

impl View for Delivery {
    type V = Sent;

    open spec fn view(&self) -> Sent {
        Sent { link: self.link, message: self.message@ }
    }
}

/// Deliveries, as values.
pub open spec fn sent(s: Seq<Delivery>) -> Seq<Sent> {
    Seq::new(s.len(), |i: int| s[i]@)
}

/// The members of a group.
pub open spec fn group_members(k: Known, group: Seq<u8>) -> Set<Seq<u8>> {
    Set::new(|m: Seq<u8>| k.members.contains_key((group, m)))
}

/// Whether anyone of the group is connected.
pub open spec fn group_here(k: Known, group: Seq<u8>) -> bool {
    exists|m: Seq<u8>| #[trigger] k.members.contains_key((group, m))
}

/// A list of everyone else in the group, each once, with where they are.
pub open spec fn lists_others(
    others: Seq<Present>,
    k: Known,
    group: Seq<u8>,
    member: Seq<u8>,
) -> bool {
    &&& forall|i: int|
        #![trigger others[i]]
        0 <= i < others.len() ==> {
            &&& others[i].member != member
            &&& k.members.contains_key((group, others[i].member))
            &&& others[i].endpoints == k.members[(group, others[i].member)].endpoints
        }
    &&& forall|i: int, j: int|
        #![trigger others[i], others[j]]
        0 <= i < j < others.len() ==> others[i].member != others[j].member
    &&& forall|m: Seq<u8>| #[trigger]
        k.members.contains_key((group, m)) && m != member ==> exists|i: int|
            0 <= i < others.len() && (#[trigger] others[i]).member == m
}

/// A list of everyone who has something for the member, each once.
pub open spec fn lists_notes(
    from: Seq<Seq<u8>>,
    k: Known,
    group: Seq<u8>,
    member: Seq<u8>,
) -> bool {
    &&& forall|i: int|
        #![trigger from[i]]
        0 <= i < from.len() ==> k.waiting.contains((group, member, from[i]))
    &&& forall|i: int, j: int|
        #![trigger from[i], from[j]]
        0 <= i < j < from.len() ==> from[i] != from[j]
    &&& forall|f: Seq<u8>| #[trigger]
        k.waiting.contains((group, member, f)) ==> exists|i: int|
            0 <= i < from.len() && #[trigger] from[i] == f
}

/// Telling a connection who has something for it.
pub open spec fn told_waiting(from: Seq<Seq<u8>>, link: u64) -> Seq<Sent> {
    Seq::new(from.len(), |i: int| Sent { link, message: Said::Waiting { from: from[i] } })
}

/// Telling the others that somebody has arrived.
pub open spec fn told_arrival(
    others: Seq<Present>,
    k: Known,
    group: Seq<u8>,
    arrival: Present,
) -> Seq<Sent> {
    Seq::new(
        others.len(),
        |i: int|
            Sent {
                link: k.members[(group, others[i].member)].link,
                message: Said::Appeared { peer: arrival },
            },
    )
}

/// What is known once a member has announced itself.
pub open spec fn announced(k: Known, group: Seq<u8>, member: Seq<u8>, seat: Seat) -> Known {
    Known {
        members: k.members.insert((group, member), seat),
        waiting: Set::new(
            |n: (Seq<u8>, Seq<u8>, Seq<u8>)|
                k.waiting.contains(n) && !(n.0 == group && n.1 == member),
        ),
        wake: k.wake,
    }
}

/// What is known once a member has left. With the last member of a group go the
/// notes of that group; wake-up tokens stay.
pub open spec fn left(k: Known, group: Seq<u8>, member: Seq<u8>) -> Known {
    let members = k.members.remove((group, member));
    if group_here(k, group) && !(exists|m: Seq<u8>| #[trigger] members.contains_key((group, m))) {
        Known {
            members,
            waiting: Set::new(
                |n: (Seq<u8>, Seq<u8>, Seq<u8>)| k.waiting.contains(n) && n.0 != group,
            ),
            wake: k.wake,
        }
    } else {
        Known { members, waiting: k.waiting, wake: k.wake }
    }
}

/// What is known once a connection has gone.
pub open spec fn disconnected(k: Known, who: Option<Who>) -> Known {
    match who {
        Some(w) => left(k, w.0, w.1),
        None => k,
    }
}

/// `after` is what is left of `before` when the oldest tokens are dropped until
/// there are no more than `most`.
pub open spec fn oldest_dropped(
    before: Map<Who, (Seq<char>, u64)>,
    after: Map<Who, (Seq<char>, u64)>,
    most: nat,
) -> bool {
    &&& after.submap_of(before)
    &&& after.dom().finite()
    &&& after.dom().len() == if before.dom().len() <= most {
        before.dom().len()
    } else {
        most
    }
    &&& forall|dropped: Who, kept: Who|
        #![trigger before[dropped], before[kept]]
        before.contains_key(dropped) && !after.contains_key(dropped) && after.contains_key(kept)
            ==> before[dropped].1 <= before[kept].1
}

impl Directory {
    /// No member, no note and no token is held twice.
    pub closed spec fn wf(&self) -> bool {
        &&& keyed::distinct(seats(self.members@))
        &&& keyed::distinct(notes(self.waiting@))
        &&& keyed::distinct(tokens(self.wake@))
    }

    pub fn new() -> (directory: Self)
        ensures
            directory.wf(),
            directory@ == (Known {
                members: Map::empty(),
                waiting: Set::empty(),
                wake: Map::empty(),
            }),
    {
        let directory = Directory { members: Vec::new(), waiting: Vec::new(), wake: Vec::new() };
        proof {
            keyed::empty_map(seats(directory.members@));
            keyed::empty_map(notes(directory.waiting@));
            keyed::empty_map(tokens(directory.wake@));
            assert(directory@.waiting =~= Set::empty());
        }
        directory
    }

    fn seat_of(&self, group: &GroupId, member: &MemberId) -> (found: Option<usize>)
        requires
            self.wf(),
        ensures
            match found {
                Some(i) => {
                    &&& i < self.members@.len()
                    &&& self.members@[i as int].group@ == group@
                    &&& self.members@[i as int].member@ == member@
                    &&& self@.members.contains_key((group@, member@))
                    &&& self@.members[(group@, member@)] == seats(self.members@)[i as int].1
                },
                None => !self@.members.contains_key((group@, member@)),
            },
    {
        let ghost s = seats(self.members@);
        let mut i: usize = 0;
        while i < self.members.len()
            invariant
                i <= self.members@.len(),
                self.wf(),
                s == seats(self.members@),
                forall|j: int| 0 <= j < i ==> (#[trigger] s[j]).0 != (group@, member@),
            decreases self.members@.len() - i,
        {
            if self.members[i].group == *group && self.members[i].member == *member {
                proof {
                    keyed::entry_in_map(s, i as int);
                }
                return Some(i);
            }
            assert(s[i as int].0 != (group@, member@));
            i += 1;
        }
        proof {
            keyed::key_in_map(s, (group@, member@));
        }
        None
    }

    /// Whether the member is connected.
    pub fn is_here(&self, group: &GroupId, member: &MemberId) -> (here: bool)
        requires
            self.wf(),
        ensures
            here == self@.members.contains_key((group@, member@)),
    {
        self.seat_of(group, member).is_some()
    }

    /// Where a member is, and which connection is its own.
    pub fn look_up(&self, group: &GroupId, member: &MemberId) -> (found: Option<(Endpoints, u64)>)
        requires
            self.wf(),
        ensures
            match found {
                Some((endpoints, link)) => {
                    &&& self@.members.contains_key((group@, member@))
                    &&& self@.members[(group@, member@)] == (Seat { endpoints: endpoints@, link })
                },
                None => !self@.members.contains_key((group@, member@)),
            },
    {
        match self.seat_of(group, member) {
            Some(i) => Some((self.members[i].endpoints.clone(), self.members[i].link)),
            None => None,
        }
    }
}

/// The entries without the one at `at`.
proof fn seats_removed(s: Seq<Entry>, at: int)
    requires
        0 <= at < s.len(),
    ensures
        seats(s.remove(at)) == seats(s).remove(at),
{
    assert(seats(s.remove(at)) =~= seats(s).remove(at));
}

proof fn notes_removed(s: Seq<Note>, at: int)
    requires
        0 <= at < s.len(),
    ensures
        notes(s.remove(at)) == notes(s).remove(at),
{
    assert(notes(s.remove(at)) =~= notes(s).remove(at));
}

proof fn tokens_removed(s: Seq<Waking>, at: int)
    requires
        0 <= at < s.len(),
    ensures
        tokens(s.remove(at)) == tokens(s).remove(at),
{
    assert(tokens(s.remove(at)) =~= tokens(s).remove(at));
}

impl Directory {
    /// Takes out the notes for a member, and says who left them.
    fn take_notes(&mut self, group: &GroupId, member: &MemberId) -> (from: Vec<MemberId>)
        requires
            old(self).wf(),
        ensures
            final(self).wf(),
            final(self)@.members == old(self)@.members,
            final(self)@.wake == old(self)@.wake,
            final(self)@.waiting == Set::new(
                |n: (Seq<u8>, Seq<u8>, Seq<u8>)|
                    old(self)@.waiting.contains(n) && !(n.0 == group@ && n.1 == member@),
            ),
            lists_notes(member_views(from@), old(self)@, group@, member@),
    {
        let ghost before = self@.waiting;
        let mut from: Vec<MemberId> = Vec::new();
        let mut i: usize = 0;
        while i < self.waiting.len()
            invariant
                i <= self.waiting@.len(),
                self.wf(),
                self@.members == old(self)@.members,
                self@.wake == old(self)@.wake,
                before == old(self)@.waiting,
                forall|n: (Seq<u8>, Seq<u8>, Seq<u8>)| #[trigger]
                    self@.waiting.contains(n) ==> before.contains(n),
                forall|n: (Seq<u8>, Seq<u8>, Seq<u8>)| #[trigger]
                    before.contains(n) ==> self@.waiting.contains(n) || (n.0 == group@ && n.1
                        == member@ && member_views(from@).contains(n.2)),
                forall|k: int|
                    #![trigger member_views(from@)[k]]
                    0 <= k < from@.len() ==> {
                        let n = (group@, member@, member_views(from@)[k]);
                        before.contains(n) && !self@.waiting.contains(n)
                    },
                forall|k: int, l: int|
                    #![trigger member_views(from@)[k], member_views(from@)[l]]
                    0 <= k < l < from@.len() ==> member_views(from@)[k] != member_views(from@)[l],
                forall|k: int|
                    #![trigger self.waiting@[k]]
                    0 <= k < i ==> !(self.waiting@[k].group@ == group@ && self.waiting@[k].to@
                        == member@),
            decreases self.waiting@.len() - i,
        {
            let ghost s = notes(self.waiting@);
            let ghost was = self@.waiting;
            let ghost got = member_views(from@);
            proof {
                keyed::entry_in_map(s, i as int);
            }
            if self.waiting[i].group == *group && self.waiting[i].to == *member {
                let ghost all = self.waiting@;
                let note: Note = self.waiting.remove(i);
                from.push(note.from);
                proof {
                    let n = (group@, member@, note.from@);
                    assert(s[i as int].0 == n);
                    notes_removed(all, i as int);
                    keyed::removed(s, i as int);
                    assert(self@.waiting =~= was.remove(n));
                    let now = member_views(from@);
                    assert(now =~= got.push(n.2));
                    assert(now[got.len() as int] == n.2);
                    assert forall|x: (Seq<u8>, Seq<u8>, Seq<u8>)| #[trigger]
                        before.contains(x) implies self@.waiting.contains(x) || (x.0 == group@
                        && x.1 == member@ && now.contains(x.2)) by {
                        if !was.contains(x) {
                            let k = choose|k: int| 0 <= k < got.len() && got[k] == x.2;
                            assert(now[k] == x.2);
                        }
                    }
                    assert forall|k: int| #![trigger now[k]] 0 <= k < now.len() implies before.contains(
                        (group@, member@, now[k]),
                    ) && !self@.waiting.contains((group@, member@, now[k])) by {
                        if k < got.len() {
                            assert(now[k] == got[k]);
                        }
                    }
                    assert forall|k: int, l: int|
                        #![trigger now[k], now[l]]
                        0 <= k < l < now.len() implies now[k] != now[l] by {
                        assert(now[k] == got[k]);
                        if l < got.len() {
                            assert(now[l] == got[l]);
                        }
                    }
                }
            } else {
                i += 1;
            }
        }
        proof {
            let left = self@.waiting;
            assert forall|n: (Seq<u8>, Seq<u8>, Seq<u8>)| #[trigger] left.contains(n) implies !(n.0
                == group@ && n.1 == member@) by {
                keyed::key_in_map(notes(self.waiting@), n);
                let k = keyed::position(notes(self.waiting@), n);
                assert(self.waiting@[k].group@ == n.0 && self.waiting@[k].to@ == n.1);
            }
            assert(left =~= Set::new(
                |n: (Seq<u8>, Seq<u8>, Seq<u8>)|
                    before.contains(n) && !(n.0 == group@ && n.1 == member@),
            ));
            let now = member_views(from@);
            assert forall|f: Seq<u8>| #[trigger] before.contains((group@, member@, f)) implies exists|i: int|
                0 <= i < now.len() && #[trigger] now[i] == f by {
                assert(!left.contains((group@, member@, f)));
            }
        }
        from
    }

    /// Somebody arrives, or says again where they are. Gives who else is here,
    /// and what to tell whom.
    ///
    /// Anything noted while this member was away is delivered now: a device that
    /// was asleep when a change happened would otherwise not learn of it until
    /// its own next poll. And everyone already here is told that this one has
    /// arrived; without it they would have to discover it by asking, and a peer
    /// that asks on a backoff will not be asking during the few seconds a phone
    /// is awake.
    pub fn announce(
        &mut self,
        group: GroupId,
        member: MemberId,
        endpoints: Endpoints,
        link: u64,
    ) -> (told: (Vec<Presence>, Vec<Delivery>))
        requires
            old(self).wf(),
        ensures
            final(self).wf(),
            final(self)@ == announced(
                old(self)@,
                group@,
                member@,
                Seat { endpoints: endpoints@, link },
            ),
            announcement(
                message::presences(told.0@),
                sent(told.1@),
                old(self)@,
                group@,
                Present { member: member@, endpoints: endpoints@ },
                link,
            ),
            forall|m: Seq<u8>| #[trigger]
                old(self)@.members.contains_key((group@, m)) && m != member@
                    ==> introductions::is_sent(
                    sent(told.1@),
                    old(self)@.members[(group@, m)].link,
                    Said::Appeared { peer: Present { member: member@, endpoints: endpoints@ } },
                ),
    {
        let ghost before = self@;
        let waiting: Vec<MemberId> = self.take_notes(&group, &member);
        let ghost from = member_views(waiting@);
        let mut sends: Vec<Delivery> = Vec::new();
        let mut i: usize = 0;
        while i < waiting.len()
            invariant
                i <= waiting@.len(),
                from == member_views(waiting@),
                sends@.len() == i,
                forall|k: int|
                    #![trigger sends@[k]]
                    0 <= k < i ==> sends@[k]@ == told_waiting(from, link)[k],
            decreases waiting@.len() - i,
        {
            sends.push(Delivery { link, message: FromServer::Waiting { from: waiting[i] } });
            i += 1;
        }
        let ghost arrival = Present { member: member@, endpoints: endpoints@ };
        let mut others: Vec<Presence> = Vec::new();
        let mut j: usize = 0;
        let ghost s = seats(self.members@);
        assert(sent(sends@) =~= told_waiting(from, link) + arrivals(
            picked(s, group@, member@, 0),
            arrival,
        ));
        assert(message::presences(others@) =~= present(picked(s, group@, member@, 0)));
        while j < self.members.len()
            invariant
                j <= self.members@.len(),
                s == seats(self.members@),
                arrival == (Present { member: member@, endpoints: endpoints@ }),
                sent(sends@) == told_waiting(from, link) + arrivals(
                    picked(s, group@, member@, j as nat),
                    arrival,
                ),
                message::presences(others@) == present(picked(s, group@, member@, j as nat)),
            decreases self.members@.len() - j,
        {
            let ghost p = picked(s, group@, member@, j as nat);
            let ghost q = picked(s, group@, member@, (j + 1) as nat);
            if self.members[j].group == group && self.members[j].member != member {
                let peer: MemberId = self.members[j].member;
                let their_link: u64 = self.members[j].link;
                let ghost was = sent(sends@);
                let ghost were = message::presences(others@);
                others.push(Presence { member: peer, endpoints: self.members[j].endpoints.clone() });
                // A send that fails means that member's connection has gone;
                // whoever holds it cleans up. Nothing to do here.
                let newcomer: Presence = Presence { member, endpoints: endpoints.clone() };
                sends.push(
                    Delivery {
                        link: their_link,
                        message: FromServer::Appeared { peer: newcomer },
                    },
                );
                proof {
                    assert(q == p.push((s[j as int].0.1, s[j as int].1)));
                    assert(newcomer@ == arrival);
                    assert(arrivals(q, arrival) =~= arrivals(p, arrival).push(
                        Sent { link: their_link, message: Said::Appeared { peer: arrival } },
                    ));
                    assert(sent(sends@) =~= was.push(
                        Sent { link: their_link, message: Said::Appeared { peer: arrival } },
                    ));
                    assert(sent(sends@) =~= told_waiting(from, link) + arrivals(q, arrival));
                    assert(message::presences(others@) =~= were.push(others@.last()@));
                    assert(message::presences(others@) =~= present(q));
                }
            }
            j += 1;
        }
        proof {
            let p = picked(s, group@, member@, s.len());
            picked_are_others(s, group@, member@, s.len());
            assert(before.members == keyed::to_map(s));
            assert(lists_others(present(p), before, group@, member@)) by {
                others_listed(s, before, group@, member@);
            }
            assert(arrivals(p, arrival) =~= told_arrival(present(p), before, group@, arrival));
        }
        self.put_seat(group, member, endpoints, link);
        proof {
            assert(self@.waiting =~= announced(
                before,
                group@,
                member@,
                Seat { endpoints: endpoints@, link },
            ).waiting);
            introductions::law_an_arrival_is_told_to_everybody_here(
                message::presences(others@),
                sent(sends@),
                before,
                group@,
                member@,
                endpoints@,
                link,
            );
        }
        (others, sends)
    }

    /// Seats a member, in place of where it sat before.
    fn put_seat(&mut self, group: GroupId, member: MemberId, endpoints: Endpoints, link: u64)
        requires
            old(self).wf(),
        ensures
            final(self).wf(),
            final(self)@.members == old(self)@.members.insert(
                (group@, member@),
                Seat { endpoints: endpoints@, link },
            ),
            final(self)@.waiting == old(self)@.waiting,
            final(self)@.wake == old(self)@.wake,
    {
        let ghost s = seats(self.members@);
        let entry: Entry = Entry { group, member, endpoints, link };
        let ghost pair = (
            (group@, member@),
            Seat { endpoints: endpoints@, link },
        );
        match self.seat_of(&group, &member) {
            Some(i) => {
                self.members.set(i, entry);
                proof {
                    keyed::replaced(s, i as int, pair);
                    assert(seats(self.members@) =~= s.update(i as int, pair));
                }
            },
            None => {
                self.members.push(entry);
                proof {
                    keyed::pushed(s, pair);
                    assert(seats(self.members@) =~= s.push(pair));
                }
            },
        }
    }
}

/// Everyone else in the group among the first `n` entries.
spec fn picked(s: Seq<(Who, Seat)>, group: Seq<u8>, member: Seq<u8>, n: nat) -> Seq<
    (Seq<u8>, Seat),
>
    decreases n,
{
    if n == 0 {
        Seq::empty()
    } else {
        let before = picked(s, group, member, (n - 1) as nat);
        let e = s[n - 1];
        if e.0.0 == group && e.0.1 != member {
            before.push((e.0.1, e.1))
        } else {
            before
        }
    }
}

spec fn present(p: Seq<(Seq<u8>, Seat)>) -> Seq<Present> {
    Seq::new(p.len(), |i: int| Present { member: p[i].0, endpoints: p[i].1.endpoints })
}

spec fn arrivals(p: Seq<(Seq<u8>, Seat)>, arrival: Present) -> Seq<Sent> {
    Seq::new(
        p.len(),
        |i: int| Sent { link: p[i].1.link, message: Said::Appeared { peer: arrival } },
    )
}

/// Whether a key stands among the first `n` entries.
spec fn stands_below(s: Seq<(Who, Seat)>, k: Who, n: int) -> bool {
    exists|a: int| 0 <= a < n && (#[trigger] s[a]).0 == k
}

/// Those picked are members of the group, none of them twice, and nobody is
/// passed over.
proof fn picked_are_others(s: Seq<(Who, Seat)>, group: Seq<u8>, member: Seq<u8>, n: nat)
    requires
        keyed::distinct(s),
        n <= s.len(),
    ensures
        ({
            let p = picked(s, group, member, n);
            &&& keyed::distinct(p)
            &&& forall|i: int|
                #![trigger p[i]]
                0 <= i < p.len() ==> {
                    &&& p[i].0 != member
                    &&& stands_below(s, (group, p[i].0), n as int)
                    &&& keyed::to_map(s).contains_key((group, p[i].0))
                    &&& keyed::to_map(s)[(group, p[i].0)] == p[i].1
                }
            &&& forall|a: int|
                #![trigger s[a]]
                0 <= a < n && s[a].0.0 == group && s[a].0.1 != member ==> keyed::holds(
                    p,
                    s[a].0.1,
                )
        }),
    decreases n,
{
    if n > 0 {
        let m = (n - 1) as nat;
        picked_are_others(s, group, member, m);
        let p = picked(s, group, member, m);
        let q = picked(s, group, member, n);
        let e = s[n - 1];
        keyed::entry_in_map(s, n - 1);
        let chosen = e.0.0 == group && e.0.1 != member;
        assert forall|i: int| #![trigger p[i]] 0 <= i < p.len() implies stands_below(
            s,
            (group, p[i].0),
            n as int,
        ) && (chosen ==> p[i].0 != e.0.1) by {
            let a = choose|a: int| 0 <= a < m && (#[trigger] s[a]).0 == (group, p[i].0);
            if chosen && p[i].0 == e.0.1 {
                assert(s[a].0 == e.0);
                keyed::one_position(s, a, n - 1);
            }
        }
        if chosen {
            assert(q == p.push((e.0.1, e.1)));
            assert(s[n - 1].0 == (group, e.0.1));
            assert(stands_below(s, (group, e.0.1), n as int));
            assert forall|i: int, j: int|
                #![trigger q[i], q[j]]
                0 <= i < j < q.len() implies q[i].0 != q[j].0 by {
                assert(q[i] == p[i]);
                if j < p.len() {
                    assert(q[j] == p[j]);
                }
            }
            assert forall|i: int| #![trigger q[i]] 0 <= i < q.len() implies {
                &&& q[i].0 != member
                &&& stands_below(s, (group, q[i].0), n as int)
                &&& keyed::to_map(s).contains_key((group, q[i].0))
                &&& keyed::to_map(s)[(group, q[i].0)] == q[i].1
            } by {
                if i < p.len() {
                    assert(q[i] == p[i]);
                }
            }
            assert forall|a: int|
                #![trigger s[a]]
                0 <= a < n && s[a].0.0 == group && s[a].0.1 != member implies keyed::holds(
                q,
                s[a].0.1,
            ) by {
                if a < m {
                    let i = keyed::position(p, s[a].0.1);
                    assert(q[i].0 == s[a].0.1);
                } else {
                    assert(q[p.len() as int].0 == s[a].0.1);
                }
            }
        }
    }
}

/// Those picked from all entries are everyone else in the group.
proof fn others_listed(s: Seq<(Who, Seat)>, k: Known, group: Seq<u8>, member: Seq<u8>)
    requires
        keyed::distinct(s),
        k.members == keyed::to_map(s),
    ensures
        lists_others(present(picked(s, group, member, s.len())), k, group, member),
{
    let p = picked(s, group, member, s.len());
    let others = present(p);
    picked_are_others(s, group, member, s.len());
    assert forall|i: int| #![trigger others[i]] 0 <= i < others.len() implies {
        &&& others[i].member != member
        &&& k.members.contains_key((group, others[i].member))
        &&& others[i].endpoints == k.members[(group, others[i].member)].endpoints
    } by {
        assert(p[i].0 == others[i].member);
    }
    assert forall|i: int, j: int|
        #![trigger others[i], others[j]]
        0 <= i < j < others.len() implies others[i].member != others[j].member by {
        assert(p[i].0 != p[j].0);
    }
    assert forall|m: Seq<u8>| #[trigger]
        k.members.contains_key((group, m)) && m != member implies exists|i: int|
        0 <= i < others.len() && (#[trigger] others[i]).member == m by {
        keyed::key_in_map(s, (group, m));
        let a = keyed::position(s, (group, m));
        assert(s[a].0 == (group, m));
        assert(keyed::holds(p, m));
        let i = keyed::position(p, m);
        assert(others[i].member == m);
    }
}

/// Who is told what when somebody arrives: the newcomer what has been waiting
/// for it, and the others that it has come.
pub open spec fn announcement(
    others: Seq<Present>,
    sends: Seq<Sent>,
    k: Known,
    group: Seq<u8>,
    arrival: Present,
    link: u64,
) -> bool {
    &&& lists_others(others, k, group, arrival.member)
    &&& exists|from: Seq<Seq<u8>>| #[trigger]
        lists_notes(from, k, group, arrival.member) && sends == told_waiting(from, link)
            + told_arrival(others, k, group, arrival)
}

/// Members, as values.
pub open spec fn member_views(s: Seq<MemberId>) -> Seq<Seq<u8>> {
    Seq::new(s.len(), |i: int| s[i]@)
}

impl Directory {
    /// Note that `from` has something for `to`. Gives the connection to tell, if
    /// the recipient is here; if not, the note is kept for when it next
    /// announces.
    pub fn note_waiting(&mut self, group: GroupId, from: MemberId, to: MemberId) -> (tell: Option<
        Delivery,
    >)
        requires
            old(self).wf(),
        ensures
            final(self).wf(),
            final(self)@.members == old(self)@.members,
            final(self)@.wake == old(self)@.wake,
            match tell {
                Some(delivery) => {
                    &&& old(self)@.members.contains_key((group@, to@))
                    &&& delivery@ == (Sent {
                        link: old(self)@.members[(group@, to@)].link,
                        message: Said::Waiting { from: from@ },
                    })
                    &&& final(self)@.waiting == old(self)@.waiting
                },
                None => {
                    &&& !old(self)@.members.contains_key((group@, to@))
                    &&& final(self)@.waiting == old(self)@.waiting.insert((group@, to@, from@))
                },
            },
    {
        match self.seat_of(&group, &to) {
            Some(i) => Some(
                Delivery { link: self.members[i].link, message: FromServer::Waiting { from } },
            ),
            None => {
                let ghost s = notes(self.waiting@);
                let ghost key = (group@, to@, from@);
                let mut i: usize = 0;
                while i < self.waiting.len()
                    invariant
                        i <= self.waiting@.len(),
                        *self == *old(self),
                        s == notes(self.waiting@),
                        key == (group@, to@, from@),
                        self.wf(),
                        forall|j: int| 0 <= j < i ==> (#[trigger] s[j]).0 != key,
                        !old(self)@.members.contains_key((group@, to@)),
                    decreases self.waiting@.len() - i,
                {
                    if self.waiting[i].group == group && self.waiting[i].to == to
                        && self.waiting[i].from == from {
                        proof {
                            keyed::entry_in_map(s, i as int);
                            assert(self@.waiting =~= self@.waiting.insert(key));
                        }
                        return None;
                    }
                    assert(s[i as int].0 != key);
                    i += 1;
                }
                proof {
                    keyed::key_in_map(s, key);
                    keyed::pushed(s, (key, ()));
                }
                self.waiting.push(Note { group, to, from });
                proof {
                    assert(notes(self.waiting@) =~= s.push((key, ())));
                    assert(self@.waiting =~= old(self)@.waiting.insert(key));
                }
                None
            },
        }
    }

    fn token_of(&self, group: &GroupId, member: &MemberId) -> (found: Option<usize>)
        requires
            self.wf(),
        ensures
            match found {
                Some(i) => {
                    &&& i < self.wake@.len()
                    &&& tokens(self.wake@)[i as int].0 == (group@, member@)
                    &&& self@.wake.contains_key((group@, member@))
                    &&& self@.wake[(group@, member@)] == tokens(self.wake@)[i as int].1
                },
                None => !self@.wake.contains_key((group@, member@)),
            },
    {
        let ghost s = tokens(self.wake@);
        let mut i: usize = 0;
        while i < self.wake.len()
            invariant
                i <= self.wake@.len(),
                self.wf(),
                s == tokens(self.wake@),
                forall|j: int| 0 <= j < i ==> (#[trigger] s[j]).0 != (group@, member@),
            decreases self.wake@.len() - i,
        {
            if self.wake[i].group == *group && self.wake[i].member == *member {
                proof {
                    keyed::entry_in_map(s, i as int);
                }
                return Some(i);
            }
            assert(s[i as int].0 != (group@, member@));
            i += 1;
        }
        proof {
            keyed::key_in_map(s, (group@, member@));
        }
        None
    }

    /// How to wake a member, if it has said.
    pub fn wake_token(&self, group: &GroupId, member: &MemberId) -> (token: Option<WakeToken>)
        requires
            self.wf(),
        ensures
            match token {
                Some(t) => self@.wake.contains_key((group@, member@)) && t@ == self@.wake[(
                    group@,
                    member@,
                )].0,
                None => !self@.wake.contains_key((group@, member@)),
            },
    {
        match self.token_of(group, member) {
            Some(i) => Some(self.wake[i].token.clone()),
            None => None,
        }
    }

    /// Remembers or forgets how to wake a member, keeping no more than `most`
    /// tokens.
    pub fn set_wake_token(
        &mut self,
        group: GroupId,
        member: MemberId,
        token: Option<WakeToken>,
        most: usize,
        now: u64,
    )
        requires
            old(self).wf(),
        ensures
            final(self).wf(),
            final(self)@.members == old(self)@.members,
            final(self)@.waiting == old(self)@.waiting,
            match token {
                Some(t) => oldest_dropped(
                    old(self)@.wake.insert((group@, member@), (t@, now)),
                    final(self)@.wake,
                    most as nat,
                ),
                None => final(self)@.wake == old(self)@.wake.remove((group@, member@)),
            },
    {
        let ghost s = tokens(self.wake@);
        let found: Option<usize> = self.token_of(&group, &member);
        match token {
            Some(token) => {
                let ghost pair = ((group@, member@), (token@, now));
                let entry: Waking = Waking { group, member, token, at: now };
                match found {
                    Some(i) => {
                        self.wake.set(i, entry);
                        proof {
                            keyed::replaced(s, i as int, pair);
                            assert(tokens(self.wake@) =~= s.update(i as int, pair));
                        }
                    },
                    None => {
                        self.wake.push(entry);
                        proof {
                            keyed::pushed(s, pair);
                            assert(tokens(self.wake@) =~= s.push(pair));
                        }
                    },
                }
                self.evict_wake_tokens(most);
            },
            None => {
                match found {
                    Some(i) => {
                        let ghost all = self.wake@;
                        self.wake.remove(i);
                        proof {
                            tokens_removed(all, i as int);
                            keyed::removed(s, i as int);
                        }
                    },
                    None => {
                        assert(self@.wake =~= self@.wake.remove((group@, member@)));
                    },
                }
            },
        }
    }

    /// Keep the number of tokens under `most`, dropping the oldest.
    ///
    /// Unbounded growth here is a slow leak keyed on something anyone can
    /// generate for free. Oldest-first because the newest registration is the
    /// one most likely to still be valid.
    fn evict_wake_tokens(&mut self, most: usize)
        requires
            old(self).wf(),
        ensures
            final(self).wf(),
            final(self)@.members == old(self)@.members,
            final(self)@.waiting == old(self)@.waiting,
            oldest_dropped(old(self)@.wake, final(self)@.wake, most as nat),
    {
        let ghost before = self@.wake;
        proof {
            keyed::map_size(tokens(self.wake@));
        }
        while self.wake.len() > most
            invariant
                self.wf(),
                self@.members == old(self)@.members,
                self@.waiting == old(self)@.waiting,
                before == old(self)@.wake,
                before.dom().finite(),
                self@.wake.submap_of(before),
                self.wake@.len() <= before.dom().len(),
                before.dom().len() <= most ==> self.wake@.len() == before.dom().len(),
                before.dom().len() > most ==> self.wake@.len() >= most,
                forall|dropped: Who, kept: Who|
                    #![trigger before[dropped], before[kept]]
                    before.contains_key(dropped) && !self@.wake.contains_key(dropped)
                        && self@.wake.contains_key(kept) ==> before[dropped].1 <= before[kept].1,
            decreases self.wake@.len(),
        {
            let ghost s = tokens(self.wake@);
            let ghost was = self@.wake;
            let oldest: usize = self.oldest_token();
            let ghost all = self.wake@;
            let ghost gone = s[oldest as int].0;
            self.wake.remove(oldest);
            proof {
                tokens_removed(all, oldest as int);
                keyed::removed(s, oldest as int);
                keyed::entry_in_map(s, oldest as int);
                assert(self@.wake == was.remove(gone));
                assert forall|dropped: Who, kept: Who|
                    #![trigger before[dropped], before[kept]]
                    before.contains_key(dropped) && !self@.wake.contains_key(dropped)
                        && self@.wake.contains_key(kept) implies before[dropped].1
                    <= before[kept].1 by {
                    assert(was.contains_key(kept));
                    if was.contains_key(dropped) {
                        assert(dropped == gone);
                        keyed::key_in_map(s, kept);
                        let k = keyed::position(s, kept);
                        keyed::entry_in_map(s, k);
                        assert(all[k].at >= all[oldest as int].at);
                        assert(was.dom().contains(kept) && was.dom().contains(gone));
                        assert(before.dom().contains(kept) && before.dom().contains(gone));
                        assert(before[kept] == was[kept]);
                        assert(before[gone] == was[gone]);
                    }
                }
            }
        }
        proof {
            keyed::map_size(tokens(self.wake@));
        }
    }

    /// The token that was given longest ago.
    fn oldest_token(&self) -> (at: usize)
        requires
            self.wake@.len() > 0,
        ensures
            at < self.wake@.len(),
            forall|k: int|
                #![trigger self.wake@[k]]
                0 <= k < self.wake@.len() ==> self.wake@[at as int].at <= self.wake@[k].at,
    {
        let mut best: usize = 0;
        let mut i: usize = 1;
        while i < self.wake.len()
            invariant
                best < i <= self.wake@.len(),
                forall|k: int|
                    #![trigger self.wake@[k]]
                    0 <= k < i ==> self.wake@[best as int].at <= self.wake@[k].at,
            decreases self.wake@.len() - i,
        {
            if self.wake[i].at < self.wake[best].at {
                best = i;
            }
            i += 1;
        }
        best
    }

    /// A member's connection is gone.
    ///
    /// No empty group is left behind, nor are notes for one: a server that
    /// accumulates an entry per group it has ever seen has a slow leak keyed on
    /// something anyone can generate for free. Wake-up tokens deliberately
    /// survive.
    pub fn leave(&mut self, group: &GroupId, member: &MemberId)
        requires
            old(self).wf(),
        ensures
            final(self).wf(),
            final(self)@ == left(old(self)@, group@, member@),
    {
        let ghost before = self@;
        match self.seat_of(group, member) {
            Some(i) => {
                let ghost s = seats(self.members@);
                let ghost all = self.members@;
                self.members.remove(i);
                proof {
                    seats_removed(all, i as int);
                    keyed::removed(s, i as int);
                }
                if self.count_members(group) == 0 {
                    self.forget_notes(group);
                    proof {
                        assert(self@.waiting =~= left(before, group@, member@).waiting);
                    }
                }
            },
            None => {
                assert(self@.members =~= self@.members.remove((group@, member@)));
                proof {
                    if group_here(before, group@) {
                        let m = choose|m: Seq<u8>| #[trigger]
                            before.members.contains_key((group@, m));
                        assert(before.members.remove((group@, member@)).contains_key((group@, m)));
                    }
                }
            },
        }
    }

    /// How many members of the group are connected.
    fn count_members(&self, group: &GroupId) -> (n: usize)
        requires
            self.wf(),
        ensures
            group_members(self@, group@).finite(),
            n == group_members(self@, group@).len(),
            n == 0 <==> !group_here(self@, group@),
    {
        let ghost s = seats(self.members@);
        let mut n: usize = 0;
        let mut i: usize = 0;
        assert(members_below(s, group@, 0) =~= Set::empty());
        while i < self.members.len()
            invariant
                i <= self.members@.len(),
                n <= i,
                self.wf(),
                s == seats(self.members@),
                members_below(s, group@, i as int).finite(),
                n == members_below(s, group@, i as int).len(),
            decreases self.members@.len() - i,
        {
            let ghost was = members_below(s, group@, i as int);
            if self.members[i].group == *group {
                n += 1;
                proof {
                    let m = s[i as int].0.1;
                    assert(!was.contains(m)) by {
                        if was.contains(m) {
                            let a = choose|a: int| 0 <= a < i && (#[trigger] s[a]).0 == (group@, m);
                            keyed::one_position(s, a, i as int);
                        }
                    }
                    assert forall|x: Seq<u8>| members_below(s, group@, i + 1).contains(x)
                        == was.insert(m).contains(x) by {
                        below_grows(s, group@, x, i as int);
                    }
                    assert(members_below(s, group@, i + 1) =~= was.insert(m));
                }
            } else {
                proof {
                    assert forall|x: Seq<u8>| members_below(s, group@, i + 1).contains(x)
                        == was.contains(x) by {
                        below_grows(s, group@, x, i as int);
                    }
                    assert(members_below(s, group@, i + 1) =~= was);
                }
            }
            i += 1;
        }
        proof {
            let all = group_members(self@, group@);
            assert forall|m: Seq<u8>| members_below(s, group@, i as int).contains(m)
                == all.contains(m) by {
                keyed::key_in_map(s, (group@, m));
                if stands_below(s, (group@, m), i as int) {
                    assert(keyed::holds(s, (group@, m)));
                }
                if keyed::holds(s, (group@, m)) {
                    let a = keyed::position(s, (group@, m));
                    assert(s[a].0 == (group@, m));
                }
            }
            assert(members_below(s, group@, i as int) =~= all);
            if group_here(self@, group@) {
                let m = choose|m: Seq<u8>| #[trigger] self@.members.contains_key((group@, m));
                assert(all.contains(m));
                vstd::set::axiom_set_contains_len(all, m);
            } else if n > 0 {
                assert(all.len() > 0);
                let m = all.choose();
                vstd::set::axiom_set_choose_len(all);
                assert(all.contains(m));
                assert(self@.members.contains_key((group@, m)));
            }
        }
        n
    }

    /// Drops the notes of a whole group.
    fn forget_notes(&mut self, group: &GroupId)
        requires
            old(self).wf(),
        ensures
            final(self).wf(),
            final(self)@.members == old(self)@.members,
            final(self)@.wake == old(self)@.wake,
            final(self)@.waiting == Set::new(
                |n: (Seq<u8>, Seq<u8>, Seq<u8>)| old(self)@.waiting.contains(n) && n.0 != group@,
            ),
    {
        let ghost before = self@.waiting;
        let mut i: usize = 0;
        while i < self.waiting.len()
            invariant
                i <= self.waiting@.len(),
                self.wf(),
                self@.members == old(self)@.members,
                self@.wake == old(self)@.wake,
                before == old(self)@.waiting,
                forall|n: (Seq<u8>, Seq<u8>, Seq<u8>)| #[trigger]
                    self@.waiting.contains(n) ==> before.contains(n),
                forall|n: (Seq<u8>, Seq<u8>, Seq<u8>)| #[trigger]
                    before.contains(n) && n.0 != group@ ==> self@.waiting.contains(n),
                forall|k: int|
                    #![trigger self.waiting@[k]]
                    0 <= k < i ==> self.waiting@[k].group@ != group@,
            decreases self.waiting@.len() - i,
        {
            if self.waiting[i].group == *group {
                let ghost all = self.waiting@;
                let ghost s = notes(all);
                let ghost was = self@.waiting;
                self.waiting.remove(i);
                proof {
                    notes_removed(all, i as int);
                    keyed::removed(s, i as int);
                    assert(self@.waiting =~= was.remove(s[i as int].0));
                }
            } else {
                i += 1;
            }
        }
        proof {
            assert forall|n: (Seq<u8>, Seq<u8>, Seq<u8>)| #[trigger] self@.waiting.contains(
                n,
            ) implies n.0 != group@ by {
                keyed::key_in_map(notes(self.waiting@), n);
                let k = keyed::position(notes(self.waiting@), n);
                assert(self.waiting@[k].group@ == n.0);
            }
            assert(self@.waiting =~= Set::new(
                |n: (Seq<u8>, Seq<u8>, Seq<u8>)| before.contains(n) && n.0 != group@,
            ));
        }
    }
}

/// The members of a group among the first `n` entries.
spec fn members_below(s: Seq<(Who, Seat)>, group: Seq<u8>, n: int) -> Set<Seq<u8>> {
    Set::new(|m: Seq<u8>| stands_below(s, (group, m), n))
}

proof fn below_grows(s: Seq<(Who, Seat)>, group: Seq<u8>, m: Seq<u8>, n: int)
    requires
        0 <= n < s.len(),
    ensures
        stands_below(s, (group, m), n + 1) == (stands_below(s, (group, m), n) || s[n].0 == (
            group,
            m,
        )),
{
    if stands_below(s, (group, m), n) {
        let a = choose|a: int| 0 <= a < n && (#[trigger] s[a]).0 == (group, m);
        assert(s[a].0 == (group, m));
    }
}

/// One connection: its link, and who it has announced itself as.
///
/// A connection that never announces can do nothing, which is what stops an
/// unannounced client from using the server as a directory of other people's
/// addresses.
pub struct Session {
    pub link: u64,
    pub identity: Option<(GroupId, MemberId)>,
}

impl Session {
    /// Who the connection has announced itself as.
    pub open spec fn who(&self) -> Option<Who> {
        match self.identity {
            Some((group, member)) => Some((group@, member@)),
            None => None,
        }
    }

    /// A connection that has not announced itself yet.
    pub fn new(link: u64) -> (session: Self)
        ensures
            session.link == link,
            session.who() is None,
    {
        Session { link, identity: None }
    }
}

/// What comes of a request: what to tell whom, and whom to wake.
pub struct Answer {
    pub sends: Vec<Delivery>,
    pub wake: Option<WakeToken>,
}

impl Answer {
    /// The token to wake somebody by, as a value.
    pub open spec fn waking(&self) -> Option<Seq<char>> {
        match self.wake {
            Some(token) => Some(token@),
            None => None,
        }
    }
}

/// The connection itself is told that something was wrong.
pub open spec fn refused(link: u64, detail: Seq<char>) -> Seq<Sent> {
    seq![Sent { link, message: Said::Error { detail } }]
}

/// A group that takes nobody new.
pub open spec fn full(k: Known, group: Seq<u8>, limits: Limits) -> bool {
    group_here(k, group) && group_members(k, group).len() >= limits.max_members_per_group
}

/// What is known once whoever the connection was before has left, if it now
/// announces itself as somebody else.
pub open spec fn vacated(k: Known, who: Option<Who>, next: Who) -> Known {
    match who {
        Some(previous) => if previous != next {
            left(k, previous.0, previous.1)
        } else {
            k
        },
        None => k,
    }
}

/// What an announcement leads to.
pub open spec fn announce_answered(
    k: Known,
    who: Option<Who>,
    link: u64,
    next: Who,
    endpoints: Places,
    limits: Limits,
    after: Known,
    who_after: Option<Who>,
    sends: Seq<Sent>,
) -> bool {
    if full(k, next.0, limits) && !k.members.contains_key(next) {
        after == k && who_after == who && sends == refused(link, "group is full"@)
    } else {
        let here = vacated(k, who, next);
        let arrival = Present { member: next.1, endpoints };
        &&& after == announced(here, next.0, next.1, Seat { endpoints, link })
        &&& who_after == Some(next)
        &&& exists|others: Seq<Present>, told: Seq<Sent>| #[trigger]
            announcement(others, told, here, next.0, arrival, link) && sends == told.push(
                Sent { link, message: Said::Peers { members: others } },
            )
    }
}

/// What a request of somebody who has announced itself leads to.
pub open spec fn request_answered(
    k: Known,
    who: Who,
    link: u64,
    asked: Asked,
    limits: Limits,
    now: u64,
    after: Known,
    sends: Seq<Sent>,
    wake: Option<Seq<char>>,
) -> bool {
    match asked {
        Asked::Announce { .. } => true,
        Asked::Reachable { via } => {
            &&& wake is None
            &&& match via {
                Some(token) => if vstd::utf8::encode_utf8(token).len() > limits.max_wake_token {
                    after == k && sends == refused(link, "token too long"@)
                } else {
                    &&& sends.len() == 0
                    &&& after.members == k.members
                    &&& after.waiting == k.waiting
                    &&& oldest_dropped(
                        k.wake.insert(who, (token, now)),
                        after.wake,
                        limits.max_wake_tokens as nat,
                    )
                },
                None => {
                    &&& sends.len() == 0
                    &&& after == (Known { wake: k.wake.remove(who), ..k })
                },
            }
        },
        Asked::Waiting { to } => if k.members.contains_key((who.0, to)) {
            &&& after == k
            &&& sends == seq![
                Sent {
                    link: k.members[(who.0, to)].link,
                    message: Said::Waiting { from: who.1 },
                },
            ]
            &&& wake is None
        } else {
            &&& after == (Known { waiting: k.waiting.insert((who.0, to, who.1)), ..k })
            &&& sends.len() == 0
            &&& wake == if k.wake.contains_key((who.0, to)) {
                Some(k.wake[(who.0, to)].0)
            } else {
                None
            }
        },
        Asked::Connect { to } => {
            &&& after == k
            &&& wake is None
            &&& sends == if k.members.contains_key(who) && k.members.contains_key((who.0, to)) {
                seq![
                    Sent {
                        link: k.members[(who.0, to)].link,
                        message: Said::ConnectRequest {
                            from: who.1,
                            endpoints: k.members[who].endpoints,
                        },
                    },
                ]
            } else {
                refused(link, "peer is not here"@)
            }
        },
        Asked::Accept { to, endpoints } => {
            &&& after == k
            &&& wake is None
            &&& sends == if k.members.contains_key((who.0, to)) {
                seq![
                    Sent {
                        link: k.members[(who.0, to)].link,
                        message: Said::Punch { peer: who.1, endpoints },
                    },
                    Sent {
                        link,
                        message: Said::Punch {
                            peer: to,
                            endpoints: k.members[(who.0, to)].endpoints,
                        },
                    },
                ]
            } else {
                refused(link, "peer is not here"@)
            }
        },
    }
}

/// What a request leads to: what is known afterwards, who the connection then
/// is, who is told what, and who is woken.
pub open spec fn answered(
    k: Known,
    who: Option<Who>,
    link: u64,
    asked: Asked,
    limits: Limits,
    now: u64,
    after: Known,
    who_after: Option<Who>,
    sends: Seq<Sent>,
    wake: Option<Seq<char>>,
) -> bool {
    match asked {
        Asked::Announce { group, member, endpoints } => {
            &&& wake is None
            &&& announce_answered(
                k,
                who,
                link,
                (group, member),
                endpoints,
                limits,
                after,
                who_after,
                sends,
            )
        },
        _ => {
            &&& who_after == who
            &&& match who {
                None => {
                    &&& after == k
                    &&& sends == refused(link, "announce first"@)
                    &&& wake is None
                },
                Some(w) => request_answered(k, w, link, asked, limits, now, after, sends, wake),
            }
        },
    }
}

fn refusal(link: u64, detail: &str) -> (sends: Vec<Delivery>)
    ensures
        sent(sends@) == refused(link, detail@),
{
    let mut sends: Vec<Delivery> = Vec::new();
    sends.push(Delivery { link, message: FromServer::Error { detail: detail.to_owned() } });
    assert(sent(sends@) =~= refused(link, detail@));
    sends
}

fn one(link: u64, message: FromServer) -> (sends: Vec<Delivery>)
    ensures
        sent(sends@) == seq![Sent { link, message: message@ }],
{
    let mut sends: Vec<Delivery> = Vec::new();
    sends.push(Delivery { link, message });
    assert(sent(sends@) =~= seq![Sent { link, message: message@ }]);
    sends
}

impl Directory {
    /// Answers one request of one connection.
    pub fn handle(
        &mut self,
        session: &mut Session,
        request: FromClient,
        limits: &Limits,
        now: u64,
    ) -> (answer: Answer)
        requires
            old(self).wf(),
        ensures
            final(self).wf(),
            final(session).link == old(session).link,
            answered(
                old(self)@,
                old(session).who(),
                old(session).link,
                request@,
                *limits,
                now,
                final(self)@,
                final(session).who(),
                sent(answer.sends@),
                answer.waking(),
            ),
    {
        let link: u64 = session.link;
        match request {
            FromClient::Announce { group, member, endpoints } => {
                let sends: Vec<Delivery> = self.handle_announce(
                    session,
                    group,
                    member,
                    endpoints,
                    limits,
                );
                Answer { sends, wake: None }
            },
            FromClient::Reachable { via } => {
                let (group, member) = match session.identity {
                    Some(who) => who,
                    None => {
                        return Answer { sends: refusal(link, "announce first"), wake: None };
                    },
                };
                match &via {
                    Some(token) => {
                        if token.as_str().as_bytes().len() > limits.max_wake_token {
                            return Answer { sends: refusal(link, "token too long"), wake: None };
                        }
                    },
                    None => {},
                }
                self.set_wake_token(group, member, via, limits.max_wake_tokens, now);
                Answer { sends: Vec::new(), wake: None }
            },
            FromClient::Waiting { to } => {
                let (group, from) = match session.identity {
                    Some(who) => who,
                    None => {
                        return Answer { sends: refusal(link, "announce first"), wake: None };
                    },
                };
                // Refused for a member of another group by construction: the
                // note is filed under the group this connection announced into.
                match self.note_waiting(group, from, to) {
                    Some(delivery) => {
                        let mut sends: Vec<Delivery> = Vec::new();
                        sends.push(delivery);
                        assert(sent(sends@) =~= seq![delivery@]);
                        Answer { sends, wake: None }
                    },
                    // Woken only when it could not simply be told, and only
                    // because the device asking is here to sync with. Waking a
                    // phone for a peer that is not there spends its battery to
                    // find nobody.
                    None => {
                        let wake: Option<WakeToken> = self.wake_token(&group, &to);
                        Answer { sends: Vec::new(), wake }
                    },
                }
            },
            FromClient::Connect { to } => {
                let (group, from) = match session.identity {
                    Some(who) => who,
                    None => {
                        return Answer { sends: refusal(link, "announce first"), wake: None };
                    },
                };
                // A member can only ever be looked up within the group the
                // asking connection announced into, so one group cannot
                // enumerate or reach another.
                let sends: Vec<Delivery> = match (
                    self.look_up(&group, &from),
                    self.look_up(&group, &to),
                ) {
                    (Some((mine, _)), Some((_, theirs))) => one(
                        theirs,
                        FromServer::ConnectRequest { from, endpoints: mine },
                    ),
                    _ => refusal(link, "peer is not here"),
                };
                Answer { sends, wake: None }
            },
            FromClient::Accept { to, endpoints } => {
                let (group, from) = match session.identity {
                    Some(who) => who,
                    None => {
                        return Answer { sends: refusal(link, "announce first"), wake: None };
                    },
                };
                let sends: Vec<Delivery> = match self.look_up(&group, &to) {
                    // Both told at once: hole punching needs both routers to see
                    // an outbound packet at roughly the same time.
                    Some((their_endpoints, theirs)) => {
                        let mut sends: Vec<Delivery> = one(
                            theirs,
                            FromServer::Punch { peer: from, endpoints },
                        );
                        let ghost first = sends@;
                        let punch: FromServer = FromServer::Punch {
                            peer: to,
                            endpoints: their_endpoints,
                        };
                        sends.push(Delivery { link, message: punch });
                        proof {
                            assert(sent(first).len() == first.len());
                            assert(sent(first).len() == 1);
                            assert(sent(first)[0] == first[0]@);
                            assert(sent(sends@) =~= seq![
                                sent(first)[0],
                                Sent { link, message: punch@ },
                            ]);
                        }
                        sends
                    },
                    None => refusal(link, "peer is not here"),
                };
                Answer { sends, wake: None }
            },
        }
    }

    fn handle_announce(
        &mut self,
        session: &mut Session,
        group: GroupId,
        member: MemberId,
        endpoints: Endpoints,
        limits: &Limits,
    ) -> (sends: Vec<Delivery>)
        requires
            old(self).wf(),
        ensures
            final(self).wf(),
            final(session).link == old(session).link,
            announce_answered(
                old(self)@,
                old(session).who(),
                old(session).link,
                (group@, member@),
                endpoints@,
                *limits,
                final(self)@,
                final(session).who(),
                sent(sends@),
            ),
    {
        let link: u64 = session.link;
        // A group that can grow without bound is memory anyone can spend.
        // Announcing an existing member again is always allowed, since it is how
        // a device that moved networks updates its address.
        let here: usize = self.count_members(&group);
        if here > 0 && here >= limits.max_members_per_group && !self.is_here(&group, &member) {
            return refusal(link, "group is full");
        }
        match session.identity {
            Some((previous_group, previous_member)) => {
                if previous_group != group || previous_member != member {
                    self.leave(&previous_group, &previous_member);
                }
            },
            None => {},
        }
        let ghost k = self@;
        assert(k == vacated(old(self)@, old(session).who(), (group@, member@)));
        let ghost arrival = Present { member: member@, endpoints: endpoints@ };
        let (peers, told) = self.announce(group, member, endpoints, link);
        session.identity = Some((group, member));
        let ghost others = message::presences(peers@);
        let ghost before = sent(told@);
        let mut sends: Vec<Delivery> = told;
        let list: FromServer = FromServer::Peers { members: peers };
        sends.push(Delivery { link, message: list });
        proof {
            assert(list@ == Said::Peers { members: others });
            assert(sent(sends@) =~= before.push(Sent { link, message: list@ }));
            assert(announcement(others, before, k, group@, arrival, link));
        }
        sends
    }

    /// A connection ended, in whatever way. Whoever it was leaves.
    ///
    /// A client that vanishes (laptop shut, network dropped, process killed) has
    /// to leave by the same door as everything else, or it would stay in the
    /// directory and peers would go on being handed its dead address.
    pub fn disconnect(&mut self, session: &Session)
        requires
            old(self).wf(),
        ensures
            final(self).wf(),
            final(self)@ == disconnected(old(self)@, session.who()),
    {
        match session.identity {
            Some((group, member)) => {
                self.leave(&group, &member);
            },
            None => {},
        }
    }
}

/// Tells a connection that what it sent could not be read.
pub fn malformed(session: &Session, why: &str) -> (delivery: Delivery)
    ensures
        delivery@ == (Sent {
            link: session.link,
            message: Said::Error { detail: "malformed: "@ + why@ },
        }),
{
    Delivery {
        link: session.link,
        message: FromServer::Error { detail: "malformed: ".to_owned().concat(why) },
    }
}

/// What came in on a connection.
#[derive(Debug, Clone, Copy, PartialEq, Eq, Structural)]
pub enum Incoming {
    /// Text, which may be a request.
    Text,
    /// The other side says goodbye.
    Close,
    /// Something that is not part of this protocol.
    Other,
    /// The connection broke.
    Broken,
}

/// What to do about something that came in.
#[derive(Debug, Clone, Copy, PartialEq, Eq, Structural)]
pub enum Next {
    /// Read it as a request, if the connection is within its rate.
    Read,
    /// Wait for the next.
    Skip,
    /// Stop, and let whoever it was leave.
    Stop,
}

/// What to do about something that came in.
pub fn take(incoming: Incoming) -> (next: Next)
    ensures
        next == (match incoming {
            Incoming::Text => Next::Read,
            Incoming::Other => Next::Skip,
            Incoming::Close | Incoming::Broken => Next::Stop,
        }),
{
    match incoming {
        Incoming::Text => Next::Read,
        Incoming::Other => Next::Skip,
        Incoming::Close | Incoming::Broken => Next::Stop,
    }
}

/// The groups of which anyone is connected.
pub open spec fn groups(k: Known) -> Set<Seq<u8>> {
    Set::new(|g: Seq<u8>| group_here(k, g))
}

/// Whether somebody of the group stands among the first `n` entries.
spec fn group_below(s: Seq<(Who, Seat)>, group: Seq<u8>, n: int) -> bool {
    exists|a: int| 0 <= a < n && (#[trigger] s[a]).0.0 == group
}

spec fn groups_below(s: Seq<(Who, Seat)>, n: int) -> Set<Seq<u8>> {
    Set::new(|g: Seq<u8>| group_below(s, g, n))
}

proof fn groups_grow(s: Seq<(Who, Seat)>, n: int)
    requires
        0 <= n < s.len(),
    ensures
        groups_below(s, n + 1) == groups_below(s, n).insert(s[n].0.0),
{
    assert forall|g: Seq<u8>| groups_below(s, n + 1).contains(g) == groups_below(s, n).insert(
        s[n].0.0,
    ).contains(g) by {
        if group_below(s, g, n) {
            let a = choose|a: int| 0 <= a < n && (#[trigger] s[a]).0.0 == g;
            assert(s[a].0.0 == g);
        }
    }
    assert(groups_below(s, n + 1) =~= groups_below(s, n).insert(s[n].0.0));
}

impl Directory {
    /// How many groups currently have anyone connected.
    pub fn group_count(&self) -> (n: usize)
        requires
            self.wf(),
        ensures
            groups(self@).finite(),
            n == groups(self@).len(),
    {
        let ghost s = seats(self.members@);
        let mut n: usize = 0;
        let mut i: usize = 0;
        assert(groups_below(s, 0) =~= Set::empty());
        while i < self.members.len()
            invariant
                i <= self.members@.len(),
                n <= i,
                s == seats(self.members@),
                groups_below(s, i as int).finite(),
                n == groups_below(s, i as int).len(),
            decreases self.members@.len() - i,
        {
            proof {
                groups_grow(s, i as int);
            }
            if !self.seen_before(i) {
                n += 1;
            }
            i += 1;
        }
        proof {
            assert forall|g: Seq<u8>| groups_below(s, i as int).contains(g) == groups(
                self@,
            ).contains(g) by {
                if group_below(s, g, i as int) {
                    let a = choose|a: int| 0 <= a < i && (#[trigger] s[a]).0.0 == g;
                    keyed::key_in_map(s, s[a].0);
                    assert(keyed::holds(s, s[a].0));
                    assert(self@.members.contains_key((g, s[a].0.1)));
                }
                if group_here(self@, g) {
                    let m = choose|m: Seq<u8>| #[trigger] self@.members.contains_key((g, m));
                    keyed::key_in_map(s, (g, m));
                    let a = keyed::position(s, (g, m));
                    assert(s[a].0.0 == g);
                }
            }
            assert(groups_below(s, i as int) =~= groups(self@));
        }
        n
    }

    /// Whether an earlier entry is of the same group as the `i`-th.
    fn seen_before(&self, i: usize) -> (seen: bool)
        requires
            i < self.members@.len(),
        ensures
            seen == groups_below(seats(self.members@), i as int).contains(
                seats(self.members@)[i as int].0.0,
            ),
    {
        let ghost s = seats(self.members@);
        let mut j: usize = 0;
        while j < i
            invariant
                j <= i < self.members@.len(),
                s == seats(self.members@),
                forall|a: int| 0 <= a < j ==> (#[trigger] s[a]).0.0 != s[i as int].0.0,
            decreases i - j,
        {
            if self.members[j].group == self.members[i].group {
                assert(s[j as int].0.0 == s[i as int].0.0);
                return true;
            }
            assert(s[j as int].0.0 != s[i as int].0.0);
            j += 1;
        }
        false
    }
}

/// A connection that has not announced itself is told so and learns nothing
/// else, and nobody hears of it.
pub proof fn law_an_unannounced_connection_can_do_nothing(
    k: Known,
    link: u64,
    asked: Asked,
    limits: Limits,
    now: u64,
    after: Known,
    who_after: Option<Who>,
    sends: Seq<Sent>,
    wake: Option<Seq<char>>,
)
    requires
        !(asked is Announce),
        answered(k, None, link, asked, limits, now, after, who_after, sends, wake),
    ensures
        after == k,
        who_after is None,
        wake is None,
        sends == seq![Sent { link, message: Said::Error { detail: "announce first"@ } }],
{
}

/// A request reaches no further than the asking connection's own group: what is
/// said goes to that connection or to members of its group, and what is known of
/// other groups stays as it is.
pub proof fn law_a_request_stays_in_its_group(
    k: Known,
    who: Who,
    link: u64,
    asked: Asked,
    limits: Limits,
    now: u64,
    after: Known,
    who_after: Option<Who>,
    sends: Seq<Sent>,
    wake: Option<Seq<char>>,
)
    requires
        !(asked is Announce),
        answered(k, Some(who), link, asked, limits, now, after, who_after, sends, wake),
    ensures
        after.members == k.members,
        forall|i: int|
            #![trigger sends[i]]
            0 <= i < sends.len() ==> sends[i].link == link || exists|m: Seq<u8>|
                k.members.contains_key((who.0, m)) && (#[trigger] k.members[(who.0, m)]).link
                    == sends[i].link,
        forall|n: (Seq<u8>, Seq<u8>, Seq<u8>)| #[trigger]
            after.waiting.contains(n) != k.waiting.contains(n) ==> n.0 == who.0,
        wake is Some ==> exists|m: Seq<u8>|
            k.wake.contains_key((who.0, m)) && (#[trigger] k.wake[(who.0, m)]).0 == wake->0,
{
    if let Asked::Waiting { to } = asked {
        assert(k.members.contains_key((who.0, to)) ==> k.members[(who.0, to)].link == sends[0].link);
        if wake is Some {
            assert(k.wake[(who.0, to)].0 == wake->0);
        }
    }
    if let Asked::Connect { to } = asked {
        if k.members.contains_key(who) && k.members.contains_key((who.0, to)) {
            assert(k.members[(who.0, to)].link == sends[0].link);
        }
    }
    if let Asked::Accept { to, endpoints } = asked {
        if k.members.contains_key((who.0, to)) {
            assert(k.members[(who.0, to)].link == sends[0].link);
        }
    }
}

/// A newcomer hears only of members of the group it announced into, and only
/// they hear of it.
pub proof fn law_an_announcement_stays_in_its_group(
    others: Seq<Present>,
    sends: Seq<Sent>,
    k: Known,
    group: Seq<u8>,
    arrival: Present,
    link: u64,
)
    requires
        announcement(others, sends, k, group, arrival, link),
    ensures
        forall|i: int|
            #![trigger others[i]]
            0 <= i < others.len() ==> k.members.contains_key((group, others[i].member)),
        forall|i: int|
            #![trigger sends[i]]
            0 <= i < sends.len() ==> sends[i].link == link || exists|m: Seq<u8>|
                k.members.contains_key((group, m)) && (#[trigger] k.members[(group, m)]).link
                    == sends[i].link,
{
    let from = choose|from: Seq<Seq<u8>>| #[trigger]
        lists_notes(from, k, group, arrival.member) && sends == told_waiting(from, link)
            + told_arrival(others, k, group, arrival);
    assert forall|i: int| #![trigger sends[i]] 0 <= i < sends.len() implies sends[i].link == link
        || exists|m: Seq<u8>|
        k.members.contains_key((group, m)) && (#[trigger] k.members[(group, m)]).link
            == sends[i].link by {
        if i >= from.len() {
            let j = i - from.len();
            let m = others[j].member;
            assert(sends[i] == told_arrival(others, k, group, arrival)[j]);
            assert(k.members[(group, m)].link == sends[i].link);
        }
    }
}

/// Somebody is woken only for a note that could not be told: the recipient is
/// not here, and has said how it can be woken.
pub proof fn law_only_the_absent_are_woken(
    k: Known,
    who: Option<Who>,
    link: u64,
    asked: Asked,
    limits: Limits,
    now: u64,
    after: Known,
    who_after: Option<Who>,
    sends: Seq<Sent>,
    wake: Option<Seq<char>>,
)
    requires
        answered(k, who, link, asked, limits, now, after, who_after, sends, wake),
        wake is Some,
    ensures
        asked matches Asked::Waiting { to } && who matches Some(w) && !k.members.contains_key(
            (w.0, to),
        ) && k.wake.contains_key((w.0, to)) && k.wake[(w.0, to)].0 == wake->0,
{
}

/// Saying many times that there is something for an absent member leaves one
/// note, and its arrival delivers it and forgets it.
pub proof fn law_notes_collapse_and_are_delivered_once(
    k: Known,
    group: Seq<u8>,
    from: Seq<u8>,
    to: Seq<u8>,
    seat: Seat,
    notes: Seq<Seq<u8>>,
)
    requires
        lists_notes(
            notes,
            Known { waiting: k.waiting.insert((group, to, from)), ..k },
            group,
            to,
        ),
    ensures
        k.waiting.insert((group, to, from)).insert((group, to, from)) == k.waiting.insert(
            (group, to, from),
        ),
        notes.contains(from),
        notes.no_duplicates(),
        forall|f: Seq<u8>| !#[trigger] announced(
            Known { waiting: k.waiting.insert((group, to, from)), ..k },
            group,
            to,
            seat,
        ).waiting.contains((group, to, f)),
{
    let w = k.waiting.insert((group, to, from));
    assert(w.insert((group, to, from)) =~= w);
    let noted = Known { waiting: w, ..k };
    assert(noted.waiting.contains((group, to, from)));
    let i = choose|i: int| 0 <= i < notes.len() && #[trigger] notes[i] == from;
    assert(notes[i] == from);
}

/// Leaving takes nobody's way of being woken, and leaves neither an empty group
/// nor notes for one behind.
pub proof fn law_leaving_keeps_tokens_and_leaves_no_empty_group(
    k: Known,
    group: Seq<u8>,
    member: Seq<u8>,
)
    ensures
        left(k, group, member).wake == k.wake,
        !left(k, group, member).members.contains_key((group, member)),
        group_here(k, group) && !group_here(left(k, group, member), group) ==> forall|
            n: (Seq<u8>, Seq<u8>, Seq<u8>),
        | #[trigger]
            left(k, group, member).waiting.contains(n) ==> n.0 != group,
{
}

/// However many tokens are given, no more than the limit are held.
pub proof fn law_tokens_are_bounded(
    k: Known,
    who: Who,
    link: u64,
    token: Seq<char>,
    limits: Limits,
    now: u64,
    after: Known,
    who_after: Option<Who>,
    sends: Seq<Sent>,
    wake: Option<Seq<char>>,
)
    requires
        k.wake.dom().finite(),
        k.wake.dom().len() <= limits.max_wake_tokens,
        answered(
            k,
            Some(who),
            link,
            Asked::Reachable { via: Some(token) },
            limits,
            now,
            after,
            who_after,
            sends,
            wake,
        ),
    ensures
        after.wake.dom().len() <= limits.max_wake_tokens,
{
}

/// A group never grows beyond the limit by an announcement, and a member that is
/// already in it may always announce again.
pub proof fn law_a_group_cannot_grow_without_bound(
    k: Known,
    who: Option<Who>,
    link: u64,
    next: Who,
    endpoints: Places,
    limits: Limits,
    after: Known,
    who_after: Option<Who>,
    sends: Seq<Sent>,
)
    requires
        limits.max_members_per_group > 0,
        group_members(k, next.0).finite(),
        group_members(k, next.0).len() <= limits.max_members_per_group,
        announce_answered(k, who, link, next, endpoints, limits, after, who_after, sends),
    ensures
        group_members(after, next.0).len() <= limits.max_members_per_group,
        k.members.contains_key(next) ==> who_after == Some(next) && after.members.contains_key(
            next,
        ) && after.members[next] == (Seat { endpoints, link }),
{
    let before = group_members(k, next.0);
    let now = group_members(after, next.0);
    if full(k, next.0, limits) && !k.members.contains_key(next) {
    } else {
        assert forall|m: Seq<u8>| now.contains(m) implies before.insert(next.1).contains(m) by {}
        assert(now.subset_of(before.insert(next.1)));
        vstd::set_lib::lemma_len_subset(now, before.insert(next.1));
        if k.members.contains_key(next) {
            assert(before.contains(next.1));
            assert(before.insert(next.1) =~= before);
        } else if before.len() > 0 {
            let m = before.choose();
            assert(before.contains(m));
            assert(k.members.contains_key((next.0, m)));
        }
    }
}

/// Announcing again replaces the address that was given before.
pub proof fn law_moving_replaces_the_old_address(
    k: Known,
    group: Seq<u8>,
    member: Seq<u8>,
    old_seat: Seat,
    new_seat: Seat,
)
    ensures
        announced(announced(k, group, member, old_seat), group, member, new_seat).members
            == announced(k, group, member, new_seat).members,
{
    assert(k.members.insert((group, member), old_seat).insert((group, member), new_seat)
        =~= k.members.insert((group, member), new_seat));
}

} // verus!
