//! What two devices learn of each other through the rendezvous service.

use vstd::prelude::*;

use super::message::{Asked, Places, Present, Said};
use super::server;
use super::server::{Known, Limits, Seat, Sent, Who};

verus! {

/// Some message goes out on the link.
pub open spec fn is_sent(sends: Seq<Sent>, link: u64, message: Said) -> bool {
    exists|i: int| 0 <= i < sends.len() && #[trigger] sends[i] == (Sent { link, message })
}

/// Everybody in the group who is already here is told of a newcomer, each on its
/// own link and once, with what the newcomer announced: itself, and where it can
/// be reached. Nobody else is told, and nobody is told of anybody else.
pub proof fn law_an_arrival_is_told_to_everybody_here(
    others: Seq<Present>,
    sends: Seq<Sent>,
    k: Known,
    group: Seq<u8>,
    member: Seq<u8>,
    endpoints: Places,
    link: u64,
)
    requires
        server::announcement(others, sends, k, group, Present { member, endpoints }, link),
    ensures
        forall|m: Seq<u8>| #[trigger]
            k.members.contains_key((group, m)) && m != member ==> is_sent(
                sends,
                k.members[(group, m)].link,
                Said::Appeared { peer: Present { member, endpoints } },
            ),
        forall|i: int|
            #![trigger sends[i]]
            0 <= i < sends.len() && sends[i].message is Appeared ==> {
                &&& sends[i].message->Appeared_peer == (Present { member, endpoints })
                &&& exists|m: Seq<u8>|
                    k.members.contains_key((group, m)) && m != member && (
                    #[trigger] k.members[(group, m)]).link == sends[i].link
            },
        (forall|m: Seq<u8>, n: Seq<u8>|
            #![trigger k.members[(group, m)], k.members[(group, n)]]
            k.members.contains_key((group, m)) && k.members.contains_key((group, n)) && m != n
                ==> k.members[(group, m)].link != k.members[(group, n)].link) ==> forall|
            i: int,
            j: int,
        |
            #![trigger sends[i], sends[j]]
            0 <= i < j < sends.len() && sends[i].message is Appeared
                && sends[j].message is Appeared ==> sends[i].link != sends[j].link,
{
    let arrival = Present { member, endpoints };
    let from = choose|from: Seq<Seq<u8>>| #[trigger]
        server::lists_notes(from, k, group, member) && sends == server::told_waiting(from, link)
            + server::told_arrival(others, k, group, arrival);
    let n = from.len() as int;
    assert forall|m: Seq<u8>| #[trigger]
        k.members.contains_key((group, m)) && m != member implies is_sent(
        sends,
        k.members[(group, m)].link,
        Said::Appeared { peer: arrival },
    ) by {
        let i = choose|i: int| 0 <= i < others.len() && (#[trigger] others[i]).member == m;
        assert(sends[n + i] == (Sent {
            link: k.members[(group, m)].link,
            message: Said::Appeared { peer: arrival },
        }));
    }
    assert forall|i: int|
        #![trigger sends[i]]
        0 <= i < sends.len() && sends[i].message is Appeared implies {
        &&& sends[i].message->Appeared_peer == arrival
        &&& exists|m: Seq<u8>|
            k.members.contains_key((group, m)) && m != member && (
            #[trigger] k.members[(group, m)]).link == sends[i].link
    } by {
        if i < n {
            assert(sends[i].message is Waiting);
        } else {
            let o = others[i - n];
            assert(k.members.contains_key((group, o.member)));
            assert(k.members[(group, o.member)].link == sends[i].link);
        }
    }
    if forall|a: Seq<u8>, b: Seq<u8>|
        #![trigger k.members[(group, a)], k.members[(group, b)]]
        k.members.contains_key((group, a)) && k.members.contains_key((group, b)) && a != b
            ==> k.members[(group, a)].link != k.members[(group, b)].link {
        assert forall|i: int, j: int|
            #![trigger sends[i], sends[j]]
            0 <= i < j < sends.len() && sends[i].message is Appeared
                && sends[j].message is Appeared implies sends[i].link != sends[j].link by {
            if i < n {
                assert(sends[i].message is Waiting);
            } else {
                let a = others[i - n].member;
                let b = others[j - n].member;
                assert(a != b);
                assert(k.members[(group, a)].link == sends[i].link);
                assert(k.members[(group, b)].link == sends[j].link);
            }
        }
    }
}

/// A newcomer is told of everybody in the group who is already here, each once,
/// with the endpoints that they announced, and of whoever left a note for it; all
/// of this on its own link.
pub proof fn law_a_newcomer_is_told_of_everybody_here(
    others: Seq<Present>,
    sends: Seq<Sent>,
    k: Known,
    group: Seq<u8>,
    arrival: Present,
    link: u64,
)
    requires
        server::announcement(others, sends, k, group, arrival, link),
    ensures
        forall|m: Seq<u8>| #[trigger]
            k.members.contains_key((group, m)) && m != arrival.member ==> others.contains(
                Present { member: m, endpoints: k.members[(group, m)].endpoints },
            ),
        forall|i: int|
            #![trigger others[i]]
            0 <= i < others.len() ==> k.members.contains_key((group, others[i].member))
                && others[i].member != arrival.member && others[i].endpoints == k.members[(
                group,
                others[i].member,
            )].endpoints,
        others.no_duplicates(),
        forall|f: Seq<u8>| #[trigger]
            k.waiting.contains((group, arrival.member, f)) ==> is_sent(
                sends,
                link,
                Said::Waiting { from: f },
            ),
        forall|i: int|
            #![trigger sends[i]]
            0 <= i < sends.len() ==> (sends[i].message matches Said::Waiting { from }
                && sends[i].link == link && k.waiting.contains((group, arrival.member, from)))
                || sends[i].message is Appeared,
{
    let from = choose|from: Seq<Seq<u8>>| #[trigger]
        server::lists_notes(from, k, group, arrival.member) && sends == server::told_waiting(
            from,
            link,
        ) + server::told_arrival(others, k, group, arrival);
    let n = from.len() as int;
    assert forall|m: Seq<u8>| #[trigger]
        k.members.contains_key((group, m)) && m != arrival.member implies others.contains(
        Present { member: m, endpoints: k.members[(group, m)].endpoints },
    ) by {
        let i = choose|i: int| 0 <= i < others.len() && (#[trigger] others[i]).member == m;
        assert(others[i] == (Present {
            member: m,
            endpoints: k.members[(group, m)].endpoints,
        }));
    }
    assert forall|i: int, j: int|
        0 <= i < others.len() && 0 <= j < others.len() && i != j implies others[i]
        != others[j] by {
        if i < j {
            assert(others[i].member != others[j].member);
        } else {
            assert(others[j].member != others[i].member);
        }
    }
    assert forall|f: Seq<u8>| #[trigger]
        k.waiting.contains((group, arrival.member, f)) implies is_sent(
        sends,
        link,
        Said::Waiting { from: f },
    ) by {
        let i = choose|i: int| 0 <= i < from.len() && #[trigger] from[i] == f;
        assert(sends[i] == (Sent { link, message: Said::Waiting { from: f } }));
    }
    assert forall|i: int| #![trigger sends[i]] 0 <= i < sends.len() implies (
    sends[i].message matches Said::Waiting { from: f } && sends[i].link == link
        && k.waiting.contains((group, arrival.member, f))) || sends[i].message is Appeared by {
        if i < n {
            assert(sends[i] == (Sent { link, message: Said::Waiting { from: from[i] } }));
            assert(k.waiting.contains((group, arrival.member, from[i])));
        }
    }
}

/// An announcement that is not refused seats the device: afterwards its seat holds
/// the endpoints that it announced, on its link, and everybody else keeps theirs,
/// but for the seat that the same connection held before. The last that is sent is
/// the list of those here, to the newcomer.
pub proof fn law_an_announcement_seats_the_device(
    k: Known,
    who: Option<Who>,
    link: u64,
    group: Seq<u8>,
    member: Seq<u8>,
    endpoints: Places,
    limits: Limits,
    now: u64,
    after: Known,
    who_after: Option<Who>,
    sends: Seq<Sent>,
    wake: Option<Seq<char>>,
)
    requires
        server::answered(
            k,
            who,
            link,
            Asked::Announce { group, member, endpoints },
            limits,
            now,
            after,
            who_after,
            sends,
            wake,
        ),
        k.members.contains_key((group, member)) || !(exists|m: Seq<u8>| #[trigger]
            k.members.contains_key((group, m))) || Set::new(
            |m: Seq<u8>| k.members.contains_key((group, m)),
        ).len() < limits.max_members_per_group,
    ensures
        who_after == Some((group, member)),
        after.members.contains_key((group, member)),
        after.members[(group, member)] == (Seat { endpoints, link }),
        forall|w: Who| #[trigger]
            k.members.contains_key(w) && Some(w) != who && w != (group, member)
                ==> after.members.contains_key(w) && after.members[w] == k.members[w],
        forall|w: Who| #[trigger]
            after.members.contains_key(w) ==> k.members.contains_key(w) || w == (group, member),
        who is Some && who->0 != (group, member) ==> !after.members.contains_key(who->0),
        after.wake == k.wake,
        wake is None,
        sends.len() > 0,
        sends.last().link == link,
        sends.last().message is Peers,
        forall|m: Seq<u8>| #[trigger]
            k.members.contains_key((group, m)) && m != member && Some((group, m)) != who
                ==> is_sent(
                sends,
                k.members[(group, m)].link,
                Said::Appeared { peer: Present { member, endpoints } },
            ) && sends.last().message->members.contains(
                Present { member: m, endpoints: k.members[(group, m)].endpoints },
            ),
        forall|i: int|
            #![trigger sends[i]]
            0 <= i < sends.len() && sends[i].message is Appeared ==> sends[i].message->Appeared_peer == (
            Present { member, endpoints }),
{
    let arrival = Present { member, endpoints };
    let here = server::vacated(k, who, (group, member));
    let (others, told) = choose|others: Seq<Present>, told: Seq<Sent>| #[trigger]
        server::announcement(others, told, here, group, arrival, link) && sends == told.push(
            Sent { link, message: Said::Peers { members: others } },
        );
    law_an_arrival_is_told_to_everybody_here(
        others,
        told,
        here,
        group,
        member,
        endpoints,
        link,
    );
    law_a_newcomer_is_told_of_everybody_here(others, told, here, group, arrival, link);
    assert forall|m: Seq<u8>| #[trigger]
        k.members.contains_key((group, m)) && m != member && Some((group, m))
            != who implies is_sent(
        sends,
        k.members[(group, m)].link,
        Said::Appeared { peer: arrival },
    ) && sends.last().message->members.contains(
        Present { member: m, endpoints: k.members[(group, m)].endpoints },
    ) by {
        assert(here.members.contains_key((group, m)));
        let i = choose|i: int|
            0 <= i < told.len() && #[trigger] told[i] == (Sent {
                link: k.members[(group, m)].link,
                message: Said::Appeared { peer: arrival },
            });
        assert(sends[i] == told[i]);
    }
    assert forall|i: int|
        #![trigger sends[i]]
        0 <= i < sends.len() && sends[i].message is Appeared implies sends[i].message->Appeared_peer
        == arrival by {
        if i < told.len() {
            assert(sends[i] == told[i]);
        }
    }
}

/// A group that is full refuses a newcomer: it is told so, on its own link, and
/// nothing changes.
pub proof fn law_a_full_group_refuses_a_newcomer(
    k: Known,
    who: Option<Who>,
    link: u64,
    group: Seq<u8>,
    member: Seq<u8>,
    endpoints: Places,
    limits: Limits,
    now: u64,
    after: Known,
    who_after: Option<Who>,
    sends: Seq<Sent>,
    wake: Option<Seq<char>>,
    there: Seq<u8>,
)
    requires
        server::answered(
            k,
            who,
            link,
            Asked::Announce { group, member, endpoints },
            limits,
            now,
            after,
            who_after,
            sends,
            wake,
        ),
        !k.members.contains_key((group, member)),
        k.members.contains_key((group, there)),
        Set::new(|m: Seq<u8>| k.members.contains_key((group, m))).len()
            >= limits.max_members_per_group,
    ensures
        after == k,
        who_after == who,
        wake is None,
        sends == seq![Sent { link, message: Said::Error { detail: "group is full"@ } }],
{
    assert(server::group_here(k, group));
}

/// Asking for a connection to somebody who is here tells them, and them alone, who
/// asks and where the asker can be reached: the endpoints that it announced. Asking
/// for somebody who is not here is answered with an error. Nothing changes.
pub proof fn law_a_connection_is_asked_for_with_the_askers_endpoints(
    k: Known,
    who: Who,
    link: u64,
    to: Seq<u8>,
    limits: Limits,
    now: u64,
    after: Known,
    who_after: Option<Who>,
    sends: Seq<Sent>,
    wake: Option<Seq<char>>,
)
    requires
        server::answered(
            k,
            Some(who),
            link,
            Asked::Connect { to },
            limits,
            now,
            after,
            who_after,
            sends,
            wake,
        ),
        k.members.contains_key(who),
    ensures
        after == k,
        who_after == Some(who),
        wake is None,
        sends.len() == 1,
        k.members.contains_key((who.0, to)) ==> sends[0].link == k.members[(who.0, to)].link
            && sends[0].message == (Said::ConnectRequest {
            from: who.1,
            endpoints: k.members[who].endpoints,
        }),
        !k.members.contains_key((who.0, to)) ==> sends[0].link == link && sends[0].message == (
        Said::Error { detail: "peer is not here"@ }),
{
}

/// Accepting a connection tells both sides where to find the other: the asker is
/// sent the endpoints that the accepter gave, and the accepter those that the asker
/// announced, each on its own link.
pub proof fn law_both_sides_are_told_where_to_find_each_other(
    k: Known,
    who: Who,
    link: u64,
    to: Seq<u8>,
    endpoints: Places,
    limits: Limits,
    now: u64,
    after: Known,
    who_after: Option<Who>,
    sends: Seq<Sent>,
    wake: Option<Seq<char>>,
)
    requires
        server::answered(
            k,
            Some(who),
            link,
            Asked::Accept { to, endpoints },
            limits,
            now,
            after,
            who_after,
            sends,
            wake,
        ),
    ensures
        after == k,
        who_after == Some(who),
        wake is None,
        k.members.contains_key((who.0, to)) ==> {
            &&& sends.len() == 2
            &&& is_sent(
                sends,
                k.members[(who.0, to)].link,
                Said::Punch { peer: who.1, endpoints },
            )
            &&& is_sent(
                sends,
                link,
                Said::Punch { peer: to, endpoints: k.members[(who.0, to)].endpoints },
            )
        },
        !k.members.contains_key((who.0, to)) ==> sends == seq![
            Sent { link, message: Said::Error { detail: "peer is not here"@ } },
        ],
{
    if k.members.contains_key((who.0, to)) {
        assert(sends[0] == (Sent {
            link: k.members[(who.0, to)].link,
            message: Said::Punch { peer: who.1, endpoints },
        }));
        assert(sends[1] == (Sent {
            link,
            message: Said::Punch { peer: to, endpoints: k.members[(who.0, to)].endpoints },
        }));
    }
}

/// That something waits for somebody is told at once where they are here. Where
/// they are not, it is noted for when they come, and they are woken if they said
/// how; nothing else changes. When they then announce themselves, they are told.
pub proof fn law_what_waits_is_told_now_or_on_arrival(
    k: Known,
    who: Who,
    link: u64,
    to: Seq<u8>,
    limits: Limits,
    now: u64,
    after: Known,
    who_after: Option<Who>,
    sends: Seq<Sent>,
    wake: Option<Seq<char>>,
    others: Seq<Present>,
    told: Seq<Sent>,
    endpoints: Places,
    their_link: u64,
)
    requires
        server::answered(
            k,
            Some(who),
            link,
            Asked::Waiting { to },
            limits,
            now,
            after,
            who_after,
            sends,
            wake,
        ),
        server::announcement(
            others,
            told,
            after,
            who.0,
            Present { member: to, endpoints },
            their_link,
        ),
    ensures
        after.members == k.members,
        after.wake == k.wake,
        who_after == Some(who),
        k.members.contains_key((who.0, to)) ==> after == k && wake is None && sends == seq![
            Sent {
                link: k.members[(who.0, to)].link,
                message: Said::Waiting { from: who.1 },
            },
        ],
        !k.members.contains_key((who.0, to)) ==> {
            &&& sends.len() == 0
            &&& forall|n: (Seq<u8>, Seq<u8>, Seq<u8>)| #[trigger]
                after.waiting.contains(n) <==> k.waiting.contains(n) || n == (who.0, to, who.1)
            &&& k.wake.contains_key((who.0, to)) ==> wake == Some(k.wake[(who.0, to)].0)
            &&& !k.wake.contains_key((who.0, to)) ==> wake is None
            &&& is_sent(told, their_link, Said::Waiting { from: who.1 })
        },
{
    if !k.members.contains_key((who.0, to)) {
        law_a_newcomer_is_told_of_everybody_here(
            others,
            told,
            after,
            who.0,
            Present { member: to, endpoints },
            their_link,
        );
        assert(after.waiting.contains((who.0, to, who.1)));
    }
}

/// How a device can be woken is kept as it was last given. No other device's way
/// changes, unless there are too many: then the oldest go first, and one that is
/// given now is the last to go. A token that is too long is refused, and saying
/// none takes it back.
pub proof fn law_a_way_to_be_woken_is_kept_as_given(
    k: Known,
    who: Who,
    link: u64,
    given: Option<Seq<char>>,
    limits: Limits,
    now: u64,
    after: Known,
    who_after: Option<Who>,
    sends: Seq<Sent>,
    wake: Option<Seq<char>>,
)
    requires
        server::answered(
            k,
            Some(who),
            link,
            Asked::Reachable { via: given },
            limits,
            now,
            after,
            who_after,
            sends,
            wake,
        ),
        k.wake.dom().finite(),
        k.wake.dom().len() <= limits.max_wake_tokens,
        limits.max_wake_tokens > 0,
    ensures
        after.members == k.members,
        after.waiting == k.waiting,
        wake is None,
        given is Some && vstd::utf8::encode_utf8(given->0).len() > limits.max_wake_token
            ==> after == k && sends == seq![
            Sent { link, message: Said::Error { detail: "token too long"@ } },
        ],
        given is Some && vstd::utf8::encode_utf8(given->0).len() <= limits.max_wake_token
            ==> {
            &&& sends.len() == 0
            &&& after.wake.contains_key(who) ==> after.wake[who] == (given->0, now)
            &&& forall|w: Who|
                w != who && #[trigger] after.wake.contains_key(w) ==> k.wake.contains_key(w)
                    && after.wake[w] == k.wake[w]
            &&& k.wake.insert(who, (given->0, now)).dom().len() <= limits.max_wake_tokens
                ==> after.wake.contains_key(who) && forall|w: Who| #[trigger]
                k.wake.contains_key(w) ==> after.wake.contains_key(w)
            &&& (forall|w: Who| #[trigger] k.wake.contains_key(w) ==> k.wake[w].1 < now)
                ==> after.wake.contains_key(who)
            &&& forall|gone: Who, kept: Who|
                gone != who && kept != who && #[trigger] k.wake.contains_key(gone)
                    && !after.wake.contains_key(gone) && #[trigger] after.wake.contains_key(kept)
                    ==> k.wake[gone].1 <= k.wake[kept].1
        },
        given is None ==> {
            &&& sends.len() == 0
            &&& !after.wake.contains_key(who)
            &&& forall|w: Who|
                w != who ==> (#[trigger] after.wake.contains_key(w) <==> k.wake.contains_key(w))
            &&& forall|w: Who|
                w != who && #[trigger] after.wake.contains_key(w) ==> after.wake[w] == k.wake[w]
        },
{
    if let Some(token) = given {
        if vstd::utf8::encode_utf8(token).len() <= limits.max_wake_token {
            let full = k.wake.insert(who, (token, now));
            let most = limits.max_wake_tokens as nat;
            assert(full.contains_key(who));
            assert forall|gone: Who, kept: Who|
                gone != who && kept != who && #[trigger] k.wake.contains_key(gone)
                    && !after.wake.contains_key(gone) && #[trigger] after.wake.contains_key(
                    kept,
                ) implies k.wake[gone].1 <= k.wake[kept].1 by {
                assert(full.contains_key(gone) && full.contains_key(kept));
                assert(full[gone].1 <= full[kept].1);
            }
            assert(full.dom() =~= k.wake.dom().insert(who));
            if full.dom().len() <= most {
                assert(after.wake.dom().subset_of(full.dom()));
                vstd::set_lib::lemma_subset_equality(after.wake.dom(), full.dom());
                assert forall|w: Who| #[trigger]
                    k.wake.contains_key(w) implies after.wake.contains_key(w) by {
                    assert(full.dom().contains(w));
                }
                assert(full.dom().contains(who));
            } else if (forall|w: Who| #[trigger] k.wake.contains_key(w) ==> k.wake[w].1 < now)
                && !after.wake.contains_key(who) {
                vstd::set_lib::lemma_set_empty_equivalency_len(after.wake.dom());
                let w = after.wake.dom().choose();
                assert(after.wake.contains_key(w));
                assert(full.contains_key(w) && full[w] == after.wake[w]);
                assert(w != who);
                assert(k.wake.contains_key(w));
                assert(full[who].1 <= full[w].1);
            }
        }
    }
}

/// A device that leaves is no longer here; everybody else stays where they are,
/// and so do their notes and how they can be woken, as long as somebody of the
/// group is left.
pub proof fn law_leaving_takes_the_one_who_leaves(
    k: Known,
    group: Seq<u8>,
    member: Seq<u8>,
    stays: Seq<u8>,
)
    requires
        stays != member,
    ensures
        ({
            let after = server::left(k, group, member);
            &&& !after.members.contains_key((group, member))
            &&& forall|w: Who|
                w != (group, member) ==> (#[trigger] after.members.contains_key(w)
                    <==> k.members.contains_key(w))
            &&& forall|w: Who|
                w != (group, member) && #[trigger] after.members.contains_key(w)
                    ==> after.members[w] == k.members[w]
            &&& after.wake == k.wake
            &&& k.members.contains_key((group, stays)) ==> after.waiting == k.waiting
            &&& forall|n: (Seq<u8>, Seq<u8>, Seq<u8>)|
                n.0 != group ==> (#[trigger] after.waiting.contains(n) <==> k.waiting.contains(n))
        }),
{
    if k.members.contains_key((group, stays)) {
        assert(k.members.remove((group, member)).contains_key((group, stays)));
    }
}

/// A connection that goes takes with it the device that announced itself on it, and
/// nobody else; one on which nobody did takes nobody.
pub proof fn law_a_lost_connection_takes_its_device(k: Known, who: Option<Who>)
    ensures
        who is None ==> server::disconnected(k, who) == k,
        who is Some ==> {
            let after = server::disconnected(k, who);
            &&& !after.members.contains_key(who->0)
            &&& forall|w: Who|
                w != who->0 ==> (#[trigger] after.members.contains_key(w)
                    <==> k.members.contains_key(w))
            &&& forall|w: Who|
                w != who->0 && #[trigger] after.members.contains_key(w) ==> after.members[w]
                    == k.members[w]
            &&& after.wake == k.wake
        },
{
}

} // verus!
