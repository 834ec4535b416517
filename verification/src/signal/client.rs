//! Talking to the rendezvous service.

use vstd::prelude::*;

use super::address;
use super::address::Address;
use super::error::{Error, Fault};
use super::message;
use super::message::{Asked, Endpoints, FromClient, FromServer, IpAddr, Presence};
use super::rendezvous::{GroupId, MemberId};
use crate::text;
use crate::text::{chars_of, first_position, same_text, starts_with, string_of};

verus! {

/// A device's place in the rendezvous service: which group it announces into,
/// and as whom.
pub struct SignalClient {
    group: GroupId,
    member: MemberId,
}

/// What is left of a text behind a prefix, or all of it.
pub open spec fn without_prefix(s: Seq<char>, prefix: Seq<char>) -> Seq<char> {
    if text::has_prefix(s, prefix) {
        s.skip(prefix.len() as int)
    } else {
        s
    }
}

/// The part of a text before the first `/` or `:`.
pub open spec fn before_separator(s: Seq<char>) -> Seq<char>
    decreases s.len(),
{
    if s.len() == 0 || s[0] == '/' || s[0] == ':' {
        Seq::empty()
    } else {
        seq![s[0]] + before_separator(s.drop_first())
    }
}

/// The host that a URL names. An IPv6 host is bracketed, so the colons inside it
/// are not separators.
pub open spec fn host(url: Seq<char>) -> Option<Seq<char>> {
    let rest = without_prefix(without_prefix(url, "ws://"@), "wss://"@);
    if rest.len() > 0 && rest[0] == '[' {
        let inside = rest.skip(1);
        let close = text::first_of(inside, ']');
        if close < 0 {
            None
        } else {
            Some(inside.take(close))
        }
    } else {
        Some(before_separator(rest))
    }
}

/// An address that does not leave this machine or the network it is on.
///
/// Loopback, the private ranges and link-local. Explicitly *not* carrier-grade
/// NAT: a phone on mobile data sits inside one of those with the whole carrier.
pub open spec fn stays_local(address: Address) -> bool {
    match address {
        Address::V4(o) => {
            ||| o[0] == 127
            ||| o[0] == 10
            ||| o[0] == 172 && 16 <= o[1] <= 31
            ||| o[0] == 192 && o[1] == 168
            ||| o[0] == 169 && o[1] == 254
        },
        Address::V6(s) => {
            ||| s == seq![0u16, 0u16, 0u16, 0u16, 0u16, 0u16, 0u16, 1u16]
            ||| 0xfc00 <= s[0] <= 0xfdff
            ||| 0xfe80 <= s[0] <= 0xfebf
        },
    }
}

/// Whether plaintext to this URL stays off the open internet: its host is this
/// machine by name, or reads as an address that stays local.
pub open spec fn local(url: Seq<char>) -> bool {
    match host(url) {
        None => false,
        Some(name) => name == "localhost"@ || name == "::1"@ || (address::address(
            name,
        ) matches Some(a) && stays_local(a)),
    }
}

/// The host that a URL names.
pub fn host_of(url: &str) -> (name: Option<String>)
    ensures
        match name {
            Some(n) => host(url@) == Some(n@),
            None => host(url@) is None,
        },
{
    let chars: Vec<char> = chars_of(url);
    let len: usize = chars.len();
    let mut from: usize = 0;
    assert(url@.skip(0) =~= url@);
    proof {
        reveal_strlit("ws://");
        reveal_strlit("wss://");
    }
    if starts_with(&chars, 0, "ws://") {
        from = 5;
    }
    let ghost once = without_prefix(url@, "ws://"@);
    assert(chars@.skip(from as int) =~= once);
    if starts_with(&chars, from, "wss://") {
        assert(once.skip(6) =~= chars@.skip(from + 6));
        from = from + 6;
    }
    let ghost rest = without_prefix(once, "wss://"@);
    assert(chars@.skip(from as int) =~= rest);
    if from < len && chars[from] == '[' {
        let inside: Vec<char> = tail(&chars, from + 1);
        assert(inside@ =~= rest.skip(1));
        return match first_position(&inside, ']') {
            Some(close) => {
                assert(inside@.subrange(0, close as int) =~= inside@.take(close as int));
                Some(string_of(&inside, 0, close))
            },
            None => None,
        };
    }
    let mut to: usize = from;
    while to < len && chars[to] != '/' && chars[to] != ':'
        invariant
            len == chars@.len(),
            from <= to <= len,
            before_separator(chars@.skip(from as int)) == chars@.subrange(from as int, to as int)
                + before_separator(chars@.skip(to as int)),
        decreases len - to,
    {
        proof {
            let s = chars@.skip(to as int);
            assert(s[0] == chars@[to as int]);
            assert(s.drop_first() =~= chars@.skip(to + 1));
            assert(chars@.subrange(from as int, to + 1) =~= chars@.subrange(from as int, to as int)
                + seq![s[0]]);
            assert(chars@.subrange(from as int, to as int) + (seq![s[0]] + before_separator(
                chars@.skip(to + 1),
            )) =~= chars@.subrange(from as int, to + 1) + before_separator(chars@.skip(to + 1)));
        }
        to += 1;
    }
    proof {
        assert(before_separator(chars@.skip(to as int)) =~= Seq::<char>::empty());
        assert(before_separator(rest) =~= chars@.subrange(from as int, to as int));
    }
    Some(string_of(&chars, from, to))
}

fn tail(chars: &Vec<char>, from: usize) -> (out: Vec<char>)
    requires
        from <= chars@.len(),
    ensures
        out@ == chars@.skip(from as int),
{
    let mut out: Vec<char> = Vec::new();
    let mut i: usize = from;
    while i < chars.len()
        invariant
            from <= i <= chars@.len(),
            out@ == chars@.subrange(from as int, i as int),
        decreases chars@.len() - i,
    {
        out.push(chars[i]);
        i += 1;
        assert(out@ =~= chars@.subrange(from as int, i as int));
    }
    assert(out@ =~= chars@.skip(from as int));
    out
}

fn stays_on_the_network(address: &IpAddr) -> (yes: bool)
    ensures
        yes == stays_local(
            match *address {
                IpAddr::V4(o) => Address::V4(o@),
                IpAddr::V6(s) => Address::V6(s@),
            },
        ),
{
    match address {
        IpAddr::V4(o) => o[0] == 127 || o[0] == 10 || (o[0] == 172 && 16 <= o[1] && o[1] <= 31) || (
        o[0] == 192 && o[1] == 168) || (o[0] == 169 && o[1] == 254),
        IpAddr::V6(s) => {
            let this_machine: bool = s[0] == 0 && s[1] == 0 && s[2] == 0 && s[3] == 0 && s[4] == 0
                && s[5] == 0 && s[6] == 0 && s[7] == 1;
            assert(this_machine ==> s@ =~= seq![0u16, 0u16, 0u16, 0u16, 0u16, 0u16, 0u16, 1u16]);
            this_machine || (0xfc00 <= s[0] && s[0] <= 0xfdff) || (0xfe80 <= s[0] && s[0] <= 0xfebf)
        },
    }
}

/// Whether plaintext to this URL stays off the open internet.
///
/// Two places it does. This machine, obviously. And the local network, where
/// requiring a certificate would mean requiring a certificate for
/// `192.168.1.4`, which nobody can get. Anywhere else is the open internet.
///
/// Conservative by construction: anything it cannot confidently place on a local
/// network is treated as remote, because being wrong that way costs a refused
/// connection and being wrong the other way leaks a secret.
pub fn is_local(url: &str) -> (yes: bool)
    ensures
        yes == local(url@),
{
    match host_of(url) {
        None => false,
        Some(name) => {
            if same_text(&name, "localhost") || same_text(&name, "::1") {
                return true;
            }
            match address::read(&name) {
                Some(a) => stays_on_the_network(&a),
                // A hostname. It could resolve anywhere, so it is treated as
                // remote: a name is exactly the case where getting a
                // certificate is possible.
                None => false,
            }
        },
    }
}

/// Refuses a plain `ws://` URL to anywhere but this machine or its network.
pub fn check_url(url: &str) -> (result: Result<(), Error>)
    ensures
        match result {
            Ok(_) => !text::has_prefix(url@, "ws://"@) || local(url@),
            Err(e) => text::has_prefix(url@, "ws://"@) && !local(url@) && e@
                == (Fault::InsecureUrl { url: url@ }),
        },
{
    let chars: Vec<char> = chars_of(url);
    assert(url@.skip(0) =~= url@);
    if starts_with(&chars, 0, "ws://") && !is_local(url) {
        return Err(Error::InsecureUrl { url: url.to_owned() });
    }
    Ok(())
}

/// What a message means to somebody who waits for the list of peers.
pub enum PeersReply {
    /// The list.
    Peers(Vec<Presence>),
    /// There will be none.
    Failed(Error),
    /// Something else; keep waiting.
    Waiting,
}

impl SignalClient {
    pub closed spec fn group_bytes(&self) -> Seq<u8> {
        self.group@
    }

    pub closed spec fn member_bytes(&self) -> Seq<u8> {
        self.member@
    }

    pub fn new(group: GroupId, member: MemberId) -> (client: Self)
        ensures
            client.group_bytes() == group@,
            client.member_bytes() == member@,
    {
        SignalClient { group, member }
    }

    /// Say where we are, replacing anything said before.
    ///
    /// Sent on connecting, and again whenever the addresses change, which a
    /// laptop moving between networks does several times a day.
    pub fn announce(&self, endpoints: Endpoints) -> (message: FromClient)
        ensures
            message@ == (Asked::Announce {
                group: self.group_bytes(),
                member: self.member_bytes(),
                endpoints: endpoints@,
            }),
    {
        FromClient::Announce { group: self.group, member: self.member, endpoints }
    }

    /// Ask to reach a peer. The reply arrives as [`FromServer::Punch`].
    pub fn connect_to(&self, peer: MemberId) -> (message: FromClient)
        ensures
            message@ == (Asked::Connect { to: peer@ }),
    {
        FromClient::Connect { to: peer }
    }

    /// Agree to be reached, which is what releases the simultaneous punch.
    pub fn accept(&self, peer: MemberId, endpoints: Endpoints) -> (message: FromClient)
        ensures
            message@ == (Asked::Accept { to: peer@, endpoints: endpoints@ }),
    {
        FromClient::Accept { to: peer, endpoints }
    }

    /// Say that there is something for a peer.
    pub fn waiting_for(&self, peer: MemberId) -> (message: FromClient)
        ensures
            message@ == (Asked::Waiting { to: peer@ }),
    {
        FromClient::Waiting { to: peer }
    }

    pub fn member(&self) -> (member: MemberId)
        ensures
            member@ == self.member_bytes(),
    {
        self.member
    }

    /// What the next message means while waiting for the peers already
    /// connected, which the server sends on announce. `None` is the end of the
    /// connection.
    pub fn peers(&self, next: Option<FromServer>) -> (reply: PeersReply)
        ensures
            match next {
                None => reply matches PeersReply::Failed(e) && e@ == Fault::Closed,
                Some(FromServer::Peers { members }) => reply matches PeersReply::Peers(list)
                    && message::presences(list@) == message::presences(members@),
                Some(FromServer::Error { detail }) => reply matches PeersReply::Failed(e) && e@ == (
                Fault::Server { detail: detail@ }),
                Some(_) => reply is Waiting,
            },
    {
        match next {
            None => PeersReply::Failed(Error::Closed),
            Some(FromServer::Peers { members }) => PeersReply::Peers(members),
            Some(FromServer::Error { detail }) => PeersReply::Failed(Error::Server { detail }),
            Some(_) => PeersReply::Waiting,
        }
    }
}

/// A remote host is never dialled in plaintext: whatever is allowed is encrypted
/// or stays on this machine or its network.
pub proof fn law_plaintext_stays_local(url: Seq<char>)
    requires
        text::has_prefix(url, "ws://"@),
        host(url) matches Some(name) ==> {
            &&& name != "localhost"@
            &&& name != "::1"@
            &&& address::address(name) matches Some(a) ==> !stays_local(a)
        },
    ensures
        !local(url),
{
}

/// The addresses that stay on the network, as numbers: of the older kind those from
/// 127.0.0.0, 10.0.0.0, 172.16.0.0, 192.168.0.0 and 169.254.0.0 on, each as far as
/// its block goes; of the newer kind the loopback address, and the blocks of unique
/// local and of link-local ones. No other does.
pub proof fn law_only_private_addresses_stay_local(o: Seq<u8>, s: Seq<u16>)
    requires
        o.len() == 4,
        s.len() == 8,
    ensures
        ({
            let n = o[0] * 0x100_0000 + o[1] * 0x1_0000 + o[2] * 0x100 + o[3];
            stays_local(Address::V4(o)) <==> {
                ||| 2130706432 <= n <= 2147483647
                ||| 167772160 <= n <= 184549375
                ||| 2886729728 <= n <= 2887778303
                ||| 3232235520 <= n <= 3232301055
                ||| 2851995648 <= n <= 2852061183
            }
        }),
        stays_local(Address::V6(s)) <==> {
            ||| s[0] / 0x200 == 0x7e
            ||| s[0] / 0x40 == 0x3fa
            ||| (s[7] == 1 && forall|i: int| 0 <= i < 7 ==> #[trigger] s[i] == 0)
        },
{
    if s[7] == 1 && (forall|i: int| 0 <= i < 7 ==> #[trigger] s[i] == 0) {
        assert(s =~= seq![0u16, 0u16, 0u16, 0u16, 0u16, 0u16, 0u16, 1u16]);
    }
}

/// What stands before the first separator is what has none, where a separator
/// follows it or nothing does.
proof fn before_the_separator(name: Seq<char>, rest: Seq<char>)
    requires
        forall|i: int| #![trigger name[i]] 0 <= i < name.len() ==> name[i] != '/' && name[i] != ':',
        rest.len() > 0 ==> rest[0] == '/' || rest[0] == ':',
    ensures
        before_separator(name + rest) == name,
    decreases name.len(),
{
    let s = name + rest;
    if name.len() == 0 {
        assert(s =~= rest);
        assert(before_separator(s) =~= name);
    } else {
        let less = name.drop_first();
        assert forall|i: int| #![trigger less[i]] 0 <= i < less.len() implies less[i] != '/'
            && less[i] != ':' by {
            assert(less[i] == name[i + 1]);
        }
        before_the_separator(less, rest);
        assert(s.drop_first() =~= less + rest);
        assert(s[0] == name[0]);
        assert(seq![name[0]] + less =~= name);
    }
}

/// The host of a URL is what stands behind the scheme, up to the first separator.
/// Whether a plaintext URL is local is decided by that host alone: by its name, or
/// by the address it spells. One scheme behind the other is left aside.
pub proof fn law_the_host_decides_what_is_local(name: Seq<char>, rest: Seq<char>)
    requires
        forall|i: int|
            #![trigger name[i]]
            0 <= i < name.len() ==> name[i] != '/' && name[i] != ':' && name[i] != '['
                && name[i] != ']',
        name.len() > 0,
        rest.len() > 0 ==> rest[0] == '/' || rest[0] == ':',
        !text::has_prefix(name + rest, "wss://"@),
    ensures
        host("wss://"@ + name + rest) == Some(name),
        ({
            let url = "ws://"@ + name + rest;
            &&& host(url) == Some(name)
            &&& local(url) <==> name == "localhost"@ || name == "::1"@ || (address::address(
                name,
            ) matches Some(a) && stays_local(a))
        }),
{
    reveal_strlit("ws://");
    reveal_strlit("wss://");
    let url = "ws://"@ + name + rest;
    let after = name + rest;
    assert(url.take(5) =~= "ws://"@);
    assert(url.skip(5) =~= after);
    let other = "wss://"@ + name + rest;
    assert(!text::has_prefix(other, "ws://"@)) by {
        if text::has_prefix(other, "ws://"@) {
            assert(other.take(5)[2] == ':');
        }
    }
    assert(other.take(6) =~= "wss://"@);
    assert(other.skip(6) =~= after);
    before_the_separator(name, rest);
    assert(after[0] == name[0]);
}

/// A host in brackets is what stands in them.
pub proof fn law_brackets_hold_the_host(inside: Seq<char>, rest: Seq<char>)
    requires
        forall|i: int| #![trigger inside[i]] 0 <= i < inside.len() ==> inside[i] != ']',
    ensures
        host("ws://["@ + inside + "]"@ + rest) == Some(inside),
        host("wss://["@ + inside + "]"@ + rest) == Some(inside),
{
    reveal_strlit("ws://");
    reveal_strlit("wss://");
    reveal_strlit("ws://[");
    reveal_strlit("wss://[");
    reveal_strlit("]");
    let behind = inside + "]"@ + rest;
    let plain = "ws://["@ + inside + "]"@ + rest;
    let secure = "wss://["@ + inside + "]"@ + rest;
    assert(plain.take(5) =~= "ws://"@);
    assert(plain.skip(5)[0] == '[');
    assert(plain.skip(5).skip(1) =~= behind);
    assert(!text::has_prefix(plain.skip(5), "wss://"@)) by {
        if text::has_prefix(plain.skip(5), "wss://"@) {
            assert(plain.skip(5).take(6)[0] == 'w');
        }
    }
    assert(!text::has_prefix(secure, "ws://"@)) by {
        if text::has_prefix(secure, "ws://"@) {
            assert(secure.take(5)[2] == ':');
        }
    }
    assert(secure.take(6) =~= "wss://"@);
    assert(secure.skip(6)[0] == '[');
    assert(secure.skip(6).skip(1) =~= behind);
    first_bracket(inside, "]"@ + rest);
    assert(inside + ("]"@ + rest) =~= behind);
    assert(behind.take(inside.len() as int) =~= inside);
}

proof fn first_bracket(inside: Seq<char>, rest: Seq<char>)
    requires
        rest.len() > 0,
        rest[0] == ']',
        forall|i: int| #![trigger inside[i]] 0 <= i < inside.len() ==> inside[i] != ']',
    ensures
        text::first_of(inside + rest, ']') == inside.len(),
    decreases rest.len(),
{
    let s = inside + rest;
    if rest.len() == 1 {
        assert(s.drop_last() =~= inside);
        no_bracket(inside);
    } else {
        assert(s.drop_last() =~= inside + rest.drop_last());
        first_bracket(inside, rest.drop_last());
    }
}

proof fn no_bracket(s: Seq<char>)
    requires
        forall|i: int| #![trigger s[i]] 0 <= i < s.len() ==> s[i] != ']',
    ensures
        text::first_of(s, ']') == -1,
    decreases s.len(),
{
    if s.len() > 0 {
        let rest = s.drop_last();
        assert forall|i: int| #![trigger rest[i]] 0 <= i < rest.len() implies rest[i] != ']' by {
            assert(rest[i] == s[i]);
        }
        no_bracket(rest);
        assert(s[s.len() - 1] == s.last());
    }
}

} // verus!
