//! What is said over the signalling channel.

use vstd::prelude::*;

use super::rendezvous::{GroupId, MemberId};

verus! {

/// An IP address.
#[derive(Debug, Clone, Copy, PartialEq, Eq)]
pub enum IpAddr {
    /// The four octets, the most significant first.
    V4([u8; 4]),
    /// The eight segments, the most significant first.
    V6([u16; 8]),
}

/// Where something listens: an address and a port.
#[derive(Debug, Clone, Copy, PartialEq, Eq)]
pub struct SocketAddr {
    pub ip: IpAddr,
    pub port: u16,
    /// The flow label of an IPv6 address; zero for IPv4.
    pub flow: u32,
    /// The scope of an IPv6 address; zero for IPv4.
    pub scope: u32,
}

/// Where a device thinks it can be reached.
///
/// Both kinds are sent. Two devices on one network reach each other directly and
/// should not take a detour through the internet to do it, and the local address
/// is the only way they can discover that.
#[derive(Debug, PartialEq, Eq)]
pub struct Endpoints {
    /// Seen by a STUN server: what the outside world can reach.
    pub public: Option<SocketAddr>,
    /// Bound locally: what the same network can reach.
    pub local: Vec<SocketAddr>,
}

/// Where a device thinks it can be reached, as values.
pub struct Places {
    pub public: Option<SocketAddr>,
    pub local: Seq<SocketAddr>,
}

impl View for Endpoints {
    type V = Places;

    open spec fn view(&self) -> Places {
        Places { public: self.public, local: self.local@ }
    }
}

impl Clone for Endpoints {
    fn clone(&self) -> (out: Self)
        ensures
            out@ == self@,
    {
        Endpoints { public: self.public, local: copy_addresses(&self.local) }
    }
}

fn copy_addresses(from: &Vec<SocketAddr>) -> (out: Vec<SocketAddr>)
    ensures
        out@ == from@,
{
    let mut out: Vec<SocketAddr> = Vec::new();
    let mut i: usize = 0;
    while i < from.len()
        invariant
            i <= from@.len(),
            out@ == from@.take(i as int),
        decreases from@.len() - i,
    {
        out.push(from[i]);
        i += 1;
    }
    out
}

impl Endpoints {
    /// Every address worth trying, local first.
    ///
    /// Order matters: a local address that works is faster, cheaper and does not
    /// involve anyone else's network.
    pub fn candidates(&self) -> (out: Vec<SocketAddr>)
        ensures
            out@ == (match self@.public {
                Some(address) => self@.local.push(address),
                None => self@.local,
            }),
    {
        let mut out: Vec<SocketAddr> = copy_addresses(&self.local);
        match self.public {
            Some(address) => {
                out.push(address);
            },
            None => {},
        }
        out
    }

    pub fn is_empty(&self) -> (empty: bool)
        ensures
            empty == (self@.public is None && self@.local.len() == 0),
    {
        self.public.is_none() && self.local.len() == 0
    }
}

/// Client to server.
#[derive(Clone, PartialEq, Eq)]
pub enum FromClient {
    /// I am here, at these addresses.
    ///
    /// Sent on connecting and again whenever the addresses change: a laptop
    /// moving between networks does this several times a day.
    Announce { group: GroupId, member: MemberId, endpoints: Endpoints },
    /// I want to reach this member of my group.
    Connect { to: MemberId },
    /// Yes, and here is where I am.
    ///
    /// The reply that lets the server tell both sides to punch at once.
    Accept { to: MemberId, endpoints: Endpoints },
    /// I have something for this member, whenever it is next able to hear it.
    ///
    /// Carries no content and no filenames: the fact that there is work, and
    /// who it is for. Delivered immediately if the recipient is connected, and
    /// remembered if not, so it arrives the moment they appear.
    Waiting { to: MemberId },
    /// This is how to wake me when I am not connected.
    ///
    /// The token is whatever the platform's push service issued. `None`
    /// withdraws it. A device that never sends this is simply never woken.
    Reachable { via: Option<String> },
}

/// Server to client.
#[derive(Clone, PartialEq, Eq)]
pub enum FromServer {
    /// Who else from your group is currently connected.
    Peers { members: Vec<Presence> },
    /// Someone in your group wants to reach you.
    ConnectRequest { from: MemberId, endpoints: Endpoints },
    /// Someone in your group has just announced themselves.
    ///
    /// Carries the same `Presence` a `Peers` entry does, so a recipient can act
    /// on it without a second round trip.
    Appeared { peer: Presence },
    /// Both sides are ready. Punch now.
    ///
    /// Sent to both at the same moment: hole punching needs both routers to see
    /// an outbound packet at roughly the same time.
    Punch { peer: MemberId, endpoints: Endpoints },
    /// Somebody in your group has something for you. Sync with them.
    ///
    /// It says who, never what.
    Waiting { from: MemberId },
    /// Something was wrong with what you sent.
    Error { detail: String },
}

/// A member currently connected.
#[derive(PartialEq, Eq)]
pub struct Presence {
    pub member: MemberId,
    pub endpoints: Endpoints,
}

/// A member currently connected, as values.
pub struct Present {
    pub member: Seq<u8>,
    pub endpoints: Places,
}

impl View for Presence {
    type V = Present;

    open spec fn view(&self) -> Present {
        Present { member: self.member@, endpoints: self.endpoints@ }
    }
}

impl Clone for Presence {
    fn clone(&self) -> (out: Self)
        ensures
            out@ == self@,
    {
        Presence { member: self.member, endpoints: self.endpoints.clone() }
    }
}

/// What a server says, as values.
pub enum Said {
    Peers { members: Seq<Present> },
    ConnectRequest { from: Seq<u8>, endpoints: Places },
    Appeared { peer: Present },
    Punch { peer: Seq<u8>, endpoints: Places },
    Waiting { from: Seq<u8> },
    Error { detail: Seq<char> },
}

/// A list of members, as values.
pub open spec fn presences(members: Seq<Presence>) -> Seq<Present> {
    Seq::new(members.len(), |i: int| members[i]@)
}

impl View for FromServer {
    type V = Said;

    open spec fn view(&self) -> Said {
        match *self {
            FromServer::Peers { members } => Said::Peers { members: presences(members@) },
            FromServer::ConnectRequest { from, endpoints } => Said::ConnectRequest {
                from: from@,
                endpoints: endpoints@,
            },
            FromServer::Appeared { peer } => Said::Appeared { peer: peer@ },
            FromServer::Punch { peer, endpoints } => Said::Punch {
                peer: peer@,
                endpoints: endpoints@,
            },
            FromServer::Waiting { from } => Said::Waiting { from: from@ },
            FromServer::Error { detail } => Said::Error { detail: detail@ },
        }
    }
}

/// What a client says, as values.
pub enum Asked {
    Announce { group: Seq<u8>, member: Seq<u8>, endpoints: Places },
    Connect { to: Seq<u8> },
    Accept { to: Seq<u8>, endpoints: Places },
    Waiting { to: Seq<u8> },
    Reachable { via: Option<Seq<char>> },
}

impl View for FromClient {
    type V = Asked;

    open spec fn view(&self) -> Asked {
        match *self {
            FromClient::Announce { group, member, endpoints } => Asked::Announce {
                group: group@,
                member: member@,
                endpoints: endpoints@,
            },
            FromClient::Connect { to } => Asked::Connect { to: to@ },
            FromClient::Accept { to, endpoints } => Asked::Accept {
                to: to@,
                endpoints: endpoints@,
            },
            FromClient::Waiting { to } => Asked::Waiting { to: to@ },
            FromClient::Reachable { via } => Asked::Reachable {
                via: match via {
                    Some(token) => Some(token@),
                    None => None,
                },
            },
        }
    }
}

} // verus!
