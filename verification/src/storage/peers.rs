//! The devices this one has paired with.

use vstd::prelude::*;

use super::activity;
use super::activity::{Event, Happening};
use super::db::{Db, Index};
use super::error::{Error, Fault};
use crate::order;
use crate::order::{same_bytes, text_before};
use crate::sync::device::DeviceId;

verus! {

/// A device this one has paired with.
#[derive(Debug, Clone, PartialEq, Eq)]
pub struct TrustedPeer {
    pub device_id: DeviceId,
    pub fingerprint: [u8; 32],
    /// What the user calls it. Chosen by the peer, so display-only: never used
    /// to decide anything.
    pub name: String,
    pub paired_at: i64,
    pub last_seen: Option<i64>,
}

/// A device this one has paired with, as values.
pub struct Peer {
    pub device_id: Seq<u8>,
    pub fingerprint: Seq<u8>,
    pub name: Seq<char>,
    pub paired_at: i64,
    pub last_seen: Option<i64>,
}

impl View for TrustedPeer {
    type V = Peer;

    open spec fn view(&self) -> Peer {
        Peer {
            device_id: self.device_id@,
            fingerprint: self.fingerprint@,
            name: self.name@,
            paired_at: self.paired_at,
            last_seen: self.last_seen,
        }
    }
}

pub open spec fn peer_views(s: Seq<TrustedPeer>) -> Seq<Peer> {
    Seq::new(s.len(), |i: int| s[i]@)
}

/// One device cannot hold two identities, and one identity cannot serve two
/// devices.
pub open spec fn apart(s: Seq<Peer>) -> bool {
    forall|i: int, j: int|
        #![trigger s[i], s[j]]
        0 <= i < j < s.len() ==> s[i].device_id != s[j].device_id && s[i].fingerprint
            != s[j].fingerprint
}

/// Where the row of a device stands from `n` on, or the number of rows.
pub open spec fn of_device(s: Seq<Peer>, device: Seq<u8>, n: int) -> int
    decreases s.len() - n,
{
    if 0 <= n < s.len() && s[n].device_id != device {
        of_device(s, device, n + 1)
    } else {
        n
    }
}

/// Where the row of a fingerprint stands from `n` on, or the number of rows.
pub open spec fn of_fingerprint(s: Seq<Peer>, fingerprint: Seq<u8>, n: int) -> int
    decreases s.len() - n,
{
    if 0 <= n < s.len() && s[n].fingerprint != fingerprint {
        of_fingerprint(s, fingerprint, n + 1)
    } else {
        n
    }
}

/// Whether the fingerprint is another device's.
pub open spec fn taken(s: Seq<Peer>, device: Seq<u8>, fingerprint: Seq<u8>) -> bool {
    let k = of_fingerprint(s, fingerprint, 0);
    k < s.len() && s[k].device_id != device
}

/// The peers once a device is trusted. One that was trusted before keeps the
/// time of its pairing and gets the new name and fingerprint.
pub open spec fn trusted(
    s: Seq<Peer>,
    device: Seq<u8>,
    fingerprint: Seq<u8>,
    name: Seq<char>,
    now: i64,
) -> Seq<Peer> {
    let i = of_device(s, device, 0);
    if i < s.len() {
        s.update(i, Peer { fingerprint, name, ..s[i] })
    } else {
        s.push(
            Peer { device_id: device, fingerprint, name, paired_at: now, last_seen: None },
        )
    }
}

/// The index once a device is trusted. Only a genuinely new device is worth a
/// line in the history.
pub open spec fn paired(
    ix: Index,
    device: Seq<u8>,
    fingerprint: Seq<u8>,
    name: Seq<char>,
    now: i64,
) -> Index {
    Index {
        peers: trusted(ix.peers, device, fingerprint, name, now),
        history: if of_device(ix.peers, device, 0) < ix.peers.len() {
            ix.history
        } else {
            ix.history.push(
                Happening {
                    id: activity::next_number(ix.history) as i64,
                    at: now,
                    kind: "paired"@,
                    path: None,
                    size: None,
                    device: Some(device),
                    detail: Some(name),
                },
            )
        },
        ..ix
    }
}

/// The index once a device is no longer trusted.
pub open spec fn forgotten(ix: Index, device: Seq<u8>) -> Index {
    let i = of_device(ix.peers, device, 0);
    if i < ix.peers.len() {
        Index { peers: ix.peers.remove(i), ..ix }
    } else {
        ix
    }
}

/// The index once the device with a fingerprint was seen.
pub open spec fn sighted(ix: Index, fingerprint: Seq<u8>, now: i64) -> Index {
    let k = of_fingerprint(ix.peers, fingerprint, 0);
    if k < ix.peers.len() {
        Index {
            peers: ix.peers.update(k, Peer { last_seen: Some(now), ..ix.peers[k] }),
            ..ix
        }
    } else {
        ix
    }
}

/// Each peer once, by name.
pub open spec fn is_roll(all: Seq<Peer>, list: Seq<Peer>) -> bool {
    &&& list.to_multiset() == all.to_multiset()
    &&& forall|i: int, j: int|
        #![trigger list[i], list[j]]
        0 <= i < j < list.len() ==> !order::text_precedes(list[j].name, list[i].name)
}

fn copy(peer: &TrustedPeer) -> (out: TrustedPeer)
    ensures
        out@ == peer@,
{
    TrustedPeer {
        device_id: peer.device_id,
        fingerprint: peer.fingerprint,
        name: peer.name.clone(),
        paired_at: peer.paired_at,
        last_seen: peer.last_seen,
    }
}

impl Db {
    fn peer_of_device(&self, device: &DeviceId) -> (n: usize)
        ensures
            n == of_device(self@.peers, device@, 0),
            n <= self.peers@.len(),
            n < self.peers@.len() ==> self@.peers[n as int].device_id == device@,
            forall|i: int| #![trigger self@.peers[i]] 0 <= i < n ==> self@.peers[i].device_id != device@,
    {
        let ghost all = self@.peers;
        let mut n: usize = 0;
        while n < self.peers.len()
            invariant
                n <= self.peers@.len(),
                all == self@.peers,
                of_device(all, device@, 0) == of_device(all, device@, n as int),
                forall|i: int| #![trigger all[i]] 0 <= i < n ==> all[i].device_id != device@,
            decreases self.peers@.len() - n,
        {
            assert(all[n as int] == self.peers@[n as int]@);
            if self.peers[n].device_id == *device {
                return n;
            }
            n += 1;
        }
        n
    }

    fn peer_of_fingerprint(&self, fingerprint: &[u8; 32]) -> (n: usize)
        ensures
            n == of_fingerprint(self@.peers, fingerprint@, 0),
            n <= self.peers@.len(),
            n < self.peers@.len() ==> self@.peers[n as int].fingerprint == fingerprint@,
            forall|i: int|
                #![trigger self@.peers[i]]
                0 <= i < n ==> self@.peers[i].fingerprint != fingerprint@,
    {
        let ghost all = self@.peers;
        let mut n: usize = 0;
        while n < self.peers.len()
            invariant
                n <= self.peers@.len(),
                all == self@.peers,
                of_fingerprint(all, fingerprint@, 0) == of_fingerprint(
                    all,
                    fingerprint@,
                    n as int,
                ),
                forall|i: int|
                    #![trigger all[i]]
                    0 <= i < n ==> all[i].fingerprint != fingerprint@,
            decreases self.peers@.len() - n,
        {
            assert(all[n as int] == self.peers@[n as int]@);
            if same_bytes(&self.peers[n].fingerprint, fingerprint) {
                return n;
            }
            n += 1;
        }
        n
    }

    /// Record a device as trusted.
    ///
    /// Binds a device id to a network fingerprint. Both are unique. Re-pairing an
    /// already-known device updates its name and fingerprint rather than creating
    /// a second row, so replacing a device's certificate does not leave a stale
    /// identity trusted forever.
    pub fn trust_peer(
        &mut self,
        device: &DeviceId,
        fingerprint: &[u8; 32],
        name: &str,
        now: i64,
    ) -> (result: Result<(), Error>)
        requires
            old(self).wf(),
            activity::next_number(old(self)@.history) <= i64::MAX,
        ensures
            final(self).wf(),
            match result {
                Ok(_) => {
                    &&& !taken(old(self)@.peers, device@, fingerprint@)
                    &&& final(self)@ == paired(old(self)@, device@, fingerprint@, name@, now)
                },
                Err(e) => {
                    &&& taken(old(self)@.peers, device@, fingerprint@)
                    &&& e@ == (Fault::Db { detail: "UNIQUE constraint failed: peers.fingerprint"@ })
                    &&& final(self)@ == old(self)@
                },
            },
    {
        let ghost before = self@.peers;
        let i: usize = self.peer_of_device(device);
        let k: usize = self.peer_of_fingerprint(fingerprint);
        if k < self.peers.len() {
            assert(before[k as int] == self.peers@[k as int]@);
            if self.peers[k].device_id != *device {
                return Err(
                    Error::Db { detail: "UNIQUE constraint failed: peers.fingerprint".to_owned() },
                );
            }
        }
        if i < self.peers.len() {
            assert(before[i as int] == self.peers@[i as int]@);
            let mut peer: TrustedPeer = copy(&self.peers[i]);
            peer.fingerprint = *fingerprint;
            peer.name = name.to_owned();
            self.peers.set(i, peer);
            proof {
                let after = before.update(i as int, peer@);
                assert(self@.peers =~= after);
                fingerprint_is_free(before, device@, fingerprint@, k as int);
                assert forall|a: int, b: int|
                    #![trigger after[a], after[b]]
                    0 <= a < b < after.len() implies after[a].device_id != after[b].device_id
                    && after[a].fingerprint != after[b].fingerprint by {
                    assert(before[a].device_id != before[b].device_id && before[a].fingerprint
                        != before[b].fingerprint);
                }
            }
        } else {
            let peer: TrustedPeer = TrustedPeer {
                device_id: *device,
                fingerprint: *fingerprint,
                name: name.to_owned(),
                paired_at: now,
                last_seen: None,
            };
            self.peers.push(peer);
            proof {
                let after = before.push(peer@);
                assert(self@.peers =~= after);
                fingerprint_is_free(before, device@, fingerprint@, k as int);
                assert forall|a: int, b: int|
                    #![trigger after[a], after[b]]
                    0 <= a < b < after.len() implies after[a].device_id != after[b].device_id
                    && after[a].fingerprint != after[b].fingerprint by {
                    assert(after[a] == before[a]);
                    if b < before.len() {
                        assert(after[b] == before[b]);
                    }
                }
            }
            self.record(&Event::Paired, None, None, Some(device), Some(name), now);
        }
        Ok(())
    }

    /// The devices that are trusted, by name.
    pub fn trusted_peers(&self) -> (list: Vec<TrustedPeer>)
        ensures
            is_roll(self@.peers, peer_views(list@)),
    {
        let ghost all = self@.peers;
        let mut list: Vec<TrustedPeer> = Vec::new();
        let mut n: usize = 0;
        proof {
            assert(peer_views(list@) =~= all.take(0));
        }
        while n < self.peers.len()
            invariant
                n <= self.peers@.len(),
                all == self@.peers,
                is_roll(all.take(n as int), peer_views(list@)),
            decreases self.peers@.len() - n,
        {
            let peer: &TrustedPeer = &self.peers[n];
            let ghost before = peer_views(list@);
            let mut k: usize = list.len();
            assert(all[n as int] == peer@);
            while k > 0 && text_before(peer.name.as_str(), list[k - 1].name.as_str())
                invariant
                    k <= list@.len(),
                    before == peer_views(list@),
                    forall|i: int|
                        #![trigger before[i]]
                        k <= i < before.len() ==> order::text_precedes(peer@.name, before[i].name),
                decreases k,
            {
                k -= 1;
                assert(before[k as int] == list@[k as int]@);
            }
            if k > 0 {
                assert(before[k - 1] == list@[k - 1]@);
            }
            list.insert(k, copy(peer));
            proof {
                let after = before.insert(k as int, peer@);
                assert(peer_views(list@) =~= after);
                inserted_in_order(before, k as int, peer@);
                assert(all.take(n + 1) =~= all.take(n as int).push(peer@));
                vstd::seq_lib::to_multiset_insert(before, k as int, peer@);
                all.take(n as int).to_multiset_ensures();
                assert(all.take(n as int).push(peer@).to_multiset() =~= all.take(
                    n as int,
                ).to_multiset().insert(peer@));
            }
            n += 1;
        }
        assert(all.take(n as int) =~= all);
        list
    }

    /// The device behind a fingerprint, if it is one we trust.
    ///
    /// What turns an authenticated connection into a known device: TLS proves the
    /// peer holds the key behind a fingerprint, and this says whose device that
    /// is.
    pub fn peer_by_fingerprint(&self, fingerprint: &[u8; 32]) -> (peer: Option<TrustedPeer>)
        ensures
            ({
                let k = of_fingerprint(self@.peers, fingerprint@, 0);
                match peer {
                    Some(p) => k < self@.peers.len() && p@ == self@.peers[k],
                    None => k == self@.peers.len(),
                }
            }),
    {
        let k: usize = self.peer_of_fingerprint(fingerprint);
        if k < self.peers.len() {
            assert(self@.peers[k as int] == self.peers@[k as int]@);
            Some(copy(&self.peers[k]))
        } else {
            None
        }
    }

    /// Stop trusting a device. Says whether it was trusted.
    pub fn forget_peer(&mut self, device: &DeviceId) -> (known: bool)
        requires
            old(self).wf(),
        ensures
            final(self).wf(),
            known == (of_device(old(self)@.peers, device@, 0) < old(self)@.peers.len()),
            final(self)@ == forgotten(old(self)@, device@),
    {
        let ghost before = self@.peers;
        let i: usize = self.peer_of_device(device);
        if i < self.peers.len() {
            self.peers.remove(i);
            proof {
                let after = before.remove(i as int);
                assert(self@.peers =~= after);
                assert forall|a: int, b: int|
                    #![trigger after[a], after[b]]
                    0 <= a < b < after.len() implies after[a].device_id != after[b].device_id
                    && after[a].fingerprint != after[b].fingerprint by {
                    let x = if a < i { a } else { a + 1 };
                    let y = if b < i { b } else { b + 1 };
                    assert(after[a] == before[x] && after[b] == before[y]);
                }
            }
            true
        } else {
            false
        }
    }

    /// Note that the device behind a fingerprint was seen just now.
    pub fn mark_peer_seen(&mut self, fingerprint: &[u8; 32], now: i64)
        requires
            old(self).wf(),
        ensures
            final(self).wf(),
            final(self)@ == sighted(old(self)@, fingerprint@, now),
    {
        let ghost before = self@.peers;
        let k: usize = self.peer_of_fingerprint(fingerprint);
        if k < self.peers.len() {
            assert(before[k as int] == self.peers@[k as int]@);
            let mut peer: TrustedPeer = copy(&self.peers[k]);
            peer.last_seen = Some(now);
            self.peers.set(k, peer);
            proof {
                let after = before.update(k as int, peer@);
                assert(self@.peers =~= after);
                assert forall|a: int, b: int|
                    #![trigger after[a], after[b]]
                    0 <= a < b < after.len() implies after[a].device_id != after[b].device_id
                    && after[a].fingerprint != after[b].fingerprint by {
                    assert(before[a].device_id != before[b].device_id && before[a].fingerprint
                        != before[b].fingerprint);
                }
            }
        }
    }
}

/// A fingerprint that is not taken belongs to the device or to nobody.
proof fn fingerprint_is_free(s: Seq<Peer>, device: Seq<u8>, fingerprint: Seq<u8>, k: int)
    requires
        apart(s),
        0 <= k <= s.len(),
        k < s.len() ==> s[k].fingerprint == fingerprint && s[k].device_id == device,
        forall|i: int| #![trigger s[i]] 0 <= i < k ==> s[i].fingerprint != fingerprint,
    ensures
        forall|i: int|
            #![trigger s[i]]
            0 <= i < s.len() && s[i].fingerprint == fingerprint ==> s[i].device_id == device,
{
    assert forall|i: int|
        #![trigger s[i]]
        0 <= i < s.len() && s[i].fingerprint == fingerprint implies s[i].device_id == device by {
        if i > k {
            assert(s[k].fingerprint != s[i].fingerprint);
        }
    }
}

proof fn inserted_in_order(before: Seq<Peer>, k: int, p: Peer)
    requires
        0 <= k <= before.len(),
        forall|i: int, j: int|
            #![trigger before[i], before[j]]
            0 <= i < j < before.len() ==> !order::text_precedes(before[j].name, before[i].name),
        forall|i: int|
            #![trigger before[i]]
            k <= i < before.len() ==> order::text_precedes(p.name, before[i].name),
        k > 0 ==> !order::text_precedes(p.name, before[k - 1].name),
    ensures
        forall|i: int, j: int|
            #![trigger before.insert(k, p)[i], before.insert(k, p)[j]]
            0 <= i < j <= before.len() ==> !order::text_precedes(
                before.insert(k, p)[j].name,
                before.insert(k, p)[i].name,
            ),
{
    let after = before.insert(k, p);
    assert forall|i: int, j: int|
        #![trigger after[i], after[j]]
        0 <= i < j <= before.len() implies !order::text_precedes(after[j].name, after[i].name) by {
        if i != k && j != k {
            let x = if i < k { i } else { i - 1 };
            let y = if j < k { j } else { j - 1 };
            assert(after[i] == before[x] && after[j] == before[y]);
        } else if i == k {
            assert(after[j] == before[j - 1]);
            order::text_order(p.name, before[j - 1].name, p.name);
        } else {
            assert(after[i] == before[i]);
            order::text_order(before[i].name, before[k - 1].name, p.name);
            order::text_order(p.name, before[i].name, before[k - 1].name);
            order::text_order(before[k - 1].name, p.name, before[i].name);
            if i < k - 1 {
                assert(!order::text_precedes(before[k - 1].name, before[i].name));
            }
        }
    }
}

/// Trusting a device puts it on record once, with the fingerprint and the name that
/// were given. One that was known keeps when it was paired and when it was last
/// seen; one that was not was paired now, has not been seen, and its pairing is
/// written down. Every other device stays as it was.
pub proof fn law_a_trusted_device_is_on_record(
    ix: Index,
    device: Seq<u8>,
    fingerprint: Seq<u8>,
    name: Seq<char>,
    now: i64,
)
    requires
        apart(ix.peers),
    ensures
        ({
            let after = paired(ix, device, fingerprint, name, now);
            &&& exists|p: Peer| #[trigger] after.peers.contains(p) && p.device_id == device
            &&& forall|p: Peer| #[trigger]
                after.peers.contains(p) && p.device_id == device ==> {
                    &&& p.fingerprint == fingerprint
                    &&& p.name == name
                    &&& (forall|i: int|
                        #![trigger ix.peers[i]]
                        0 <= i < ix.peers.len() ==> ix.peers[i].device_id != device)
                        ==> p.paired_at == now && p.last_seen is None
                    &&& forall|q: Peer| #[trigger]
                        ix.peers.contains(q) && q.device_id == device ==> p.paired_at
                            == q.paired_at && p.last_seen == q.last_seen
                }
            &&& forall|p: Peer|
                p.device_id != device ==> (#[trigger] after.peers.contains(p)
                    <==> ix.peers.contains(p))
            &&& (exists|q: Peer| #[trigger] ix.peers.contains(q) && q.device_id == device)
                ==> after.history == ix.history
            &&& (forall|i: int|
                #![trigger ix.peers[i]]
                0 <= i < ix.peers.len() ==> ix.peers[i].device_id != device) ==> {
                &&& after.history.len() == ix.history.len() + 1
                &&& after.history.drop_last() == ix.history
                &&& after.history.last().kind == "paired"@
                &&& after.history.last().at == now
                &&& after.history.last().device == Some(device)
                &&& after.history.last().detail == Some(name)
            }
            &&& after == (Index { peers: after.peers, history: after.history, ..ix })
        }),
{
    let after = paired(ix, device, fingerprint, name, now);
    let s = ix.peers;
    let t = after.peers;
    first_of_device(s, device, 0);
    let i = of_device(s, device, 0);
    let k = if i < s.len() {
        i
    } else {
        s.len() as int
    };
    assert(t[k].device_id == device);
    assert(t.contains(t[k]));
    assert forall|p: Peer| #[trigger] t.contains(p) && p.device_id == device implies p == t[k] by {
        let j = choose|j: int| 0 <= j < t.len() && t[j] == p;
        if j != k {
            assert(s[j] == p);
            if i < s.len() {
                if j < k {
                    assert(s[j].device_id != s[k].device_id);
                } else {
                    assert(s[k].device_id != s[j].device_id);
                }
            }
        }
    }
    assert forall|q: Peer| #[trigger] s.contains(q) && q.device_id == device implies i < s.len()
        && q == s[i] by {
        let j = choose|j: int| 0 <= j < s.len() && s[j] == q;
        if i < s.len() && j != i {
            if j < i {
                assert(s[j].device_id != s[i].device_id);
            } else {
                assert(s[i].device_id != s[j].device_id);
            }
        }
    }
    assert forall|p: Peer| p.device_id != device implies (#[trigger] t.contains(p) <==> s.contains(
        p,
    )) by {
        if t.contains(p) {
            let j = choose|j: int| 0 <= j < t.len() && t[j] == p;
            assert(s[j] == p);
        }
        if s.contains(p) {
            let j = choose|j: int| 0 <= j < s.len() && s[j] == p;
            assert(t[j] == p);
        }
    }
    if i == s.len() {
        assert(after.history.drop_last() =~= ix.history);
    } else {
        assert(s.contains(s[i]));
        assert(s[i].device_id == device);
    }
}

/// The first device with an identity is found where it stands, or not at all.
proof fn first_of_device(s: Seq<Peer>, device: Seq<u8>, n: int)
    requires
        0 <= n <= s.len(),
    ensures
        n <= of_device(s, device, n) <= s.len(),
        of_device(s, device, n) < s.len() ==> s[of_device(s, device, n)].device_id == device,
        forall|i: int|
            #![trigger s[i]]
            n <= i < of_device(s, device, n) ==> s[i].device_id != device,
    decreases s.len() - n,
{
    if n < s.len() && s[n].device_id != device {
        first_of_device(s, device, n + 1);
    }
}

/// A fingerprint is taken exactly where another device has it.
pub proof fn law_a_fingerprint_is_taken_by_another_device(
    s: Seq<Peer>,
    device: Seq<u8>,
    fingerprint: Seq<u8>,
)
    requires
        apart(s),
    ensures
        taken(s, device, fingerprint) <==> exists|p: Peer| #[trigger]
            s.contains(p) && p.fingerprint == fingerprint && p.device_id != device,
        of_fingerprint(s, fingerprint, 0) < s.len() ==> s[of_fingerprint(
            s,
            fingerprint,
            0,
        )].fingerprint == fingerprint,
        of_fingerprint(s, fingerprint, 0) >= s.len() ==> forall|i: int|
            #![trigger s[i]]
            0 <= i < s.len() ==> s[i].fingerprint != fingerprint,
{
    first_of_fingerprint(s, fingerprint, 0);
    let k = of_fingerprint(s, fingerprint, 0);
    if taken(s, device, fingerprint) {
        assert(s.contains(s[k]));
    }
    if exists|p: Peer| #[trigger]
        s.contains(p) && p.fingerprint == fingerprint && p.device_id != device {
        let p = choose|p: Peer| #[trigger]
            s.contains(p) && p.fingerprint == fingerprint && p.device_id != device;
        let j = choose|j: int| 0 <= j < s.len() && s[j] == p;
        if k < j {
            assert(s[k].fingerprint != s[j].fingerprint);
        }
    }
}

proof fn first_of_fingerprint(s: Seq<Peer>, fingerprint: Seq<u8>, n: int)
    requires
        0 <= n <= s.len(),
    ensures
        n <= of_fingerprint(s, fingerprint, n) <= s.len(),
        of_fingerprint(s, fingerprint, n) < s.len() ==> s[of_fingerprint(
            s,
            fingerprint,
            n,
        )].fingerprint == fingerprint,
        forall|i: int|
            #![trigger s[i]]
            n <= i < of_fingerprint(s, fingerprint, n) ==> s[i].fingerprint != fingerprint,
    decreases s.len() - n,
{
    if n < s.len() && s[n].fingerprint != fingerprint {
        first_of_fingerprint(s, fingerprint, n + 1);
    }
}

/// A device that is forgotten is no longer on record, and every other one is, as it
/// was.
pub proof fn law_a_forgotten_device_is_off_the_record(ix: Index, device: Seq<u8>)
    requires
        apart(ix.peers),
    ensures
        forall|p: Peer| #[trigger]
            forgotten(ix, device).peers.contains(p) <==> ix.peers.contains(p) && p.device_id
                != device,
        forgotten(ix, device) == (Index { peers: forgotten(ix, device).peers, ..ix }),
{
    first_of_device(ix.peers, device, 0);
    let s = ix.peers;
    let i = of_device(s, device, 0);
    let t = forgotten(ix, device).peers;
    assert forall|p: Peer| #[trigger] t.contains(p) <==> s.contains(p) && p.device_id != device by {
        if t.contains(p) {
            let j = choose|j: int| 0 <= j < t.len() && t[j] == p;
            if i < s.len() {
                if j < i {
                    assert(s[j] == p);
                } else {
                    assert(s[j + 1] == p);
                    assert(s[i].device_id != s[j + 1].device_id);
                }
            } else {
                assert(s[j] == p);
            }
        }
        if s.contains(p) && p.device_id != device {
            let j = choose|j: int| 0 <= j < s.len() && s[j] == p;
            if i < s.len() {
                if j < i {
                    assert(t[j] == p);
                } else {
                    assert(j != i);
                    assert(t[j - 1] == p);
                }
            } else {
                assert(t[j] == p);
            }
        }
    }
}

/// A sighting is noted of the device with the fingerprint, and of no other, and
/// changes nothing else of it.
pub proof fn law_a_sighting_is_noted_of_one_device(ix: Index, fingerprint: Seq<u8>, now: i64)
    requires
        apart(ix.peers),
    ensures
        ({
            let after = sighted(ix, fingerprint, now);
            &&& after.peers.len() == ix.peers.len()
            &&& forall|i: int|
                #![trigger after.peers[i]]
                0 <= i < ix.peers.len() ==> after.peers[i] == if ix.peers[i].fingerprint
                    == fingerprint {
                    Peer { last_seen: Some(now), ..ix.peers[i] }
                } else {
                    ix.peers[i]
                }
            &&& after == (Index { peers: after.peers, ..ix })
        }),
{
    first_of_fingerprint(ix.peers, fingerprint, 0);
    let s = ix.peers;
    let k = of_fingerprint(s, fingerprint, 0);
    assert forall|i: int|
        #![trigger s[i]]
        0 <= i < s.len() && s[i].fingerprint == fingerprint implies i == k by {
        if k < i {
            assert(s[k].fingerprint != s[i].fingerprint);
        }
    }
}

/// The roll names every trusted device as often as it is on record, by name.
pub proof fn law_the_roll_is_complete_and_by_name(all: Seq<Peer>, list: Seq<Peer>, p: Peer)
    requires
        is_roll(all, list),
    ensures
        list.contains(p) <==> all.contains(p),
        list.len() == all.len(),
        forall|i: int, j: int|
            #![trigger list[i], list[j]]
            0 <= i < j < list.len() ==> !order::text_precedes(list[j].name, list[i].name),
{
    broadcast use vstd::seq_lib::group_to_multiset_ensures;

    assert(list.to_multiset().count(p) == all.to_multiset().count(p));
    assert(list.to_multiset().len() == all.to_multiset().len());
}

} // verus!
