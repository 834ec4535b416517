//! Version vectors.
//!
//! With a central server, "which version is current?" has an easy answer:
//! whatever the server says. There is no server here, so devices have to work
//! it out between themselves from what they each know.
//!
//! A version vector records, for each device, how many changes from that device
//! this version is aware of: `{laptop: 42, phone: 12}`. Comparing two vectors
//! answers the only question that matters: did one of these changes happen
//! *after* the other, or did they happen without either knowing about the
//! other?

use vstd::prelude::*;

use super::device::DeviceId;
use crate::bytes;
use crate::bytes::{append, u32_at, u32_bytes, u64_at, u64_bytes};
use crate::order;
use crate::text::decimal_of;

verus! {

/// How two versions relate in time.
#[derive(Debug, Clone, Copy, PartialEq, Eq, Structural)]
pub enum Causality {
    /// The same version.
    Equal,
    /// The left version happened before the right, which has seen it.
    Before,
    /// The left version happened after the right, and has seen it.
    After,
    /// Neither has seen the other. This is a conflict.
    Concurrent,
}

/// What a vector says: for each device, by its identity bytes, how many of its
/// changes are known. A device that is not listed counts as zero.
pub type Counts = Map<Seq<u8>, u64>;

/// How many changes of `device` are known.
pub open spec fn count(m: Counts, device: Seq<u8>) -> u64 {
    if m.contains_key(device) {
        m[device]
    } else {
        0
    }
}

/// Everything that `a` knows, `b` knows too.
pub open spec fn known_to(a: Counts, b: Counts) -> bool {
    forall|d: Seq<u8>| #[trigger] count(a, d) <= count(b, d)
}

/// How the version with vector `a` relates to the one with vector `b`.
pub open spec fn causality(a: Counts, b: Counts) -> Causality {
    if known_to(a, b) && known_to(b, a) {
        Causality::Equal
    } else if known_to(b, a) {
        Causality::After
    } else if known_to(a, b) {
        Causality::Before
    } else {
        Causality::Concurrent
    }
}

/// The vector that knows what both know: for each device the higher count.
pub open spec fn join(a: Counts, b: Counts) -> Counts {
    Map::new(
        |d: Seq<u8>| a.contains_key(d) || b.contains_key(d),
        |d: Seq<u8>|
            if count(a, d) >= count(b, d) {
                count(a, d)
            } else {
                count(b, d)
            },
    )
}

/// What a vector can hold: finitely many devices, each with at least one
/// change.
pub open spec fn valid(m: Counts) -> bool {
    &&& m.dom().finite()
    &&& forall|d: Seq<u8>| #[trigger] m.contains_key(d) ==> d.len() == 32 && m[d] > 0
}

/// The devices stand in their order, none of them twice.
pub open spec fn ascending(s: Seq<(Seq<u8>, u64)>) -> bool {
    forall|i: int, j: int|
        #![trigger s[i], s[j]]
        0 <= i < j < s.len() ==> order::bytes_precede(s[i].0, s[j].0)
}

/// `s` lists exactly what `m` holds, in device order.
pub open spec fn lists(s: Seq<(Seq<u8>, u64)>, m: Counts) -> bool {
    &&& ascending(s)
    &&& forall|i: int|
        #![trigger s[i]]
        0 <= i < s.len() ==> m.contains_key(s[i].0) && m[s[i].0] == s[i].1
    &&& forall|d: Seq<u8>| #[trigger]
        m.contains_key(d) ==> exists|i: int| 0 <= i < s.len() && #[trigger] s[i].0 == d
}

/// The entries of a vector in device order.
pub open spec fn listing(m: Counts) -> Seq<(Seq<u8>, u64)> {
    choose|s: Seq<(Seq<u8>, u64)>| lists(s, m)
}

/// A vector has one listing only.
proof fn lists_unique(s: Seq<(Seq<u8>, u64)>, t: Seq<(Seq<u8>, u64)>, m: Counts)
    requires
        lists(s, m),
        lists(t, m),
    ensures
        s == t,
    decreases s.len(),
{
    if s.len() == 0 {
        if t.len() > 0 {
            assert(m.contains_key(t[0].0));
        }
        assert(s =~= t);
    } else {
        assert(m.contains_key(s[0].0));
        let n = s.len() - 1;
        assert(m.contains_key(s[n].0));
        let k = choose|k: int| 0 <= k < t.len() && #[trigger] t[k].0 == s[n].0;
        let l = t.len() - 1;
        // The greatest device ends both listings.
        if k != l {
            assert(order::bytes_precede(t[k].0, t[l].0));
            assert(m.contains_key(t[l].0));
            let j = choose|j: int| 0 <= j < s.len() && #[trigger] s[j].0 == t[l].0;
            if j < n {
                assert(order::bytes_precede(s[j].0, s[n].0));
                order::bytes_order(s[n].0, t[l].0, s[n].0);
            } else {
                order::bytes_order(s[n].0, s[n].0, s[n].0);
            }
        }
        assert(s[n] == t[l]);
        let rest = m.remove(s[n].0);
        assert forall|p: Seq<(Seq<u8>, u64)>| #[trigger]
            lists(p, m) && p.len() > 0 && p.last() == s[n] implies lists(p.drop_last(), rest) by {
            let q = p.drop_last();
            assert forall|i: int| #![trigger q[i]] 0 <= i < q.len() implies rest.contains_key(q[i].0)
                && rest[q[i].0] == q[i].1 by {
                assert(q[i] == p[i]);
                assert(order::bytes_precede(p[i].0, p[p.len() - 1].0));
                order::bytes_order(p[i].0, p[i].0, p[i].0);
            }
            assert forall|d: Seq<u8>| #[trigger] rest.contains_key(d) implies exists|i: int|
                0 <= i < q.len() && #[trigger] q[i].0 == d by {
                assert(m.contains_key(d));
                let i = choose|i: int| 0 <= i < p.len() && #[trigger] p[i].0 == d;
                assert(q[i].0 == d);
            }
        }
        lists_unique(s.drop_last(), t.drop_last(), rest);
        assert(s =~= s.drop_last().push(s[n]));
        assert(t =~= t.drop_last().push(t[l]));
    }
}

/// What is well kept is such as a vector can be.
proof fn kept_is_valid(s: Seq<(DeviceId, u64)>)
    requires
        well_kept(s),
    ensures
        valid(entry_map(s)),
{
    entry_map_finite(s);
    let m = entry_map(s);
    assert forall|d: Seq<u8>| #[trigger] m.contains_key(d) implies d.len() == 32 && m[d] > 0 by {
        let i = choose|i: int| 0 <= i < s.len() && #[trigger] s[i].0@ == d;
        entry_in_map(s, i);
        super::device::identity_is_its_bytes(s[i].0, s[i].0);
    }
}

/// Any listing of a vector is the one that [`listing`] names.
proof fn listing_is(s: Seq<(Seq<u8>, u64)>, m: Counts)
    requires
        lists(s, m),
    ensures
        listing(m) == s,
{
    lists_unique(listing(m), s, m);
}

/// A per-device counter map.
///
/// A device missing from the map is treated as zero, so an empty vector is the
/// beginning of time and precedes everything. The entries are kept in device
/// order, so that identical state always produces identical bytes.
#[derive(Debug)]
pub struct VersionVector {
    entries: Vec<(DeviceId, u64)>,
}

/// The entries with each device replaced by its identity bytes.
spec fn entry_views(s: Seq<(DeviceId, u64)>) -> Seq<(Seq<u8>, u64)> {
    Seq::new(s.len(), |i: int| (s[i].0@, s[i].1))
}

/// Where a device stands among the entries.
spec fn entry_of(s: Seq<(DeviceId, u64)>, d: Seq<u8>) -> int {
    choose|i: int| 0 <= i < s.len() && #[trigger] s[i].0@ == d
}

/// The map that a list of entries stands for.
spec fn entry_map(s: Seq<(DeviceId, u64)>) -> Counts {
    Map::new(
        |d: Seq<u8>| exists|i: int| 0 <= i < s.len() && #[trigger] s[i].0@ == d,
        |d: Seq<u8>| s[entry_of(s, d)].1,
    )
}

/// What the stored entries keep: device order, and no count of zero.
spec fn well_kept(s: Seq<(DeviceId, u64)>) -> bool {
    &&& forall|i: int, j: int|
        #![trigger s[i], s[j]]
        0 <= i < j < s.len() ==> order::bytes_precede(s[i].0@, s[j].0@)
    &&& forall|i: int| #![trigger s[i]] 0 <= i < s.len() ==> s[i].1 > 0
}

/// In a well kept list no device stands twice.
proof fn entries_distinct(s: Seq<(DeviceId, u64)>, i: int, j: int)
    requires
        well_kept(s),
        0 <= i < s.len(),
        0 <= j < s.len(),
        s[i].0@ == s[j].0@,
    ensures
        i == j,
{
    order::bytes_order(s[i].0@, s[i].0@, s[i].0@);
    if i < j {
        assert(order::bytes_precede(s[i].0@, s[j].0@));
    } else if j < i {
        assert(order::bytes_precede(s[j].0@, s[i].0@));
    }
}

/// Each entry of a well kept list is in its map, with its count.
proof fn entry_in_map(s: Seq<(DeviceId, u64)>, i: int)
    requires
        well_kept(s),
        0 <= i < s.len(),
    ensures
        entry_map(s).contains_key(s[i].0@),
        entry_map(s)[s[i].0@] == s[i].1,
{
    entries_distinct(s, i, entry_of(s, s[i].0@));
}

/// A well kept list lists its map.
proof fn entries_list_map(s: Seq<(DeviceId, u64)>)
    requires
        well_kept(s),
    ensures
        lists(entry_views(s), entry_map(s)),
        listing(entry_map(s)) == entry_views(s),
        valid(entry_map(s)),
{
    let v = entry_views(s);
    let m = entry_map(s);
    assert forall|i: int| #![trigger v[i]] 0 <= i < v.len() implies m.contains_key(v[i].0)
        && m[v[i].0] == v[i].1 by {
        entry_in_map(s, i);
    }
    assert forall|d: Seq<u8>| #[trigger] m.contains_key(d) implies exists|i: int|
        0 <= i < v.len() && #[trigger] v[i].0 == d by {
        let i = choose|i: int| 0 <= i < s.len() && #[trigger] s[i].0@ == d;
        assert(v[i].0 == d);
    }
    listing_is(v, m);
    assert forall|d: Seq<u8>| #[trigger] m.contains_key(d) implies d.len() == 32 && m[d] > 0 by {
        let i = choose|i: int| 0 <= i < s.len() && #[trigger] s[i].0@ == d;
        super::device::identity_is_its_bytes(s[i].0, s[i].0);
        entry_in_map(s, i);
    }
    entry_map_finite(s);
}

proof fn entry_map_finite(s: Seq<(DeviceId, u64)>)
    ensures
        entry_map(s).dom().finite(),
    decreases s.len(),
{
    if s.len() == 0 {
        assert(entry_map(s).dom() =~= Set::empty());
    } else {
        let t = s.drop_last();
        entry_map_finite(t);
        let d = s.last().0@;
        assert forall|k: Seq<u8>| entry_map(s).contains_key(k) implies k == d || entry_map(
            t,
        ).contains_key(k) by {
            let i = choose|i: int| 0 <= i < s.len() && #[trigger] s[i].0@ == k;
            if i < t.len() {
                assert(t[i].0@ == k);
            }
        }
        assert(entry_map(s).dom().subset_of(entry_map(t).dom().insert(d)));
        vstd::set_lib::lemma_set_subset_finite(entry_map(t).dom().insert(d), entry_map(s).dom());
    }
}

/// Where `device` stands among the entries, or where it belongs.
fn slot(entries: &Vec<(DeviceId, u64)>, device: &DeviceId) -> (found: (usize, bool))
    requires
        well_kept(entries@),
    ensures
        found.0 <= entries@.len(),
        forall|i: int|
            #![trigger entries@[i]]
            0 <= i < found.0 ==> order::bytes_precede(entries@[i].0@, device@),
        found.1 ==> found.0 < entries@.len() && entries@[found.0 as int].0@ == device@,
        !found.1 ==> forall|i: int|
            #![trigger entries@[i]]
            found.0 <= i < entries@.len() ==> order::bytes_precede(device@, entries@[i].0@),
        found.1 == entry_map(entries@).contains_key(device@),
{
    let mut i: usize = 0;
    while i < entries.len() && order::bytes_before(entries[i].0.as_bytes(), device.as_bytes())
        invariant
            i <= entries@.len(),
            forall|j: int|
                #![trigger entries@[j]]
                0 <= j < i ==> order::bytes_precede(entries@[j].0@, device@),
        decreases entries@.len() - i,
    {
        i += 1;
    }
    let here = i < entries.len() && entries[i].0 == *device;
    proof {
        let s = entries@;
        let d = device@;
        if i < s.len() {
            order::bytes_order(d, s[i as int].0@, d);
            order::bytes_order(s[i as int].0@, d, d);
            if !here {
                assert forall|j: int| #![trigger s[j]] i <= j < s.len() implies order::bytes_precede(
                    d,
                    s[j].0@,
                ) by {
                    if j > i {
                        assert(order::bytes_precede(s[i as int].0@, s[j].0@));
                        order::bytes_order(d, s[i as int].0@, s[j].0@);
                    }
                }
            }
        }
        if here {
            entry_in_map(s, i as int);
        } else if entry_map(s).contains_key(d) {
            let k = choose|k: int| 0 <= k < s.len() && #[trigger] s[k].0@ == d;
            order::bytes_order(d, d, d);
            assert(order::bytes_precede(s[k].0@, d) || order::bytes_precede(d, s[k].0@));
        }
    }
    (i, here)
}

impl View for VersionVector {
    type V = Counts;

    closed spec fn view(&self) -> Counts {
        entry_map(self.entries@)
    }
}

impl VersionVector {
    #[verifier::type_invariant]
    spec fn kept(&self) -> bool {
        well_kept(self.entries@)
    }

    pub fn new() -> (vector: Self)
        ensures
            vector@ == Map::<Seq<u8>, u64>::empty(),
            valid(vector@),
    {
        let vector = VersionVector { entries: Vec::new() };
        assert(vector@ =~= Map::<Seq<u8>, u64>::empty());
        vector
    }

    pub fn get(&self, device: &DeviceId) -> (n: u64)
        ensures
            n == count(self@, device@),
            valid(self@),
    {
        proof {
            use_type_invariant(self);
            kept_is_valid(self.entries@);
        }
        let (at, here) = slot(&self.entries, device);
        if here {
            proof {
                entry_in_map(self.entries@, at as int);
            }
            self.entries[at].1
        } else {
            0
        }
    }

    pub fn set(&mut self, device: DeviceId, value: u64)
        ensures
            final(self)@ == (if value == 0 {
                old(self)@.remove(device@)
            } else {
                old(self)@.insert(device@, value)
            }),
            valid(final(self)@),
    {
        proof {
            use_type_invariant(&*self);
        }
        let ghost before = self.entries@;
        let mut entries: Vec<(DeviceId, u64)> = Vec::new();
        core::mem::swap(&mut self.entries, &mut entries);
        let (at, here) = slot(&entries, &device);
        if value == 0 {
            if here {
                entries.remove(at);
                proof {
                    removed_entry(before, at as int);
                }
            } else {
                assert(entry_map(before) =~= entry_map(before).remove(device@));
            }
        } else if here {
            entries.set(at, (device, value));
            proof {
                replaced_entry(before, at as int, (device, value));
            }
        } else {
            entries.insert(at, (device, value));
            proof {
                added_entry(before, at as int, (device, value));
            }
        }
        self.entries = entries;
        proof {
            kept_is_valid(self.entries@);
        }
    }

    /// Record a change made by `device`.
    pub fn increment(&mut self, device: DeviceId)
        requires
            count(old(self)@, device@) < u64::MAX,
        ensures
            final(self)@ == old(self)@.insert(device@, (count(old(self)@, device@) + 1) as u64),
            valid(final(self)@),
    {
        let n: u64 = self.get(&device);
        self.set(device, n + 1);
    }

    pub fn is_empty(&self) -> (empty: bool)
        ensures
            empty == (self@ == Map::<Seq<u8>, u64>::empty()),
    {
        proof {
            if self.entries@.len() == 0 {
                assert(self@ =~= Map::<Seq<u8>, u64>::empty());
            } else {
                assert(self@.contains_key(self.entries@[0].0@));
            }
        }
        self.entries.len() == 0
    }

    /// The devices and their counts, in device order.
    pub fn devices(&self) -> (entries: Vec<(DeviceId, u64)>)
        ensures
            entries@.len() == listing(self@).len(),
            forall|i: int|
                #![trigger entries@[i]]
                0 <= i < entries@.len() ==> (entries@[i].0@, entries@[i].1) == listing(self@)[i],
            lists(listing(self@), self@),
            valid(self@),
    {
        proof {
            use_type_invariant(self);
            entries_list_map(self.entries@);
            kept_is_valid(self.entries@);
        }
        copy_entries(&self.entries)
    }

    /// Absorb everything the other vector knows, keeping the higher count for
    /// each device.
    ///
    /// Used when a device learns of a change: it now knows everything both
    /// versions knew. Also how a conflict resolution records that it has seen
    /// both sides, so the merged result supersedes each of them.
    pub fn merge(&mut self, other: &Self)
        ensures
            final(self)@ == join(old(self)@, other@),
            valid(final(self)@),
    {
        proof {
            use_type_invariant(other);
        }
        let ghost s = other.entries@;
        let mut i: usize = 0;
        assert(self@ =~= join(old(self)@, entry_map(s.take(0))));
        while i < other.entries.len()
            invariant
                i <= s.len(),
                s == other.entries@,
                well_kept(s),
                self@ == join(old(self)@, entry_map(s.take(i as int))),
            decreases s.len() - i,
        {
            let (device, n) = other.entries[i];
            let ghost before = self@;
            if n > self.get(&device) {
                self.set(device, n);
            }
            proof {
                let m = entry_map(s.take(i as int));
                let next = s.take(i + 1);
                assert(s.take(i as int) =~= next.drop_last());
                assert forall|p: int, q: int| #![trigger next[p], next[q]] 0 <= p < q
                    < next.len() implies next[p].0@ != next[q].0@ by {
                    if next[p].0@ == next[q].0@ {
                        entries_distinct(s, p, q);
                    }
                }
                grown_map(next);
                assert(entry_map(next) == m.insert(device@, n));
                if m.contains_key(device@) {
                    let k = choose|k: int|
                        0 <= k < i && #[trigger] s.take(i as int)[k].0@ == device@;
                    entries_distinct(s, k, i as int);
                }
                assert(self@ =~= join(old(self)@, entry_map(next)));
            }
            i += 1;
        }
        assert(s.take(i as int) =~= s);
        proof {
            use_type_invariant(&*self);
            kept_is_valid(self.entries@);
        }
    }

    pub fn merged(&self, other: &Self) -> (both: Self)
        ensures
            both@ == join(self@, other@),
            valid(both@),
    {
        let mut out: VersionVector = self.clone();
        out.merge(other);
        out
    }

    /// Compare two vectors.
    ///
    /// One vector precedes another when every one of its counters is less than
    /// or equal to the other's. If that holds in neither direction, each knows
    /// something the other does not, and they are concurrent.
    pub fn compare(&self, other: &Self) -> (relation: Causality)
        ensures
            relation == causality(self@, other@),
            valid(self@),
            valid(other@),
    {
        proof {
            use_type_invariant(self);
            use_type_invariant(other);
            kept_is_valid(self.entries@);
            kept_is_valid(other.entries@);
        }
        let behind = self.within(other);
        let ahead = other.within(self);
        match (ahead, behind) {
            (true, true) => Causality::Equal,
            (true, false) => Causality::After,
            (false, true) => Causality::Before,
            (false, false) => Causality::Concurrent,
        }
    }

    /// Whether the other vector knows everything that this one knows.
    fn within(&self, other: &Self) -> (known: bool)
        ensures
            known == known_to(self@, other@),
    {
        proof {
            use_type_invariant(self);
        }
        let ghost s = self.entries@;
        let mut i: usize = 0;
        while i < self.entries.len()
            invariant
                i <= s.len(),
                s == self.entries@,
                well_kept(s),
                forall|k: int|
                    #![trigger s[k]]
                    0 <= k < i ==> s[k].1 <= count(other@, s[k].0@),
            decreases s.len() - i,
        {
            let (device, n) = self.entries[i];
            proof {
                entry_in_map(s, i as int);
            }
            if n > other.get(&device) {
                assert(count(self@, device@) > count(other@, device@));
                return false;
            }
            i += 1;
        }
        assert forall|d: Seq<u8>| #[trigger] count(self@, d) <= count(other@, d) by {
            if self@.contains_key(d) {
                let k = choose|k: int| 0 <= k < s.len() && #[trigger] s[k].0@ == d;
                entry_in_map(s, k);
            }
        }
        true
    }

    /// Whether this version already accounts for the other.
    pub fn dominates(&self, other: &Self) -> (covered: bool)
        ensures
            covered == known_to(other@, self@),
    {
        matches!(self.compare(other), Causality::After | Causality::Equal)
    }

    /// Encode for storage and for the wire.
    ///
    /// `[count: u32 LE][(device: 32 bytes, counter: u64 LE)]*`, in device
    /// order. Deterministic, so the same state always produces the same bytes.
    pub fn encode(&self) -> (out: Vec<u8>)
        ensures
            out@ == encoding(listing(self@)),
            lists(listing(self@), self@),
            valid(self@),
    {
        proof {
            use_type_invariant(self);
            kept_is_valid(self.entries@);
            entries_list_map(self.entries@);
        }
        let ghost s = entry_views(self.entries@);
        let mut out: Vec<u8> = u32_bytes(self.entries.len() as u32);
        let ghost head = out@;
        let mut i: usize = 0;
        assert(head + body(s.take(0)) =~= head);
        while i < self.entries.len()
            invariant
                i <= self.entries@.len(),
                s == entry_views(self.entries@),
                out@ == head + body(s.take(i as int)),
            decreases self.entries@.len() - i,
        {
            let (device, n) = self.entries[i];
            let ghost before = out@;
            append(&mut out, device.as_bytes());
            append(&mut out, &u64_bytes(n));
            i += 1;
            proof {
                assert(s.take(i as int).drop_last() =~= s.take(i - 1));
                assert(s.take(i as int).last() == (device@, n));
                assert(out@ =~= head + body(s.take(i as int)));
            }
        }
        assert(s.take(i as int) =~= s);
        out
    }

    /// Read back what [`encode`](Self::encode) wrote.
    pub fn decode(bytes: &[u8]) -> (result: Result<Self, DecodeError>)
        ensures
            match result {
                Err(DecodeError::Truncated) => bytes@.len() < 4,
                Err(DecodeError::LengthMismatch { expected, actual }) => {
                    &&& bytes@.len() >= 4
                    &&& expected == encoded_len(bytes@)
                    &&& actual == bytes@.len()
                    &&& expected != actual
                },
                Ok(vector) => {
                    &&& bytes@.len() >= 4
                    &&& bytes@.len() == encoded_len(bytes@)
                    &&& vector@ == decoded(bytes@, bytes::le_at(bytes@, 0, 4))
                    &&& valid(vector@)
                },
            },
    {
        if bytes.len() < 4 {
            return Err(DecodeError::Truncated);
        }
        let count: u32 = u32_at(bytes, 0);
        let expected: u64 = 4 + count as u64 * 40;
        if bytes.len() as u64 != expected {
            return Err(DecodeError::LengthMismatch { expected, actual: bytes.len() as u64 });
        }
        let len: usize = bytes.len();
        let mut vector: VersionVector = VersionVector::new();
        let mut i: u32 = 0;
        while i < count
            invariant
                i <= count,
                len == bytes@.len() == 4 + count * 40,
                vector@ == decoded(bytes@, i as nat),
                valid(vector@),
            decreases count - i,
        {
            let at: usize = 4 + i as usize * 40;
            let device: DeviceId = device_at(bytes, at);
            let n: u64 = u64_at(bytes, at + 32);
            if n > 0 {
                vector.set(device, n);
            }
            i += 1;
        }
        Ok(vector)
    }
}

/// Why bytes are not a version vector.
#[derive(Debug, Clone, Copy, PartialEq, Eq, Structural)]
pub enum DecodeError {
    /// There is not even a count.
    Truncated,
    /// The count asks for another number of bytes.
    LengthMismatch { expected: u64, actual: u64 },
}

impl DecodeError {
    /// The error as a sentence.
    pub fn to_string(&self) -> (text: String)
        ensures
            match *self {
                DecodeError::Truncated => text@ == "version vector is truncated"@,
                DecodeError::LengthMismatch { expected, actual } => text@
                    == "version vector length mismatch: expected "@ + crate::text::decimal(
                    expected as nat,
                ) + " bytes, got "@ + crate::text::decimal(actual as nat),
            },
    {
        match *self {
            DecodeError::Truncated => "version vector is truncated".to_owned(),
            DecodeError::LengthMismatch { expected, actual } => {
                let text: String = "version vector length mismatch: expected ".to_owned();
                text.concat(&decimal_of(expected)).concat(" bytes, got ").concat(
                    &decimal_of(actual),
                )
            },
        }
    }
}

/// The bytes of the entries, one after the other.
pub open spec fn body(s: Seq<(Seq<u8>, u64)>) -> Seq<u8>
    decreases s.len(),
{
    if s.len() == 0 {
        Seq::empty()
    } else {
        body(s.drop_last()) + s.last().0 + bytes::le_bytes(s.last().1 as nat, 8)
    }
}

/// The bytes of a whole vector: the count, then the entries.
pub open spec fn encoding(s: Seq<(Seq<u8>, u64)>) -> Seq<u8> {
    bytes::le_bytes((s.len() as u32) as nat, 4) + body(s)
}

/// How long the bytes have to be for the count that they start with.
pub open spec fn encoded_len(bytes: Seq<u8>) -> nat {
    4 + 40 * bytes::le_at(bytes, 0, 4)
}

/// What the first `n` encoded entries say. A count of zero says nothing, and
/// of two entries for one device the later one counts.
pub open spec fn decoded(bytes: Seq<u8>, n: nat) -> Counts
    decreases n,
{
    if n == 0 {
        Map::empty()
    } else {
        let at = 4 + 40 * (n - 1);
        let before = decoded(bytes, (n - 1) as nat);
        let counter = bytes::le_at(bytes, at + 32, 8);
        if counter > 0 {
            before.insert(bytes.subrange(at, at + 32), counter as u64)
        } else {
            before
        }
    }
}

fn device_at(bytes: &[u8], at: usize) -> (device: DeviceId)
    requires
        at + 32 <= bytes@.len(),
    ensures
        device@ == bytes@.subrange(at as int, at + 32),
{
    let len: usize = bytes.len();
    let mut id: [u8; 32] = [0u8; 32];
    let mut i: usize = 0;
    while i < 32
        invariant
            i <= 32,
            at + 32 <= bytes@.len() == len,
            forall|j: int| 0 <= j < i ==> id[j] == bytes@[at + j],
        decreases 32 - i,
    {
        id[i] = bytes[at + i];
        i += 1;
    }
    assert(id@ =~= bytes@.subrange(at as int, at + 32));
    DeviceId::from_bytes(id)
}

fn copy_entries(entries: &Vec<(DeviceId, u64)>) -> (out: Vec<(DeviceId, u64)>)
    ensures
        out@ == entries@,
{
    let mut out: Vec<(DeviceId, u64)> = Vec::new();
    let mut i: usize = 0;
    while i < entries.len()
        invariant
            i <= entries@.len(),
            out@ == entries@.take(i as int),
        decreases entries@.len() - i,
    {
        out.push(entries[i]);
        i += 1;
    }
    out
}

impl Clone for VersionVector {
    fn clone(&self) -> (out: Self)
        ensures
            out@ == self@,
            valid(self@),
    {
        proof {
            use_type_invariant(self);
            kept_is_valid(self.entries@);
        }
        VersionVector { entries: copy_entries(&self.entries) }
    }
}

impl Default for VersionVector {
    fn default() -> (vector: Self)
        ensures
            vector@ == Map::<Seq<u8>, u64>::empty(),
    {
        VersionVector::new()
    }
}

impl Eq for VersionVector {

}

impl PartialEq for VersionVector {
    fn eq(&self, other: &Self) -> (same: bool) {
        proof {
            use_type_invariant(self);
            use_type_invariant(other);
            entries_list_map(self.entries@);
            entries_list_map(other.entries@);
            let s = self.entries@;
            let t = other.entries@;
            if self@ == other@ {
                assert(entry_views(s).len() == s.len() && entry_views(t).len() == t.len());
                assert forall|i: int| 0 <= i < s.len() implies #[trigger] s[i] == t[i] by {
                    assert(entry_views(s)[i] == entry_views(t)[i]);
                    super::device::identity_is_its_bytes(s[i].0, t[i].0);
                }
            }
        }
        if self.entries.len() != other.entries.len() {
            return false;
        }
        let mut i: usize = 0;
        while i < self.entries.len()
            invariant
                i <= self.entries@.len(),
                self.entries@.len() == other.entries@.len(),
                forall|j: int|
                    #![trigger self.entries@[j]]
                    0 <= j < i ==> self.entries@[j].0@ == other.entries@[j].0@
                        && self.entries@[j].1 == other.entries@[j].1,
                self@ == other@ ==> self.entries@ =~= other.entries@,
            decreases self.entries@.len() - i,
        {
            if self.entries[i].0 != other.entries[i].0 || self.entries[i].1 != other.entries[i].1 {
                return false;
            }
            i += 1;
        }
        assert(entry_views(self.entries@) =~= entry_views(other.entries@));
        proof {
            let v = entry_views(self.entries@);
            same_listing(v, self@, other@);
        }
        true
    }
}

impl vstd::std_specs::cmp::PartialEqSpecImpl for VersionVector {
    open spec fn obeys_eq_spec() -> bool {
        true
    }

    open spec fn eq_spec(&self, other: &Self) -> bool {
        self@ == other@
    }
}

/// What one list lists is one map.
proof fn same_listing(s: Seq<(Seq<u8>, u64)>, a: Counts, b: Counts)
    requires
        lists(s, a),
        lists(s, b),
    ensures
        a == b,
{
    assert forall|d: Seq<u8>| a.contains_key(d) == b.contains_key(d) by {
        if a.contains_key(d) {
            let i = choose|i: int| 0 <= i < s.len() && #[trigger] s[i].0 == d;
        }
        if b.contains_key(d) {
            let i = choose|i: int| 0 <= i < s.len() && #[trigger] s[i].0 == d;
        }
    }
    assert forall|d: Seq<u8>| a.contains_key(d) implies a[d] == b[d] by {
        let i = choose|i: int| 0 <= i < s.len() && #[trigger] s[i].0 == d;
    }
    assert(a =~= b);
}

/// One more entry adds its device to the map.
proof fn grown_map(s: Seq<(DeviceId, u64)>)
    requires
        s.len() > 0,
        forall|i: int, j: int|
            #![trigger s[i], s[j]]
            0 <= i < j < s.len() ==> s[i].0@ != s[j].0@,
    ensures
        entry_map(s) == entry_map(s.drop_last()).insert(s.last().0@, s.last().1),
{
    let t = s.drop_last();
    let m = entry_map(t).insert(s.last().0@, s.last().1);
    let n = s.len() - 1;
    assert forall|d: Seq<u8>| entry_map(s).contains_key(d) == m.contains_key(d) by {
        if entry_map(s).contains_key(d) {
            let i = choose|i: int| 0 <= i < s.len() && #[trigger] s[i].0@ == d;
            if i < n {
                assert(t[i].0@ == d);
            }
        }
        if m.contains_key(d) {
            if d == s.last().0@ {
                assert(s[n].0@ == d);
            } else {
                let i = choose|i: int| 0 <= i < t.len() && #[trigger] t[i].0@ == d;
                assert(s[i].0@ == d);
            }
        }
    }
    assert forall|d: Seq<u8>| entry_map(s).contains_key(d) implies entry_map(s)[d] == m[d] by {
        let i = choose|i: int| 0 <= i < s.len() && #[trigger] s[i].0@ == d;
        if i < n {
            assert(t[i].0@ == d);
            let k = entry_of(t, d);
            let l = entry_of(s, d);
            assert(s[k] == t[k] && s[k].0@ == d);
            assert(s[l].0@ == d);
            assert(k == l) by {
                assert(k < l ==> s[k].0@ != s[l].0@);
                assert(l < k ==> s[l].0@ != s[k].0@);
            }
            assert(s[i].0@ != s[n].0@);
        } else {
            let l = entry_of(s, d);
            assert(s[l].0@ == d);
            assert(l == n) by {
                assert(l < n ==> s[l].0@ != s[n].0@);
            }
        }
    }
    assert(entry_map(s) =~= m);
}

proof fn removed_entry(s: Seq<(DeviceId, u64)>, at: int)
    requires
        well_kept(s),
        0 <= at < s.len(),
    ensures
        well_kept(s.remove(at)),
        entry_map(s.remove(at)) == entry_map(s).remove(s[at].0@),
{
    let t = s.remove(at);
    let m = entry_map(s).remove(s[at].0@);
    assert(well_kept(t));
    assert forall|d: Seq<u8>| entry_map(t).contains_key(d) == m.contains_key(d) by {
        if entry_map(t).contains_key(d) {
            let i = choose|i: int| 0 <= i < t.len() && #[trigger] t[i].0@ == d;
            let j = if i < at { i } else { i + 1 };
            assert(s[j].0@ == d);
            if d == s[at].0@ {
                entries_distinct(s, j, at);
            }
        }
        if m.contains_key(d) {
            let j = choose|j: int| 0 <= j < s.len() && #[trigger] s[j].0@ == d;
            let i = if j < at { j } else { j - 1 };
            assert(t[i].0@ == d);
        }
    }
    assert forall|d: Seq<u8>| entry_map(t).contains_key(d) implies entry_map(t)[d] == m[d] by {
        let i = choose|i: int| 0 <= i < t.len() && #[trigger] t[i].0@ == d;
        let j = if i < at { i } else { i + 1 };
        assert(s[j].0@ == d);
        entry_in_map(t, i);
        entry_in_map(s, j);
        if d == s[at].0@ {
            entries_distinct(s, j, at);
        }
    }
    assert(entry_map(t) =~= m);
}

proof fn replaced_entry(s: Seq<(DeviceId, u64)>, at: int, e: (DeviceId, u64))
    requires
        well_kept(s),
        0 <= at < s.len(),
        s[at].0@ == e.0@,
        e.1 > 0,
    ensures
        well_kept(s.update(at, e)),
        entry_map(s.update(at, e)) == entry_map(s).insert(e.0@, e.1),
{
    let t = s.update(at, e);
    let m = entry_map(s).insert(e.0@, e.1);
    assert(well_kept(t));
    assert forall|d: Seq<u8>| entry_map(t).contains_key(d) == m.contains_key(d) by {
        if entry_map(t).contains_key(d) {
            let i = choose|i: int| 0 <= i < t.len() && #[trigger] t[i].0@ == d;
            assert(s[i].0@ == d);
        }
        if m.contains_key(d) {
            if d == e.0@ {
                assert(t[at].0@ == d);
            } else {
                let j = choose|j: int| 0 <= j < s.len() && #[trigger] s[j].0@ == d;
                assert(t[j].0@ == d);
            }
        }
    }
    assert forall|d: Seq<u8>| entry_map(t).contains_key(d) implies entry_map(t)[d] == m[d] by {
        let i = choose|i: int| 0 <= i < t.len() && #[trigger] t[i].0@ == d;
        entry_in_map(t, i);
        entry_in_map(s, i);
        if d == e.0@ {
            entries_distinct(s, i, at);
        }
    }
    assert(entry_map(t) =~= m);
}

proof fn added_entry(s: Seq<(DeviceId, u64)>, at: int, e: (DeviceId, u64))
    requires
        well_kept(s),
        0 <= at <= s.len(),
        forall|i: int| #![trigger s[i]] 0 <= i < at ==> order::bytes_precede(s[i].0@, e.0@),
        forall|i: int| #![trigger s[i]] at <= i < s.len() ==> order::bytes_precede(e.0@, s[i].0@),
        e.1 > 0,
    ensures
        well_kept(s.insert(at, e)),
        entry_map(s.insert(at, e)) == entry_map(s).insert(e.0@, e.1),
{
    let t = s.insert(at, e);
    let m = entry_map(s).insert(e.0@, e.1);
    assert(well_kept(t));
    order::bytes_order(e.0@, e.0@, e.0@);
    assert forall|d: Seq<u8>| entry_map(t).contains_key(d) == m.contains_key(d) by {
        if entry_map(t).contains_key(d) {
            let i = choose|i: int| 0 <= i < t.len() && #[trigger] t[i].0@ == d;
            if i != at {
                let j = if i < at { i } else { i - 1 };
                assert(s[j].0@ == d);
            }
        }
        if m.contains_key(d) {
            if d == e.0@ {
                assert(t[at].0@ == d);
            } else {
                let j = choose|j: int| 0 <= j < s.len() && #[trigger] s[j].0@ == d;
                let i = if j < at { j } else { j + 1 };
                assert(t[i].0@ == d);
            }
        }
    }
    assert forall|d: Seq<u8>| entry_map(t).contains_key(d) implies entry_map(t)[d] == m[d] by {
        let i = choose|i: int| 0 <= i < t.len() && #[trigger] t[i].0@ == d;
        entry_in_map(t, i);
        if i == at {
        } else {
            let j = if i < at { i } else { i - 1 };
            assert(s[j].0@ == d);
            entry_in_map(s, j);
            assert(order::bytes_precede(s[j].0@, e.0@) || order::bytes_precede(e.0@, s[j].0@));
        }
    }
    assert(entry_map(t) =~= m);
}

/// The relation seen from the other side.
pub open spec fn reversed(c: Causality) -> Causality {
    match c {
        Causality::Equal => Causality::Equal,
        Causality::Before => Causality::After,
        Causality::After => Causality::Before,
        Causality::Concurrent => Causality::Concurrent,
    }
}

/// A vector equals itself, and looking from the other side turns the relation
/// round.
pub proof fn law_comparison_is_antisymmetric(a: Counts, b: Counts)
    ensures
        causality(a, a) == Causality::Equal,
        causality(b, a) == reversed(causality(a, b)),
{
}

/// Two vectors compare equal only where they say the same of every device.
pub proof fn law_equal_is_identical(a: Counts, b: Counts)
    requires
        valid(a),
        valid(b),
    ensures
        causality(a, b) == Causality::Equal <==> a == b,
{
    if causality(a, b) == Causality::Equal {
        assert forall|d: Seq<u8>| count(a, d) == count(b, d) by {
            assert(count(a, d) <= count(b, d));
            assert(count(b, d) <= count(a, d));
        }
        assert forall|d: Seq<u8>| a.contains_key(d) == b.contains_key(d) by {
            assert(count(a, d) == count(b, d));
        }
        assert forall|d: Seq<u8>| a.contains_key(d) implies a[d] == b[d] by {
            assert(count(a, d) == count(b, d));
        }
        assert(a =~= b);
    }
}

/// What has been seen stays seen: the order of versions is transitive.
pub proof fn law_comparison_is_transitive(a: Counts, b: Counts, c: Counts)
    requires
        known_to(a, b),
        known_to(b, c),
    ensures
        known_to(a, c),
{
    assert forall|d: Seq<u8>| #[trigger] count(a, d) <= count(c, d) by {
        assert(count(a, d) <= count(b, d));
        assert(count(b, d) <= count(c, d));
    }
}

/// An empty vector precedes every other.
pub proof fn law_empty_precedes_everything(a: Counts)
    requires
        valid(a),
        a != Map::<Seq<u8>, u64>::empty(),
    ensures
        causality(Map::empty(), a) == Causality::Before,
{
    if known_to(a, Map::empty()) {
        assert forall|d: Seq<u8>| !a.contains_key(d) by {
            assert(count(a, d) <= count(Map::empty(), d));
        }
        assert(a =~= Map::<Seq<u8>, u64>::empty());
    }
}

/// What a merge counts for a device is the higher of the two counts.
pub proof fn law_merge_keeps_the_higher_count(a: Counts, b: Counts, d: Seq<u8>)
    ensures
        count(join(a, b), d) == (if count(a, d) >= count(b, d) {
            count(a, d)
        } else {
            count(b, d)
        }),
{
}

/// Merging is commutative, associative and idempotent.
pub proof fn law_merge_is_a_join(a: Counts, b: Counts, c: Counts)
    ensures
        join(a, b) == join(b, a),
        join(join(a, b), c) == join(a, join(b, c)),
        join(a, a) == a,
{
    assert(join(a, b) =~= join(b, a));
    assert(join(join(a, b), c) =~= join(a, join(b, c)));
    assert(join(a, a) =~= a);
}

/// A merge has seen both inputs, and is the least vector that has.
pub proof fn law_merge_dominates_both(a: Counts, b: Counts, c: Counts)
    ensures
        known_to(a, join(a, b)),
        known_to(b, join(a, b)),
        known_to(a, c) && known_to(b, c) ==> known_to(join(a, b), c),
{
    assert forall|d: Seq<u8>| #[trigger] count(a, d) <= count(join(a, b), d) by {}
    assert forall|d: Seq<u8>| #[trigger] count(b, d) <= count(join(a, b), d) by {}
    if known_to(a, c) && known_to(b, c) {
        assert forall|d: Seq<u8>| #[trigger] count(join(a, b), d) <= count(c, d) by {
            assert(count(a, d) <= count(c, d));
            assert(count(b, d) <= count(c, d));
        }
    }
}

/// Merging what is already known changes nothing.
pub proof fn law_merging_the_known_changes_nothing(a: Counts, b: Counts)
    requires
        valid(b),
        known_to(b, a),
    ensures
        join(a, b) == a,
{
    assert forall|d: Seq<u8>| b.contains_key(d) implies a.contains_key(d) by {
        assert(count(b, d) <= count(a, d));
    }
    assert forall|d: Seq<u8>| a.contains_key(d) implies join(a, b)[d] == a[d] by {
        assert(count(b, d) <= count(a, d));
    }
    assert(join(a, b) =~= a);
}

/// A merge of two vectors is a vector.
pub proof fn law_merge_is_valid(a: Counts, b: Counts)
    requires
        valid(a),
        valid(b),
    ensures
        valid(join(a, b)),
{
    assert(join(a, b).dom() =~= a.dom().union(b.dom()));
}

/// A recorded change comes strictly after what it changed.
pub proof fn law_increment_comes_after(a: Counts, device: Seq<u8>)
    requires
        count(a, device) < u64::MAX,
    ensures
        causality(a.insert(device, (count(a, device) + 1) as u64), a) == Causality::After,
{
    let b = a.insert(device, (count(a, device) + 1) as u64);
    assert forall|d: Seq<u8>| #[trigger] count(a, d) <= count(b, d) by {}
    assert(count(b, device) > count(a, device));
}

/// Changes that two devices make to one version without seeing each other are
/// concurrent.
pub proof fn law_unseen_changes_are_concurrent(a: Counts, one: Seq<u8>, two: Seq<u8>)
    requires
        one != two,
        count(a, one) < u64::MAX,
        count(a, two) < u64::MAX,
    ensures
        causality(
            a.insert(one, (count(a, one) + 1) as u64),
            a.insert(two, (count(a, two) + 1) as u64),
        ) == Causality::Concurrent,
{
    let b = a.insert(one, (count(a, one) + 1) as u64);
    let c = a.insert(two, (count(a, two) + 1) as u64);
    assert(count(b, one) > count(c, one));
    assert(count(c, two) > count(b, two));
}

/// Where a device belongs in a listing that lacks it.
proof fn place_in(s: Seq<(Seq<u8>, u64)>, d: Seq<u8>) -> (at: int)
    requires
        ascending(s),
        forall|i: int| #![trigger s[i]] 0 <= i < s.len() ==> s[i].0 != d,
    ensures
        0 <= at <= s.len(),
        forall|i: int| #![trigger s[i]] 0 <= i < at ==> order::bytes_precede(s[i].0, d),
        forall|i: int| #![trigger s[i]] at <= i < s.len() ==> order::bytes_precede(d, s[i].0),
    decreases s.len(),
{
    if s.len() == 0 {
        0
    } else {
        let n = s.len() - 1;
        order::bytes_order(s[n].0, d, d);
        if order::bytes_precede(s[n].0, d) {
            assert forall|i: int| #![trigger s[i]] 0 <= i < s.len() implies order::bytes_precede(
                s[i].0,
                d,
            ) by {
                if i < n {
                    assert(order::bytes_precede(s[i].0, s[n].0));
                    order::bytes_order(s[i].0, s[n].0, d);
                }
            }
            s.len() as int
        } else {
            let t = s.drop_last();
            assert(ascending(t));
            let at = place_in(t, d);
            assert forall|i: int| #![trigger s[i]] 0 <= i < at implies order::bytes_precede(
                s[i].0,
                d,
            ) by {
                assert(t[i] == s[i]);
            }
            assert forall|i: int| #![trigger s[i]] at <= i < s.len() implies order::bytes_precede(
                d,
                s[i].0,
            ) by {
                if i < n {
                    assert(t[i] == s[i]);
                }
            }
            at
        }
    }
}

/// Every vector can be listed in device order, in one way only, with one entry
/// for each device.
pub proof fn law_every_vector_has_one_listing(m: Counts, s: Seq<(Seq<u8>, u64)>)
    requires
        valid(m),
    ensures
        lists(listing(m), m),
        listing(m).len() == m.dom().len(),
        lists(s, m) ==> s == listing(m),
{
    listing_exists(m);
    if lists(s, m) {
        listing_is(s, m);
    }
}

proof fn listing_exists(m: Counts)
    requires
        m.dom().finite(),
    ensures
        lists(listing(m), m),
        listing(m).len() == m.dom().len(),
    decreases m.dom().len(),
{
    if m.dom().len() == 0 {
        let s = Seq::<(Seq<u8>, u64)>::empty();
        assert forall|d: Seq<u8>| !m.contains_key(d) by {
            if m.dom().contains(d) {
                assert(m.dom().len() > 0) by {
                    vstd::set::axiom_set_contains_len(m.dom(), d);
                }
            }
        }
        assert(lists(s, m));
        listing_is(s, m);
    } else {
        let d = m.dom().choose();
        let rest = m.remove(d);
        assert(rest.dom() =~= m.dom().remove(d));
        listing_exists(rest);
        let s = listing(rest);
        assert forall|i: int| #![trigger s[i]] 0 <= i < s.len() implies s[i].0 != d by {
            assert(rest.contains_key(s[i].0));
        }
        let at = place_in(s, d);
        let e = (d, m[d]);
        let t = s.insert(at, e);
        assert(ascending(t));
        assert forall|i: int| #![trigger t[i]] 0 <= i < t.len() implies m.contains_key(t[i].0)
            && m[t[i].0] == t[i].1 by {
            if i != at {
                let j = if i < at { i } else { i - 1 };
                assert(t[i] == s[j]);
                assert(rest.contains_key(s[j].0));
            }
        }
        assert forall|k: Seq<u8>| #[trigger] m.contains_key(k) implies exists|i: int|
            0 <= i < t.len() && #[trigger] t[i].0 == k by {
            if k == d {
                assert(t[at].0 == k);
            } else {
                assert(rest.contains_key(k));
                let j = choose|j: int| 0 <= j < s.len() && #[trigger] s[j].0 == k;
                let i = if j < at { j } else { j + 1 };
                assert(t[i].0 == k);
            }
        }
        listing_is(t, m);
    }
}

proof fn body_len(s: Seq<(Seq<u8>, u64)>)
    requires
        forall|i: int| #![trigger s[i]] 0 <= i < s.len() ==> s[i].0.len() == 32,
    ensures
        body(s).len() == 40 * s.len(),
    decreases s.len(),
{
    if s.len() > 0 {
        body_len(s.drop_last());
        bytes::le_bytes_len(s.last().1 as nat, 8);
    }
}

/// What stands at entry `i` of an encoding.
proof fn body_at(s: Seq<(Seq<u8>, u64)>, i: int)
    requires
        forall|i: int| #![trigger s[i]] 0 <= i < s.len() ==> s[i].0.len() == 32,
        0 <= i < s.len(),
    ensures
        body(s).len() == 40 * s.len(),
        body(s).subrange(40 * i, 40 * i + 32) == s[i].0,
        body(s).subrange(40 * i + 32, 40 * i + 40) == bytes::le_bytes(s[i].1 as nat, 8),
    decreases s.len(),
{
    let t = s.drop_last();
    body_len(s);
    body_len(t);
    bytes::le_bytes_len(s.last().1 as nat, 8);
    if i < t.len() {
        body_at(t, i);
        assert(body(s).subrange(40 * i, 40 * i + 32) =~= body(t).subrange(40 * i, 40 * i + 32));
        assert(body(s).subrange(40 * i + 32, 40 * i + 40) =~= body(t).subrange(
            40 * i + 32,
            40 * i + 40,
        ));
    } else {
        assert(body(s).subrange(40 * i, 40 * i + 32) =~= s[i].0);
        assert(body(s).subrange(40 * i + 32, 40 * i + 40) =~= bytes::le_bytes(s[i].1 as nat, 8));
    }
}

proof fn decoded_prefix(s: Seq<(Seq<u8>, u64)>, n: nat)
    requires
        ascending(s),
        n <= s.len() <= u32::MAX,
        forall|i: int|
            #![trigger s[i]]
            0 <= i < s.len() ==> s[i].0.len() == 32 && s[i].1 > 0,
    ensures
        lists(s.take(n as int), decoded(encoding(s), n)),
    decreases n,
{
    let m = decoded(encoding(s), n);
    if n > 0 {
        let k = (n - 1) as nat;
        let before = decoded(encoding(s), k);
        decoded_prefix(s, k);
        let all = encoding(s);
        let j = k as int;
        let at = 4 + 40 * j;
        bytes::le_bytes_len((s.len() as u32) as nat, 4);
        body_at(s, k as int);
        assert(all.subrange(at, at + 32) =~= body(s).subrange(40 * j, 40 * j + 32));
        assert(all.subrange(at + 32, at + 32 + 8) =~= body(s).subrange(40 * j + 32, 40 * j + 40));
        assert(bytes::pow256(8) == 0x1_0000_0000_0000_0000) by {
            reveal_with_fuel(bytes::pow256, 9);
        }
        bytes::le_round_trip(all, at + 32, s[k as int].1 as nat, 8);
        assert(m == before.insert(s[k as int].0, s[k as int].1));
        let p = s.take(n as int);
        let q = s.take(k as int);
        assert forall|i: int| #![trigger p[i]] 0 <= i < p.len() implies m.contains_key(p[i].0)
            && m[p[i].0] == p[i].1 by {
            if i < k {
                assert(q[i] == p[i]);
                assert(order::bytes_precede(s[i].0, s[k as int].0));
                order::bytes_order(s[i].0, s[i].0, s[i].0);
            }
        }
        assert forall|d: Seq<u8>| #[trigger] m.contains_key(d) implies exists|i: int|
            0 <= i < p.len() && #[trigger] p[i].0 == d by {
            if d == s[k as int].0 {
                assert(p[k as int].0 == d);
            } else {
                assert(before.contains_key(d));
                let i = choose|i: int| 0 <= i < q.len() && #[trigger] q[i].0 == d;
                assert(p[i].0 == d);
            }
        }
    }
}

/// Decoding what was encoded gives the same vector back, as long as its
/// devices can be counted in 32 bits.
pub proof fn law_encoding_round_trips(m: Counts)
    requires
        valid(m),
        m.dom().len() <= u32::MAX,
    ensures
        encoding(listing(m)).len() == encoded_len(encoding(listing(m))),
        bytes::le_at(encoding(listing(m)), 0, 4) == m.dom().len(),
        decoded(encoding(listing(m)), m.dom().len()) == m,
{
    let s = listing(m);
    listing_exists(m);
    assert forall|i: int| #![trigger s[i]] 0 <= i < s.len() implies s[i].0.len() == 32 && s[i].1
        > 0 by {
        assert(m.contains_key(s[i].0));
    }
    let all = encoding(s);
    bytes::le_bytes_len(s.len(), 4);
    body_len(s);
    assert(all.subrange(0, 4) =~= bytes::le_bytes(s.len(), 4));
    assert(bytes::pow256(4) == 0x1_0000_0000) by {
        reveal_with_fuel(bytes::pow256, 5);
    }
    bytes::le_round_trip(all, 0, s.len(), 4);
    decoded_prefix(s, s.len());
    assert(s.take(s.len() as int) =~= s);
    same_listing(s, decoded(all, s.len()), m);
}

/// Different vectors have different encodings.
pub proof fn law_encoding_is_injective(a: Counts, b: Counts)
    requires
        valid(a),
        valid(b),
        a.dom().len() <= u32::MAX,
        b.dom().len() <= u32::MAX,
        encoding(listing(a)) == encoding(listing(b)),
    ensures
        a == b,
{
    law_encoding_round_trips(a);
    law_encoding_round_trips(b);
}

/// The entries that some bytes hold, as they stand.
pub open spec fn entries_in(bytes: Seq<u8>) -> Seq<(Seq<u8>, u64)> {
    Seq::new(
        bytes::le_at(bytes, 0, 4),
        |i: int|
            (
                bytes.subrange(4 + 40 * i, 4 + 40 * i + 32),
                bytes::le_at(bytes, 4 + 40 * i + 32, 8) as u64,
            ),
    )
}

/// The bytes of the first `n` entries are what encodes them.
proof fn body_of_entries(bytes: Seq<u8>, n: int)
    requires
        bytes.len() >= 4,
        bytes.len() == encoded_len(bytes),
        0 <= n <= entries_in(bytes).len(),
    ensures
        body(entries_in(bytes).take(n)) == bytes.subrange(4, 4 + 40 * n),
    decreases n,
{
    let s = entries_in(bytes);
    if n == 0 {
        assert(body(s.take(0)) =~= bytes.subrange(4, 4));
    } else {
        body_of_entries(bytes, n - 1);
        let at = 4 + 40 * (n - 1);
        assert(s.take(n).drop_last() =~= s.take(n - 1));
        assert(s.take(n).last() == s[n - 1]);
        bytes::le_writes_back(bytes, at + 32, 8);
        assert(bytes::pow256(8) == 0x1_0000_0000_0000_0000) by {
            reveal_with_fuel(bytes::pow256, 9);
        }
        assert(body(s.take(n)) =~= bytes.subrange(4, 4 + 40 * n));
    }
}

/// Bytes that list their devices in order, each with at least one change, decode
/// to a vector that is encoded as those bytes.
pub proof fn law_decoding_round_trips(bytes: Seq<u8>)
    requires
        bytes.len() >= 4,
        bytes.len() == encoded_len(bytes),
        ascending(entries_in(bytes)),
        forall|i: int|
            #![trigger entries_in(bytes)[i]]
            0 <= i < entries_in(bytes).len() ==> entries_in(bytes)[i].1 > 0,
    ensures
        encoding(listing(decoded(bytes, bytes::le_at(bytes, 0, 4)))) == bytes,
{
    let s = entries_in(bytes);
    let n = bytes::le_at(bytes, 0, 4);
    bytes::le_writes_back(bytes, 0, 4);
    assert(bytes::pow256(4) == 0x1_0000_0000) by {
        reveal_with_fuel(bytes::pow256, 5);
    }
    body_of_entries(bytes, n as int);
    assert(s.take(n as int) =~= s);
    assert(encoding(s) =~= bytes);
    assert forall|i: int| #![trigger s[i]] 0 <= i < s.len() implies s[i].0.len() == 32 && s[i].1
        > 0 by {
        assert(entries_in(bytes)[i].1 > 0);
    }
    decoded_prefix(s, n);
    listing_is(s, decoded(bytes, n));
}

} // verus!
