//! Lists of entries with distinct keys, read as maps.

use vstd::prelude::*;

verus! {

/// No key stands twice.
pub open spec fn distinct<K, V>(s: Seq<(K, V)>) -> bool {
    forall|i: int, j: int| #![trigger s[i], s[j]] 0 <= i < j < s.len() ==> s[i].0 != s[j].0
}

/// Where a key stands.
pub open spec fn position<K, V>(s: Seq<(K, V)>, k: K) -> int {
    choose|i: int| 0 <= i < s.len() && #[trigger] s[i].0 == k
}

/// Whether a key stands in the list.
pub open spec fn holds<K, V>(s: Seq<(K, V)>, k: K) -> bool {
    exists|i: int| 0 <= i < s.len() && #[trigger] s[i].0 == k
}

/// The map from each key to what stands with it.
#[verifier::opaque]
pub open spec fn to_map<K, V>(s: Seq<(K, V)>) -> Map<K, V> {
    Map::new(|k: K| holds(s, k), |k: K| s[position(s, k)].1)
}

/// A key is in the map where it stands in the list.
pub proof fn key_in_map<K, V>(s: Seq<(K, V)>, k: K)
    ensures
        to_map(s).contains_key(k) == holds(s, k),
{
    reveal(to_map);
}

/// Each entry is in the map, and nothing else is.
pub proof fn entry_in_map<K, V>(s: Seq<(K, V)>, i: int)
    requires
        distinct(s),
        0 <= i < s.len(),
    ensures
        to_map(s).contains_key(s[i].0),
        to_map(s)[s[i].0] == s[i].1,
{
    reveal(to_map);
    let j = position(s, s[i].0);
    assert(s[i].0 == s[i].0);
    assert(0 <= j < s.len() && s[j].0 == s[i].0);
    assert(j < i ==> s[j].0 != s[i].0);
    assert(i < j ==> s[i].0 != s[j].0);
}

/// An empty list is the empty map.
pub proof fn empty_map<K, V>(s: Seq<(K, V)>)
    requires
        s.len() == 0,
    ensures
        distinct(s),
        to_map(s) == Map::<K, V>::empty(),
{
    reveal(to_map);
    assert(to_map(s) =~= Map::<K, V>::empty());
}

/// Two lists that hold the same entries are one map.
proof fn same_map<K, V>(s: Seq<(K, V)>, m: Map<K, V>)
    requires
        distinct(s),
        forall|i: int|
            #![trigger s[i]]
            0 <= i < s.len() ==> m.contains_key(s[i].0) && m[s[i].0] == s[i].1,
        forall|k: K| #[trigger] m.contains_key(k) ==> holds(s, k),
    ensures
        to_map(s) == m,
{
    assert forall|k: K| to_map(s).contains_key(k) == m.contains_key(k) by {
        key_in_map(s, k);
    }
    assert forall|k: K| to_map(s).contains_key(k) implies to_map(s)[k] == m[k] by {
        key_in_map(s, k);
        entry_in_map(s, position(s, k));
    }
    assert(to_map(s) =~= m);
}

/// A new entry at the end.
pub proof fn pushed<K, V>(s: Seq<(K, V)>, e: (K, V))
    requires
        distinct(s),
        !to_map(s).contains_key(e.0),
    ensures
        distinct(s.push(e)),
        to_map(s.push(e)) == to_map(s).insert(e.0, e.1),
{
    let t = s.push(e);
    let m = to_map(s).insert(e.0, e.1);
    key_in_map(s, e.0);
    assert forall|i: int, j: int| #![trigger t[i], t[j]] 0 <= i < j < t.len() implies t[i].0
        != t[j].0 by {
        if j == s.len() {
            assert(s[i].0 != e.0);
        } else {
            assert(s[i].0 != s[j].0);
        }
    }
    assert forall|i: int| #![trigger t[i]] 0 <= i < t.len() implies m.contains_key(t[i].0)
        && m[t[i].0] == t[i].1 by {
        if i < s.len() {
            entry_in_map(s, i);
            assert(t[i] == s[i]);
        }
    }
    assert forall|k: K| #[trigger] m.contains_key(k) implies holds(t, k) by {
        if k == e.0 {
            assert(t[s.len() as int].0 == k);
        } else {
            key_in_map(s, k);
            let i = position(s, k);
            assert(t[i].0 == k);
        }
    }
    same_map(t, m);
}

/// An entry in the place of another with the same key.
pub proof fn replaced<K, V>(s: Seq<(K, V)>, at: int, e: (K, V))
    requires
        distinct(s),
        0 <= at < s.len(),
        s[at].0 == e.0,
    ensures
        distinct(s.update(at, e)),
        to_map(s.update(at, e)) == to_map(s).insert(e.0, e.1),
{
    let t = s.update(at, e);
    let m = to_map(s).insert(e.0, e.1);
    assert forall|i: int, j: int| #![trigger t[i], t[j]] 0 <= i < j < t.len() implies t[i].0
        != t[j].0 by {
        assert(s[i].0 != s[j].0);
    }
    assert forall|i: int| #![trigger t[i]] 0 <= i < t.len() implies m.contains_key(t[i].0)
        && m[t[i].0] == t[i].1 by {
        entry_in_map(s, i);
        if i < at {
            assert(s[i].0 != s[at].0);
        } else if i > at {
            assert(s[at].0 != s[i].0);
        }
    }
    assert forall|k: K| #[trigger] m.contains_key(k) implies holds(t, k) by {
        if k == e.0 {
            assert(t[at].0 == k);
        } else {
            key_in_map(s, k);
            let i = position(s, k);
            assert(t[i].0 == k);
        }
    }
    same_map(t, m);
}

/// An entry taken out.
pub proof fn removed<K, V>(s: Seq<(K, V)>, at: int)
    requires
        distinct(s),
        0 <= at < s.len(),
    ensures
        distinct(s.remove(at)),
        to_map(s.remove(at)) == to_map(s).remove(s[at].0),
{
    let t = s.remove(at);
    let m = to_map(s).remove(s[at].0);
    assert forall|i: int, j: int| #![trigger t[i], t[j]] 0 <= i < j < t.len() implies t[i].0
        != t[j].0 by {
        let a = if i < at { i } else { i + 1 };
        let b = if j < at { j } else { j + 1 };
        assert(t[i] == s[a] && t[j] == s[b]);
        assert(s[a].0 != s[b].0);
    }
    assert forall|i: int| #![trigger t[i]] 0 <= i < t.len() implies m.contains_key(t[i].0)
        && m[t[i].0] == t[i].1 by {
        let a = if i < at { i } else { i + 1 };
        assert(t[i] == s[a]);
        entry_in_map(s, a);
        assert(a < at ==> s[a].0 != s[at].0);
        assert(at < a ==> s[at].0 != s[a].0);
    }
    assert forall|k: K| #[trigger] m.contains_key(k) implies holds(t, k) by {
        key_in_map(s, k);
        let a = position(s, k);
        let i = if a < at { a } else { a - 1 };
        assert(t[i] == s[a]);
        assert(t[i].0 == k);
    }
    same_map(t, m);
}

/// A map has as many keys as its list has entries.
pub proof fn map_size<K, V>(s: Seq<(K, V)>)
    requires
        distinct(s),
    ensures
        to_map(s).dom().finite(),
        to_map(s).dom().len() == s.len(),
    decreases s.len(),
{
    if s.len() == 0 {
        empty_map(s);
        assert(to_map(s).dom() =~= Set::<K>::empty());
    } else {
        let n = s.len() - 1;
        let t = s.drop_last();
        assert(distinct(t)) by {
            assert forall|i: int, j: int| #![trigger t[i], t[j]] 0 <= i < j < t.len() implies t[i].0
                != t[j].0 by {
                assert(s[i].0 != s[j].0);
            }
        }
        map_size(t);
        key_in_map(t, s[n].0);
        assert(!holds(t, s[n].0)) by {
            if holds(t, s[n].0) {
                let i = position(t, s[n].0);
                assert(t[i] == s[i]);
                assert(s[i].0 != s[n].0);
            }
        }
        pushed(t, s[n]);
        assert(t.push(s[n]) =~= s);
        assert(to_map(s).dom() =~= to_map(t).dom().insert(s[n].0));
    }
}

/// In a list with distinct keys each key stands in one place.
pub proof fn one_position<K, V>(s: Seq<(K, V)>, i: int, j: int)
    requires
        distinct(s),
        0 <= i < s.len(),
        0 <= j < s.len(),
        s[i].0 == s[j].0,
    ensures
        i == j,
{
    assert(i < j ==> s[i].0 != s[j].0);
    assert(j < i ==> s[j].0 != s[i].0);
}

} // verus!
