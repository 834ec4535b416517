//! Lexicographic order on bytes and on text.
//!
//! Devices are ordered by the bytes of their identity and paths by their
//! characters. Everything that has to come out the same on every device (an
//! encoding, a plan) is listed in one of these two orders.

use vstd::prelude::*;

use crate::text::chars_of;

verus! {

/// The first `i` items of the two sequences agree, and there `a` either ends
/// or holds the smaller item.
pub open spec fn parts_at(a: Seq<int>, b: Seq<int>, i: int) -> bool {
    &&& 0 <= i <= a.len()
    &&& i < b.len()
    &&& forall|j: int| 0 <= j < i ==> a[j] == b[j]
    &&& i == a.len() || a[i] < b[i]
}

/// Lexicographic order: `a` comes strictly before `b`.
#[verifier::opaque]
pub open spec fn precedes(a: Seq<int>, b: Seq<int>) -> bool {
    exists|i: int| parts_at(a, b, i)
}

/// The numbers by which bytes are ordered.
pub open spec fn byte_keys(s: Seq<u8>) -> Seq<int> {
    Seq::new(s.len(), |i: int| s[i] as int)
}

/// The numbers by which characters are ordered.
pub open spec fn char_keys(s: Seq<char>) -> Seq<int> {
    Seq::new(s.len(), |i: int| s[i] as int)
}

/// `a` comes strictly before `b`, byte by byte.
pub open spec fn bytes_precede(a: Seq<u8>, b: Seq<u8>) -> bool {
    precedes(byte_keys(a), byte_keys(b))
}

/// `a` comes strictly before `b`, character by character.
pub open spec fn text_precedes(a: Seq<char>, b: Seq<char>) -> bool {
    precedes(char_keys(a), char_keys(b))
}

/// Nothing comes before itself.
pub proof fn precedes_irreflexive(a: Seq<int>)
    ensures
        !precedes(a, a),
{
    reveal(precedes);
}

/// The order is transitive.
pub proof fn precedes_transitive(a: Seq<int>, b: Seq<int>, c: Seq<int>)
    requires
        precedes(a, b),
        precedes(b, c),
    ensures
        precedes(a, c),
{
    reveal(precedes);
    let i = choose|i: int| parts_at(a, b, i);
    let j = choose|j: int| parts_at(b, c, j);
    assert(parts_at(a, c, if i <= j { i } else { j }));
}

proof fn precedes_total_from(a: Seq<int>, b: Seq<int>, k: int)
    requires
        0 <= k <= a.len(),
        k <= b.len(),
        forall|j: int| 0 <= j < k ==> a[j] == b[j],
    ensures
        a == b || precedes(a, b) || precedes(b, a),
    decreases a.len() - k,
{
    reveal(precedes);
    if k == a.len() || k == b.len() {
        if k < b.len() {
            assert(parts_at(a, b, k));
        } else if k < a.len() {
            assert(parts_at(b, a, k));
        } else {
            assert(a =~= b);
        }
    } else if a[k] < b[k] {
        assert(parts_at(a, b, k));
    } else if b[k] < a[k] {
        assert(parts_at(b, a, k));
    } else {
        precedes_total_from(a, b, k + 1);
    }
}

/// Of two different sequences one comes before the other.
pub proof fn precedes_total(a: Seq<int>, b: Seq<int>)
    ensures
        a == b || precedes(a, b) || precedes(b, a),
{
    precedes_total_from(a, b, 0);
}

/// Byte order is a strict total order.
pub proof fn bytes_order(a: Seq<u8>, b: Seq<u8>, c: Seq<u8>)
    ensures
        !bytes_precede(a, a),
        !(bytes_precede(a, b) && bytes_precede(b, a)),
        bytes_precede(a, b) && bytes_precede(b, c) ==> bytes_precede(a, c),
        a == b || bytes_precede(a, b) || bytes_precede(b, a),
{
    precedes_irreflexive(byte_keys(a));
    if bytes_precede(a, b) && bytes_precede(b, a) {
        precedes_transitive(byte_keys(a), byte_keys(b), byte_keys(a));
    }
    if bytes_precede(a, b) && bytes_precede(b, c) {
        precedes_transitive(byte_keys(a), byte_keys(b), byte_keys(c));
    }
    precedes_total(byte_keys(a), byte_keys(b));
    if byte_keys(a) == byte_keys(b) {
        assert(a.len() == byte_keys(a).len() && b.len() == byte_keys(b).len());
        assert forall|i: int| 0 <= i < a.len() implies a[i] == b[i] by {
            assert(byte_keys(a)[i] == byte_keys(b)[i]);
        }
        assert(a =~= b);
    }
}

/// Text order is a strict total order.
pub proof fn text_order(a: Seq<char>, b: Seq<char>, c: Seq<char>)
    ensures
        !text_precedes(a, a),
        !(text_precedes(a, b) && text_precedes(b, a)),
        text_precedes(a, b) && text_precedes(b, c) ==> text_precedes(a, c),
        a == b || text_precedes(a, b) || text_precedes(b, a),
{
    precedes_irreflexive(char_keys(a));
    if text_precedes(a, b) && text_precedes(b, a) {
        precedes_transitive(char_keys(a), char_keys(b), char_keys(a));
    }
    if text_precedes(a, b) && text_precedes(b, c) {
        precedes_transitive(char_keys(a), char_keys(b), char_keys(c));
    }
    precedes_total(char_keys(a), char_keys(b));
    if char_keys(a) == char_keys(b) {
        assert(a.len() == char_keys(a).len() && b.len() == char_keys(b).len());
        assert forall|i: int| 0 <= i < a.len() implies a[i] == b[i] by {
            assert(char_keys(a)[i] == char_keys(b)[i]);
        }
        assert(a =~= b);
    }
}

/// Whether `a` comes strictly before `b`, byte by byte.
pub fn bytes_before(a: &[u8], b: &[u8]) -> (before: bool)
    ensures
        before == bytes_precede(a@, b@),
{
    let ghost x = byte_keys(a@);
    let ghost y = byte_keys(b@);
    let mut i: usize = 0;
    while i < a.len() && i < b.len() && a[i] == b[i]
        invariant
            i <= a.len(),
            i <= b.len(),
            forall|j: int| 0 <= j < i ==> a[j] == b[j],
        decreases a.len() - i,
    {
        i += 1;
    }
    let before = i < b.len() && (i == a.len() || a[i] < b[i]);
    proof {
        reveal(precedes);
        if before {
            assert(parts_at(x, y, i as int));
        } else if x != y {
            precedes_total(x, y);
            assert(i < a.len()) by {
                if i == a.len() {
                    assert(x =~= y);
                }
            }
            assert(parts_at(y, x, i as int));
            bytes_order(a@, b@, a@);
        } else {
            precedes_irreflexive(x);
        }
    }
    before
}

/// Whether `a` comes strictly before `b`, character by character.
pub fn text_before(a: &str, b: &str) -> (before: bool)
    ensures
        before == text_precedes(a@, b@),
{
    let p: Vec<char> = chars_of(a);
    let q: Vec<char> = chars_of(b);
    let ghost x = char_keys(a@);
    let ghost y = char_keys(b@);
    let mut i: usize = 0;
    while i < p.len() && i < q.len() && p[i] == q[i]
        invariant
            i <= p.len(),
            i <= q.len(),
            forall|j: int| 0 <= j < i ==> p[j] == q[j],
        decreases p.len() - i,
    {
        i += 1;
    }
    let before = i < q.len() && (i == p.len() || p[i] < q[i]);
    proof {
        reveal(precedes);
        if before {
            assert(parts_at(x, y, i as int));
        } else if x != y {
            precedes_total(x, y);
            assert(i < p.len()) by {
                if i == p.len() {
                    assert(x =~= y);
                }
            }
            assert(parts_at(y, x, i as int));
            text_order(a@, b@, a@);
        } else {
            precedes_irreflexive(x);
        }
    }
    before
}

/// Whether two strings of 32 bytes are the same.
pub fn same_bytes(a: &[u8; 32], b: &[u8; 32]) -> (same: bool)
    ensures
        same == (a@ == b@),
{
    let mut i: usize = 0;
    while i < 32
        invariant
            i <= 32,
            forall|j: int| 0 <= j < i ==> a[j] == b[j],
        decreases 32 - i,
    {
        if a[i] != b[i] {
            return false;
        }
        i += 1;
    }
    assert(a@ =~= b@);
    true
}

/// What comes first is decided where two texts first differ, by the lesser character;
/// and a text comes before every longer one that starts with it.
pub proof fn law_the_first_difference_decides(
    same: Seq<char>,
    a: char,
    b: char,
    s: Seq<char>,
    t: Seq<char>,
)
    requires
        a < b,
    ensures
        text_precedes(same + seq![a] + s, same + seq![b] + t),
        !text_precedes(same + seq![b] + t, same + seq![a] + s),
        text_precedes(same, same + seq![a] + s),
        !text_precedes(same + seq![a] + s, same),
{
    let n = same.len() as int;
    let x = same + seq![a] + s;
    let y = same + seq![b] + t;
    let (p, q, r) = (char_keys(x), char_keys(y), char_keys(same));
    assert(p[n] == a as int && q[n] == b as int);
    assert forall|j: int| 0 <= j < n implies p[j] == q[j] && r[j] == p[j] by {
        assert(x[j] == same[j] && y[j] == same[j]);
    }
    assert(parts_at(p, q, n));
    assert(parts_at(r, p, n));
    reveal(precedes);
    text_order(x, y, x);
    text_order(same, x, same);
}

/// The same of bytes.
pub proof fn law_the_first_different_byte_decides(
    same: Seq<u8>,
    a: u8,
    b: u8,
    s: Seq<u8>,
    t: Seq<u8>,
)
    requires
        a < b,
    ensures
        bytes_precede(same + seq![a] + s, same + seq![b] + t),
        !bytes_precede(same + seq![b] + t, same + seq![a] + s),
        bytes_precede(same, same + seq![a] + s),
        !bytes_precede(same + seq![a] + s, same),
{
    let n = same.len() as int;
    let x = same + seq![a] + s;
    let y = same + seq![b] + t;
    let (p, q, r) = (byte_keys(x), byte_keys(y), byte_keys(same));
    assert(p[n] == a as int && q[n] == b as int);
    assert forall|j: int| 0 <= j < n implies p[j] == q[j] && r[j] == p[j] by {
        assert(x[j] == same[j] && y[j] == same[j]);
    }
    assert(parts_at(p, q, n));
    assert(parts_at(r, p, n));
    reveal(precedes);
    bytes_order(x, y, x);
    bytes_order(same, x, same);
}

} // verus!
