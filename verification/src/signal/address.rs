//! Reading an address of the internet from text.
//!
//! Four numbers with dots between them, or eight groups of hexadecimal digits
//! with colons between them, of which one run of zeros may be left out and the
//! last two may be written with dots.

use vstd::prelude::*;

use super::message::IpAddr;
use crate::text;
use crate::text::{chars_of, hex_value_of};

verus! {

/// An address, as values.
pub enum Address {
    V4(Seq<u8>),
    V6(Seq<u16>),
}

/// What stands before, between and behind the separators in a text.
pub open spec fn split(s: Seq<char>, c: char) -> Seq<Seq<char>>
    decreases s.len(),
{
    if s.len() == 0 {
        seq![Seq::empty()]
    } else {
        let before = split(s.drop_last(), c);
        if s.last() == c {
            before.push(Seq::empty())
        } else {
            before.update(before.len() - 1, before.last().push(s.last()))
        }
    }
}

/// Texts, as values.
pub open spec fn part_views(parts: Seq<Vec<char>>) -> Seq<Seq<char>> {
    Seq::new(parts.len(), |i: int| parts[i]@)
}

/// What digits come to in a base.
pub open spec fn number(s: Seq<char>, base: int) -> int
    decreases s.len(),
{
    if s.len() == 0 {
        0
    } else {
        base * number(s.drop_last(), base) + text::hex_value(s.last())
    }
}

/// One of four numbers: up to three decimal digits, none of them a zero in front,
/// and not above 255.
pub open spec fn octet(s: Seq<char>) -> Option<u8> {
    if 1 <= s.len() <= 3 && (s.len() > 1 ==> s[0] != '0') && (forall|i: int|
        0 <= i < s.len() ==> '0' <= #[trigger] s[i] <= '9') && number(s, 10) <= 255 {
        Some(number(s, 10) as u8)
    } else {
        None
    }
}

/// One of eight groups: up to four hexadecimal digits.
pub open spec fn group(s: Seq<char>) -> Option<u16> {
    if 1 <= s.len() <= 4 && (forall|i: int|
        0 <= i < s.len() ==> text::hex_value(#[trigger] s[i]) >= 0) {
        Some(number(s, 16) as u16)
    } else {
        None
    }
}

/// Four numbers with dots between them.
pub open spec fn dotted(s: Seq<char>) -> Option<Seq<u8>> {
    let p = split(s, '.');
    if p.len() == 4 && octet(p[0]) is Some && octet(p[1]) is Some && octet(p[2]) is Some && octet(
        p[3],
    ) is Some {
        Some(seq![octet(p[0])->0, octet(p[1])->0, octet(p[2])->0, octet(p[3])->0])
    } else {
        None
    }
}

/// What parts come to as groups, all of them.
pub open spec fn groups(parts: Seq<Seq<char>>) -> Option<Seq<u16>>
    decreases parts.len(),
{
    if parts.len() == 0 {
        Some(Seq::empty())
    } else {
        match (groups(parts.drop_last()), group(parts.last())) {
            (Some(before), Some(g)) => Some(before.push(g)),
            _ => None,
        }
    }
}

/// The two groups that four numbers stand for.
pub open spec fn paired(o: Seq<u8>) -> Seq<u16> {
    seq![(256 * o[0] + o[1]) as u16, (256 * o[2] + o[3]) as u16]
}

/// Groups with colons between them, or none. Where `mixed`, the last two may be
/// written as four numbers.
pub open spec fn half(s: Seq<char>, mixed: bool) -> Option<Seq<u16>> {
    let parts = split(s, ':');
    if s.len() == 0 {
        Some(Seq::empty())
    } else if mixed && dotted(parts.last()) is Some {
        match groups(parts.drop_last()) {
            Some(before) => Some(before + paired(dotted(parts.last())->0)),
            None => None,
        }
    } else {
        groups(parts)
    }
}

/// Where two colons first stand next to each other, from `from` on, or -1.
pub open spec fn gap(s: Seq<char>, from: int) -> int
    decreases s.len() - from,
{
    if from + 1 >= s.len() {
        -1
    } else if s[from] == ':' && s[from + 1] == ':' {
        from
    } else {
        gap(s, from + 1)
    }
}

/// Eight groups. Two colons next to each other stand for the zeros that are
/// missing, of which there is at least one group.
pub open spec fn colons(s: Seq<char>) -> Option<Seq<u16>> {
    let at = gap(s, 0);
    if at < 0 {
        match half(s, true) {
            Some(all) => if all.len() == 8 {
                Some(all)
            } else {
                None
            },
            None => None,
        }
    } else {
        match (half(s.take(at), false), half(s.skip(at + 2), true)) {
            (Some(a), Some(b)) => if a.len() + b.len() <= 7 {
                Some(a + Seq::new((8 - a.len() - b.len()) as nat, |i: int| 0u16) + b)
            } else {
                None
            },
            _ => None,
        }
    }
}

/// What a text is read as.
pub open spec fn address(s: Seq<char>) -> Option<Address> {
    match dotted(s) {
        Some(o) => Some(Address::V4(o)),
        None => match colons(s) {
            Some(g) => Some(Address::V6(g)),
            None => None,
        },
    }
}

fn split_at(s: &[char], c: char) -> (parts: Vec<Vec<char>>)
    ensures
        part_views(parts@) == split(s@, c),
        parts@.len() > 0,
{
    let mut parts: Vec<Vec<char>> = Vec::new();
    let mut last: Vec<char> = Vec::new();
    let mut i: usize = 0;
    assert(part_views(parts@).push(last@) =~= split(s@.take(0), c));
    while i < s.len()
        invariant
            i <= s@.len(),
            part_views(parts@).push(last@) == split(s@.take(i as int), c),
        decreases s@.len() - i,
    {
        let ghost done = part_views(parts@);
        let ghost had = last@;
        assert(s@.take(i + 1).drop_last() =~= s@.take(i as int));
        assert(s@.take(i + 1).last() == s@[i as int]);
        if s[i] == c {
            parts.push(last);
            last = Vec::new();
            assert(part_views(parts@) =~= done.push(had));
            assert(last@ =~= Seq::<char>::empty());
        } else {
            last.push(s[i]);
            assert(done.push(last@) =~= done.push(had).update(done.len() as int, last@));
        }
        i += 1;
    }
    assert(s@.take(i as int) =~= s@);
    let ghost done = part_views(parts@);
    let ghost had = last@;
    parts.push(last);
    assert(part_views(parts@) =~= done.push(had));
    parts
}

fn octet_of(s: &Vec<char>) -> (value: Option<u8>)
    ensures
        value == octet(s@),
{
    if s.len() == 0 || s.len() > 3 || (s.len() > 1 && s[0] == '0') {
        return None;
    }
    let mut n: u32 = 0;
    let mut i: usize = 0;
    assert(s@.take(0) =~= Seq::<char>::empty());
    while i < s.len()
        invariant
            i <= s@.len() <= 3,
            n == number(s@.take(i as int), 10),
            i == 0 ==> n == 0,
            i == 1 ==> n <= 9,
            i == 2 ==> n <= 99,
            i == 3 ==> n <= 999,
            forall|j: int| 0 <= j < i ==> '0' <= #[trigger] s@[j] <= '9',
        decreases s@.len() - i,
    {
        let c: char = s[i];
        if !('0' <= c && c <= '9') {
            assert(!('0' <= s@[i as int] <= '9'));
            return None;
        }
        proof {
            assert(s@.take(i + 1).drop_last() =~= s@.take(i as int));
            assert(s@.take(i + 1).last() == c);
        }
        n = 10 * n + (c as u32 - 48);
        i += 1;
    }
    assert(s@.take(i as int) =~= s@);
    if n <= 255 {
        Some(n as u8)
    } else {
        None
    }
}

fn group_of(s: &Vec<char>) -> (value: Option<u16>)
    ensures
        value == group(s@),
{
    if s.len() == 0 || s.len() > 4 {
        return None;
    }
    let mut n: u32 = 0;
    let mut i: usize = 0;
    assert(s@.take(0) =~= Seq::<char>::empty());
    while i < s.len()
        invariant
            i <= s@.len() <= 4,
            n == number(s@.take(i as int), 16),
            i == 0 ==> n == 0,
            i == 1 ==> n <= 0xf,
            i == 2 ==> n <= 0xff,
            i == 3 ==> n <= 0xfff,
            i == 4 ==> n <= 0xffff,
            forall|j: int| 0 <= j < i ==> text::hex_value(#[trigger] s@[j]) >= 0,
        decreases s@.len() - i,
    {
        match hex_value_of(s[i]) {
            None => {
                assert(text::hex_value(s@[i as int]) < 0);
                return None;
            },
            Some(v) => {
                proof {
                    assert(s@.take(i + 1).drop_last() =~= s@.take(i as int));
                    assert(s@.take(i + 1).last() == s@[i as int]);
                }
                n = 16 * n + v as u32;
            },
        }
        i += 1;
    }
    assert(s@.take(i as int) =~= s@);
    Some(n as u16)
}

fn dotted_of(s: &[char]) -> (octets: Option<[u8; 4]>)
    ensures
        match octets {
            Some(o) => dotted(s@) == Some(o@),
            None => dotted(s@) is None,
        },
{
    let parts: Vec<Vec<char>> = split_at(s, '.');
    let ghost p = part_views(parts@);
    assert(p.len() == parts@.len());
    if parts.len() != 4 {
        return None;
    }
    assert(p[0] == parts@[0]@ && p[1] == parts@[1]@ && p[2] == parts@[2]@ && p[3] == parts@[3]@);
    match (octet_of(&parts[0]), octet_of(&parts[1]), octet_of(&parts[2]), octet_of(&parts[3])) {
        (Some(a), Some(b), Some(c), Some(d)) => {
            let o: [u8; 4] = [a, b, c, d];
            assert(o@ =~= seq![a, b, c, d]);
            Some(o)
        },
        _ => None,
    }
}

/// Reads the first `n` parts as groups.
fn groups_of(parts: &Vec<Vec<char>>, n: usize) -> (out: Option<Vec<u16>>)
    requires
        n <= parts@.len(),
    ensures
        match out {
            Some(g) => groups(part_views(parts@).take(n as int)) == Some(g@) && g@.len() == n,
            None => groups(part_views(parts@).take(n as int)) is None,
        },
{
    let ghost p = part_views(parts@);
    let mut out: Vec<u16> = Vec::new();
    let mut i: usize = 0;
    assert(p.take(0) =~= Seq::<Seq<char>>::empty());
    assert(out@ =~= Seq::<u16>::empty());
    while i < n
        invariant
            i <= n <= parts@.len(),
            p == part_views(parts@),
            out@.len() == i,
            groups(p.take(i as int)) == Some(out@),
        decreases n - i,
    {
        proof {
            assert(p.take(i + 1).drop_last() =~= p.take(i as int));
            assert(p.take(i + 1).last() == parts@[i as int]@);
        }
        match group_of(&parts[i]) {
            Some(g) => {
                out.push(g);
            },
            None => {
                proof {
                    no_groups(p, i + 1, n as int);
                }
                return None;
            },
        }
        i += 1;
    }
    Some(out)
}

/// A part that is no group spoils the whole.
proof fn no_groups(p: Seq<Seq<char>>, k: int, n: int)
    requires
        0 <= k <= n <= p.len(),
        groups(p.take(k)) is None,
    ensures
        groups(p.take(n)) is None,
    decreases n - k,
{
    if k < n {
        no_groups(p, k, n - 1);
        assert(p.take(n).drop_last() =~= p.take(n - 1));
    }
}

fn half_of(s: &[char], mixed: bool) -> (out: Option<Vec<u16>>)
    ensures
        match out {
            Some(g) => half(s@, mixed) == Some(g@),
            None => half(s@, mixed) is None,
        },
{
    if s.len() == 0 {
        let none: Vec<u16> = Vec::new();
        assert(none@ =~= Seq::<u16>::empty());
        return Some(none);
    }
    let parts: Vec<Vec<char>> = split_at(s, ':');
    let ghost p = part_views(parts@);
    let n: usize = parts.len();
    assert(p.len() == n);
    assert(p.last() == parts@[n - 1]@);
    if mixed {
        if let Some(o) = dotted_of(parts[n - 1].as_slice()) {
            assert(p.drop_last() =~= p.take(n - 1));
            return match groups_of(&parts, n - 1) {
                None => None,
                Some(before) => {
                    let ghost had = before@;
                    let mut all: Vec<u16> = before;
                    all.push(256 * (o[0] as u16) + o[1] as u16);
                    all.push(256 * (o[2] as u16) + o[3] as u16);
                    assert(all@ =~= had + paired(o@));
                    Some(all)
                },
            };
        }
    }
    assert(p.take(n as int) =~= p);
    groups_of(&parts, n)
}

fn gap_of(s: &[char]) -> (at: Option<usize>)
    ensures
        match at {
            Some(i) => gap(s@, 0) == i && i + 2 <= s@.len(),
            None => gap(s@, 0) == -1,
        },
{
    let len: usize = s.len();
    let mut i: usize = 0;
    while i < len && len - i > 1
        invariant
            len == s@.len(),
            i <= len,
            gap(s@, 0) == gap(s@, i as int),
        decreases len - i,
    {
        if s[i] == ':' && s[i + 1] == ':' {
            return Some(i);
        }
        i += 1;
    }
    None
}

fn eight(all: &Vec<u16>) -> (g: [u16; 8])
    requires
        all@.len() == 8,
    ensures
        g@ == all@,
{
    let g: [u16; 8] = [all[0], all[1], all[2], all[3], all[4], all[5], all[6], all[7]];
    assert(g@ =~= all@);
    g
}

fn part_of(s: &Vec<char>, from: usize, to: usize) -> (out: Vec<char>)
    requires
        from <= to <= s@.len(),
    ensures
        out@ == s@.subrange(from as int, to as int),
{
    let mut out: Vec<char> = Vec::new();
    let mut i: usize = from;
    while i < to
        invariant
            from <= i <= to <= s@.len(),
            out@ == s@.subrange(from as int, i as int),
        decreases to - i,
    {
        out.push(s[i]);
        i += 1;
        assert(out@ =~= s@.subrange(from as int, i as int));
    }
    out
}

fn colons_of(s: &Vec<char>) -> (out: Option<[u16; 8]>)
    ensures
        match out {
            Some(g) => colons(s@) == Some(g@),
            None => colons(s@) is None,
        },
{
    match gap_of(s) {
        None => match half_of(s, true) {
            None => None,
            Some(all) => if all.len() == 8 {
                Some(eight(&all))
            } else {
                None
            },
        },
        Some(at) => {
            let len: usize = s.len();
            let left: Vec<char> = part_of(s, 0, at);
            let right: Vec<char> = part_of(s, at + 2, len);
            assert(left@ =~= s@.take(at as int));
            assert(right@ =~= s@.skip(at + 2));
            match (half_of(&left, false), half_of(&right, true)) {
                (Some(a), Some(b)) => {
                    if a.len() > 7 || b.len() > 7 || a.len() + b.len() > 7 {
                        return None;
                    }
                    let zeros: usize = 8 - a.len() - b.len();
                    let ghost head = a@;
                    let ghost filled = Seq::new(zeros as nat, |i: int| 0u16);
                    let mut all: Vec<u16> = a;
                    let mut i: usize = 0;
                    assert(all@ =~= head + filled.take(0));
                    while i < zeros
                        invariant
                            i <= zeros,
                            filled == Seq::new(zeros as nat, |i: int| 0u16),
                            all@ == head + filled.take(i as int),
                        decreases zeros - i,
                    {
                        all.push(0);
                        i += 1;
                        assert(all@ =~= head + filled.take(i as int));
                    }
                    assert(filled.take(i as int) =~= filled);
                    let mut j: usize = 0;
                    assert(all@ =~= head + filled + b@.take(0));
                    while j < b.len()
                        invariant
                            j <= b@.len(),
                            all@ == head + filled + b@.take(j as int),
                        decreases b@.len() - j,
                    {
                        all.push(b[j]);
                        j += 1;
                        assert(all@ =~= head + filled + b@.take(j as int));
                    }
                    assert(b@.take(j as int) =~= b@);
                    Some(eight(&all))
                },
                _ => None,
            }
        },
    }
}

/// Reads an address.
pub fn read(host: &str) -> (found: Option<IpAddr>)
    ensures
        match found {
            Some(IpAddr::V4(o)) => address(host@) == Some(Address::V4(o@)),
            Some(IpAddr::V6(g)) => address(host@) == Some(Address::V6(g@)),
            None => address(host@) is None,
        },
{
    let chars: Vec<char> = chars_of(host);
    match dotted_of(&chars) {
        Some(o) => Some(IpAddr::V4(o)),
        None => match colons_of(&chars) {
            Some(g) => Some(IpAddr::V6(g)),
            None => None,
        },
    }
}

/// A text without a separator is one part.
proof fn one_part(t: Seq<char>, c: char)
    requires
        forall|i: int| #![trigger t[i]] 0 <= i < t.len() ==> t[i] != c,
    ensures
        split(t, c) == seq![t],
    decreases t.len(),
{
    if t.len() > 0 {
        let rest = t.drop_last();
        assert forall|i: int| #![trigger rest[i]] 0 <= i < rest.len() implies rest[i] != c by {
            assert(rest[i] == t[i]);
        }
        one_part(rest, c);
        assert(t[t.len() - 1] == t.last());
        assert(rest.push(t.last()) =~= t);
        assert(split(t, c) =~= seq![t]);
    } else {
        assert(t =~= Seq::<char>::empty());
    }
}

/// What stands behind the last separator is the last part.
proof fn one_part_more(s: Seq<char>, t: Seq<char>, c: char)
    requires
        forall|i: int| #![trigger t[i]] 0 <= i < t.len() ==> t[i] != c,
    ensures
        split(s + seq![c] + t, c) == split(s, c).push(t),
    decreases t.len(),
{
    let all = s + seq![c] + t;
    if t.len() > 0 {
        let rest = t.drop_last();
        assert forall|i: int| #![trigger rest[i]] 0 <= i < rest.len() implies rest[i] != c by {
            assert(rest[i] == t[i]);
        }
        one_part_more(s, rest, c);
        assert(all.drop_last() =~= s + seq![c] + rest);
        assert(all.last() == t.last());
        assert(t[t.len() - 1] == t.last());
        assert(rest.push(t.last()) =~= t);
        assert(split(all, c) =~= split(s, c).push(t));
    } else {
        assert(all.drop_last() =~= s);
        assert(all.last() == c);
        assert(t =~= Seq::<char>::empty());
    }
}

/// Decimal digits are read as the number that they spell.
proof fn digits_are_read(s: Seq<char>)
    requires
        forall|i: int| 0 <= i < s.len() ==> '0' <= #[trigger] s[i] <= '9',
    ensures
        number(s, 10) == text::spelled(s),
    decreases s.len(),
{
    if s.len() > 0 {
        let rest = s.drop_last();
        assert forall|i: int| 0 <= i < rest.len() implies '0' <= #[trigger] rest[i] <= '9' by {
            assert(rest[i] == s[i]);
        }
        digits_are_read(rest);
        assert(s[s.len() - 1] == s.last());
    }
}

/// A number up to 255 in decimal is an octet.
proof fn octet_reads_back(n: u8)
    ensures
        octet(text::decimal(n as nat)) == Some(n),
        forall|i: int|
            #![trigger text::decimal(n as nat)[i]]
            0 <= i < text::decimal(n as nat).len() ==> text::decimal(n as nat)[i] != '.'
                && text::decimal(n as nat)[i] != ':',
{
    let s = text::decimal(n as nat);
    text::law_a_number_is_written_as_it_is_spelled(n as nat);
    digits_are_read(s);
    assert(s.len() <= 3) by {
        reveal_with_fuel(text::decimal, 3);
    }
    if n == 0 {
        assert(s.len() == 1);
    }
    assert forall|i: int| #![trigger s[i]] 0 <= i < s.len() implies s[i] != '.' && s[i] != ':' by {
        assert('0' <= s[i] <= '9');
    }
}

/// Four numbers up to 255 in decimal, with dots between them, are the address that
/// they spell.
pub proof fn law_a_dotted_address_reads_back(a: u8, b: u8, c: u8, d: u8)
    ensures
        address(
            text::decimal(a as nat) + seq!['.'] + text::decimal(b as nat) + seq!['.']
                + text::decimal(c as nat) + seq!['.'] + text::decimal(d as nat),
        ) == Some(Address::V4(seq![a, b, c, d])),
{
    octet_reads_back(a);
    octet_reads_back(b);
    octet_reads_back(c);
    octet_reads_back(d);
    let (w, x, y, z) = (
        text::decimal(a as nat),
        text::decimal(b as nat),
        text::decimal(c as nat),
        text::decimal(d as nat),
    );
    one_part(w, '.');
    one_part_more(w, x, '.');
    one_part_more(w + seq!['.'] + x, y, '.');
    one_part_more(w + seq!['.'] + x + seq!['.'] + y, z, '.');
}

/// One to four digits of hex.
pub open spec fn is_group(s: Seq<char>) -> bool {
    1 <= s.len() <= 4 && forall|i: int| 0 <= i < s.len() ==> text::hex_value(#[trigger] s[i]) >= 0
}

/// All of them are groups.
pub open spec fn are_groups(parts: Seq<Seq<char>>) -> bool {
    forall|i: int| 0 <= i < parts.len() ==> is_group(#[trigger] parts[i])
}

/// The parts with colons between them.
pub open spec fn with_colons(parts: Seq<Seq<char>>) -> Seq<char>
    decreases parts.len(),
{
    if parts.len() == 0 {
        Seq::empty()
    } else if parts.len() == 1 {
        parts[0]
    } else {
        with_colons(parts.drop_last()) + seq![':'] + parts.last()
    }
}

/// What the parts spell, each in hex.
pub open spec fn spelled(parts: Seq<Seq<char>>) -> Seq<u16> {
    Seq::new(parts.len(), |i: int| number(parts[i], 16) as u16)
}

/// What holds of a text of groups with colons between them: it splits into them, has
/// no dot and nowhere two colons together, and neither starts nor ends with one.
proof fn groups_with_colons(parts: Seq<Seq<char>>)
    requires
        are_groups(parts),
        parts.len() > 0,
    ensures
        ({
            let s = with_colons(parts);
            &&& s.len() > 0
            &&& split(s, ':') == parts
            &&& groups(parts) == Some(spelled(parts))
            &&& s[0] != ':'
            &&& s.last() != ':'
            &&& forall|i: int| #![trigger s[i]] 0 <= i < s.len() ==> s[i] != '.'
            &&& forall|i: int|
                #![trigger s[i]]
                0 <= i < s.len() - 1 ==> !(s[i] == ':' && s[i + 1] == ':')
        }),
    decreases parts.len(),
{
    let last = parts.last();
    assert(is_group(parts[parts.len() - 1]));
    group_is_plain(last);
    if parts.len() == 1 {
        one_part(last, ':');
        assert(parts =~= seq![last]);
        assert(parts.drop_last() =~= Seq::<Seq<char>>::empty());
        assert(groups(parts.drop_last()) == Some(Seq::<u16>::empty()));
        assert(Seq::<u16>::empty().push(number(last, 16) as u16) =~= spelled(parts));
    } else {
        let rest = parts.drop_last();
        assert forall|i: int| 0 <= i < rest.len() implies is_group(#[trigger] rest[i]) by {
            assert(rest[i] == parts[i]);
        }
        groups_with_colons(rest);
        let before = with_colons(rest);
        one_part_more(before, last, ':');
        assert(rest.push(last) =~= parts);
        assert(spelled(rest).push(number(last, 16) as u16) =~= spelled(parts));
        let s = with_colons(parts);
        assert(s == before + seq![':'] + last);
        assert forall|i: int| #![trigger s[i]] 0 <= i < s.len() implies s[i] != '.' by {
            if i < before.len() {
                assert(s[i] == before[i]);
            } else if i > before.len() {
                assert(s[i] == last[i - before.len() - 1]);
            }
        }
        assert forall|i: int| #![trigger s[i]] 0 <= i < s.len() - 1 implies !(s[i] == ':' && s[i
            + 1] == ':') by {
            if i < before.len() - 1 {
                assert(s[i] == before[i] && s[i + 1] == before[i + 1]);
            } else if i == before.len() - 1 {
                assert(s[i] == before.last());
            } else {
                assert(s[i + 1] == last[i - before.len()]);
            }
        }
        assert(s[0] == before[0]);
        assert(s.last() == last[last.len() - 1]);
    }
}

proof fn group_is_plain(s: Seq<char>)
    requires
        is_group(s),
    ensures
        forall|i: int| #![trigger s[i]] 0 <= i < s.len() ==> s[i] != ':' && s[i] != '.',
        group(s) == Some(number(s, 16) as u16),
{
    assert forall|i: int| #![trigger s[i]] 0 <= i < s.len() implies s[i] != ':' && s[i] != '.' by {
        assert(text::hex_value(s[i]) >= 0);
    }
}

proof fn no_gap(s: Seq<char>, from: int)
    requires
        0 <= from,
        forall|i: int| #![trigger s[i]] from <= i < s.len() - 1 ==> !(s[i] == ':' && s[i + 1] == ':'),
    ensures
        gap(s, from) == -1,
    decreases s.len() - from,
{
    if from + 1 < s.len() {
        assert(!(s[from] == ':' && s[from + 1] == ':'));
        no_gap(s, from + 1);
    }
}

proof fn first_gap(s: Seq<char>, from: int, at: int)
    requires
        0 <= from <= at,
        at + 1 < s.len(),
        s[at] == ':' && s[at + 1] == ':',
        forall|i: int| #![trigger s[i]] from <= i < at ==> !(s[i] == ':' && s[i + 1] == ':'),
    ensures
        gap(s, from) == at,
    decreases at - from,
{
    if from < at {
        assert(!(s[from] == ':' && s[from + 1] == ':'));
        first_gap(s, from + 1, at);
    }
}

proof fn not_dotted(s: Seq<char>)
    requires
        forall|i: int| #![trigger s[i]] 0 <= i < s.len() ==> s[i] != '.',
    ensures
        dotted(s) is None,
{
    one_part(s, '.');
}

proof fn half_of_groups(parts: Seq<Seq<char>>, mixed: bool)
    requires
        are_groups(parts),
    ensures
        half(with_colons(parts), mixed) == Some(spelled(parts)),
{
    if parts.len() == 0 {
        assert(spelled(parts) =~= Seq::<u16>::empty());
    } else {
        groups_with_colons(parts);
        assert(is_group(parts[parts.len() - 1]));
        group_is_plain(parts.last());
        not_dotted(parts.last());
    }
}

/// Eight groups of hex digits, with colons between them, are the address that they
/// spell.
pub proof fn law_an_address_of_groups_reads_back(parts: Seq<Seq<char>>)
    requires
        are_groups(parts),
        parts.len() == 8,
    ensures
        address(with_colons(parts)) == Some(Address::V6(spelled(parts))),
{
    groups_with_colons(parts);
    half_of_groups(parts, true);
    no_gap(with_colons(parts), 0);
    not_dotted(with_colons(parts));
}

/// Two colons together stand for as many groups of zero as are missing, before,
/// between or behind the others.
pub proof fn law_two_colons_stand_for_zeros(a: Seq<Seq<char>>, b: Seq<Seq<char>>)
    requires
        are_groups(a),
        are_groups(b),
        a.len() + b.len() <= 7,
    ensures
        address(with_colons(a) + seq![':', ':'] + with_colons(b)) == Some(
            Address::V6(
                spelled(a) + Seq::new((8 - a.len() - b.len()) as nat, |i: int| 0u16) + spelled(b),
            ),
        ),
{
    let x = with_colons(a);
    let y = with_colons(b);
    let s = x + seq![':', ':'] + y;
    let at = x.len() as int;
    if a.len() > 0 {
        groups_with_colons(a);
    }
    if b.len() > 0 {
        groups_with_colons(b);
    }
    half_of_groups(a, false);
    half_of_groups(b, true);
    assert forall|i: int| #![trigger s[i]] 0 <= i < at implies !(s[i] == ':' && s[i + 1] == ':') by {
        assert(s[i] == x[i]);
        if i < at - 1 {
            assert(s[i + 1] == x[i + 1]);
        } else {
            assert(s[i] == x.last());
        }
    }
    first_gap(s, 0, at);
    assert(s.take(at) =~= x);
    assert(s.skip(at + 2) =~= y);
    assert forall|i: int| #![trigger s[i]] 0 <= i < s.len() implies s[i] != '.' by {
        if i < at {
            assert(s[i] == x[i]);
        } else if i >= at + 2 {
            assert(s[i] == y[i - at - 2]);
        }
    }
    not_dotted(s);
}

/// An octet is written in one way only: what is read as one is the number in decimal.
pub proof fn law_an_octet_is_written_in_one_way(s: Seq<char>, n: u8)
    requires
        octet(s) == Some(n),
    ensures
        s == text::decimal(n as nat),
{
    digits_are_read(s);
    digits_spell_one_number(s);
}

proof fn digits_spell_one_number(s: Seq<char>)
    requires
        s.len() > 0,
        s.len() > 1 ==> s[0] != '0',
        forall|i: int| 0 <= i < s.len() ==> '0' <= #[trigger] s[i] <= '9',
    ensures
        text::spelled(s) >= 0,
        s[0] != '0' ==> text::spelled(s) > 0,
        s == text::decimal(text::spelled(s) as nat),
    decreases s.len(),
{
    let rest = s.drop_last();
    assert(s[s.len() - 1] == s.last());
    if s.len() == 1 {
        assert(rest =~= Seq::<char>::empty());
        assert(text::spelled(rest) == 0);
        assert(text::decimal(text::spelled(s) as nat) =~= s);
    } else {
        assert forall|i: int| 0 <= i < rest.len() implies '0' <= #[trigger] rest[i] <= '9' by {
            assert(rest[i] == s[i]);
        }
        assert(rest[0] == s[0]);
        digits_spell_one_number(rest);
        let n = text::spelled(s);
        assert(n / 10 == text::spelled(rest));
        assert(text::decimal(n as nat) == text::decimal((n as nat) / 10).push(
            text::digit((n as nat) % 10),
        ));
        assert(rest.push(s.last()) =~= s);
    }
}

} // verus!
