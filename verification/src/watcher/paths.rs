//! Paths as lists of components.
//!
//! Two spellings of one path are one path: doubled separators and a `.` in the
//! middle make no difference, and paths are ordered component by component.

use vstd::prelude::*;

use crate::order;
use crate::text;
use crate::text::{chars_of, string_of};

verus! {

/// One component of a path.
#[derive(Debug)]
pub enum Component {
    Root,
    Current,
    Parent,
    Normal(String),
}

/// One component of a path, as a value.
pub enum Part {
    Root,
    Current,
    Parent,
    Normal { name: Seq<char> },
}

impl View for Component {
    type V = Part;

    open spec fn view(&self) -> Part {
        match *self {
            Component::Root => Part::Root,
            Component::Current => Part::Current,
            Component::Parent => Part::Parent,
            Component::Normal(name) => Part::Normal { name: name@ },
        }
    }
}

pub open spec fn part_views(s: Seq<Component>) -> Seq<Part> {
    Seq::new(s.len(), |i: int| s[i]@)
}

/// What stands between two separators says this. A `.` counts at the start of a
/// relative path only.
pub open spec fn part_of(segment: Seq<char>, first: bool) -> Seq<Part> {
    if segment.len() == 0 {
        Seq::empty()
    } else if segment == seq!['.'] {
        if first {
            seq![Part::Current]
        } else {
            Seq::empty()
        }
    } else if segment == seq!['.', '.'] {
        seq![Part::Parent]
    } else {
        seq![Part::Normal { name: segment }]
    }
}

/// Where the next separator stands from `n` on, or the end.
pub open spec fn next_cut(s: Seq<char>, n: int) -> int
    decreases s.len() - n,
{
    if 0 <= n < s.len() && s[n] != '/' {
        next_cut(s, n + 1)
    } else {
        n
    }
}

/// The components from `n` on.
pub open spec fn parts_from(s: Seq<char>, n: int, first: bool) -> Seq<Part>
    decreases s.len() - n,
{
    let cut = next_cut(s, n);
    if 0 <= n <= cut < s.len() {
        part_of(s.subrange(n, cut), first) + parts_from(s, cut + 1, false)
    } else if 0 <= n <= cut {
        part_of(s.subrange(n, cut), first)
    } else {
        Seq::empty()
    }
}

/// The components of a path.
pub open spec fn parts(s: Seq<char>) -> Seq<Part> {
    if s.len() > 0 && s[0] == '/' {
        seq![Part::Root] + parts_from(s, 1, false)
    } else {
        parts_from(s, 0, true)
    }
}

/// The numbers by which one component is ordered: special ones come before
/// names, and a name before a longer one that starts with it.
pub open spec fn part_key(part: Part) -> Seq<int> {
    match part {
        Part::Root => seq![-4int],
        Part::Current => seq![-3int],
        Part::Parent => seq![-2int],
        Part::Normal { name } => order::char_keys(name).push(-1),
    }
}

/// The numbers by which components are ordered.
pub open spec fn parts_key(list: Seq<Part>) -> Seq<int>
    decreases list.len(),
{
    if list.len() == 0 {
        Seq::empty()
    } else {
        parts_key(list.drop_last()) + part_key(list.last())
    }
}

/// The numbers by which a path is ordered and told apart from others.
pub open spec fn key(path: Seq<char>) -> Seq<int> {
    parts_key(parts(path))
}

/// `a` comes strictly before `b`, component by component.
pub open spec fn path_precedes(a: Seq<char>, b: Seq<char>) -> bool {
    order::precedes(key(a), key(b))
}

/// What one segment says.
fn component_of(chars: &Vec<char>, from: usize, to: usize, first: bool) -> (part: Option<Component>)
    requires
        from <= to <= chars@.len(),
    ensures
        part_of(chars@.subrange(from as int, to as int), first) == (match part {
            Some(c) => seq![c@],
            None => Seq::empty(),
        }),
{
    let ghost segment = chars@.subrange(from as int, to as int);
    let len: usize = to - from;
    if len == 0 {
        return None;
    }
    if len == 1 && chars[from] == '.' {
        assert(segment =~= seq!['.']);
        return if first {
            Some(Component::Current)
        } else {
            None
        };
    }
    if len == 2 && chars[from] == '.' && chars[from + 1] == '.' {
        assert(segment =~= seq!['.', '.']);
        assert(segment != seq!['.']) by {
            assert(seq!['.'].len() == 1);
        }
        return Some(Component::Parent);
    }
    proof {
        if segment == seq!['.'] {
            assert(segment[0] == '.');
            assert(segment.len() == 1);
        }
        if segment == seq!['.', '.'] {
            assert(segment[0] == '.' && segment[1] == '.');
            assert(segment.len() == 2);
        }
    }
    Some(Component::Normal(string_of(chars.as_slice(), from, to)))
}

/// The components of a path.
pub fn components(path: &str) -> (list: Vec<Component>)
    ensures
        part_views(list@) == parts(path@),
{
    let chars: Vec<char> = chars_of(path);
    let len: usize = chars.len();
    let mut list: Vec<Component> = Vec::new();
    let mut n: usize = 0;
    let mut first: bool = true;
    if len > 0 && chars[0] == '/' {
        list.push(Component::Root);
        n = 1;
        first = false;
        assert(part_views(list@) =~= seq![Part::Root]);
    }
    let ghost all = parts(path@);
    assert(part_views(list@) + parts_from(chars@, n as int, first) =~= all);
    while n <= len
        invariant_except_break
            n <= len,
            part_views(list@) + parts_from(chars@, n as int, first) == all,
        invariant
            len == chars@.len(),
            chars@ == path@,
            all == parts(path@),
        ensures
            part_views(list@) == all,
        decreases len + 1 - n,
    {
        let mut cut: usize = n;
        while cut < len && chars[cut] != '/'
            invariant
                n <= cut <= len == chars@.len(),
                next_cut(chars@, n as int) == next_cut(chars@, cut as int),
            decreases len - cut,
        {
            cut += 1;
        }
        let ghost before = part_views(list@);
        match component_of(&chars, n, cut, first) {
            Some(c) => {
                list.push(c);
                assert(part_views(list@) =~= before + seq![c@]);
            },
            None => {
                assert(before + Seq::<Part>::empty() =~= before);
            },
        }
        let ghost here = part_of(chars@.subrange(n as int, cut as int), first);
        assert(part_views(list@) == before + here);
        if cut == len {
            assert(part_views(list@) =~= all);
            break;
        }
        proof {
            assert(parts_from(chars@, n as int, first) == here + parts_from(chars@, cut + 1, false));
            assert(before + (here + parts_from(chars@, cut + 1, false)) =~= (before + here)
                + parts_from(chars@, cut + 1, false));
        }
        n = cut + 1;
        first = false;
    }
    list
}

/// One of the numbers by which paths are ordered.
#[derive(Clone, Copy)]
enum Mark {
    Root,
    Current,
    Parent,
    End,
    Letter(char),
}

spec fn number(mark: Mark) -> int {
    match mark {
        Mark::Root => -4,
        Mark::Current => -3,
        Mark::Parent => -2,
        Mark::End => -1,
        Mark::Letter(c) => c as int,
    }
}

spec fn number_views(s: Seq<Mark>) -> Seq<int> {
    Seq::new(s.len(), |i: int| number(s[i]))
}

proof fn one_more(s: Seq<Mark>, mark: Mark)
    ensures
        number_views(s.push(mark)) == number_views(s).push(number(mark)),
{
    assert(number_views(s.push(mark)) =~= number_views(s).push(number(mark)));
}

/// Whether one mark is the same as another, and whether it is smaller.
fn compare(a: Mark, b: Mark) -> (result: (bool, bool))
    ensures
        result.0 == (number(a) == number(b)),
        result.1 == (number(a) < number(b)),
{
    match (a, b) {
        (Mark::Letter(x), Mark::Letter(y)) => (x == y, x < y),
        (Mark::Letter(_), _) => (false, false),
        (_, Mark::Letter(_)) => (false, true),
        (x, y) => {
            let m: u8 = rank(x);
            let n: u8 = rank(y);
            (m == n, m < n)
        },
    }
}

fn rank(mark: Mark) -> (n: u8)
    requires
        !(mark is Letter),
    ensures
        n == number(mark) + 4,
{
    match mark {
        Mark::Root => 0,
        Mark::Current => 1,
        Mark::Parent => 2,
        Mark::End => 3,
        Mark::Letter(_) => 4,
    }
}

/// The numbers by which a path is ordered.
fn key_of(path: &str) -> (numbers: Vec<Mark>)
    ensures
        number_views(numbers@) == key(path@),
{
    let list: Vec<Component> = components(path);
    let ghost all = part_views(list@);
    let mut out: Vec<Mark> = Vec::new();
    let mut i: usize = 0;
    assert(number_views(out@) =~= parts_key(all.take(0)));
    while i < list.len()
        invariant
            i <= list@.len(),
            all == part_views(list@),
            number_views(out@) == parts_key(all.take(i as int)),
        decreases list@.len() - i,
    {
        let ghost before = number_views(out@);
        let ghost part = list@[i as int]@;
        proof {
            assert(all.take(i + 1).drop_last() =~= all.take(i as int));
            assert(all.take(i + 1).last() == part);
        }
        let ghost marks = out@;
        match &list[i] {
            Component::Root => {
                out.push(Mark::Root);
                proof {
                    one_more(marks, Mark::Root);
                }
            },
            Component::Current => {
                out.push(Mark::Current);
                proof {
                    one_more(marks, Mark::Current);
                }
            },
            Component::Parent => {
                out.push(Mark::Parent);
                proof {
                    one_more(marks, Mark::Parent);
                }
            },
            Component::Normal(name) => {
                push_name(&mut out, name.as_str());
                let ghost named = out@;
                out.push(Mark::End);
                proof {
                    one_more(named, Mark::End);
                }
            },
        }
        assert(number_views(out@) =~= before + part_key(part));
        i += 1;
    }
    assert(all.take(i as int) =~= all);
    out
}

fn push_name(out: &mut Vec<Mark>, name: &str)
    ensures
        number_views(final(out)@) == number_views(old(out)@) + order::char_keys(name@),
{
    let chars: Vec<char> = chars_of(name);
    let ghost before = number_views(out@);
    let mut i: usize = 0;
    assert(before + order::char_keys(name@).take(0) =~= before);
    while i < chars.len()
        invariant
            i <= chars@.len(),
            chars@ == name@,
            number_views(out@) == before + order::char_keys(name@).take(i as int),
        decreases chars@.len() - i,
    {
        let ghost so_far = number_views(out@);
        let ghost marks = out@;
        out.push(Mark::Letter(chars[i]));
        proof {
            one_more(marks, Mark::Letter(chars@[i as int]));
            let keys = order::char_keys(name@);
            assert(keys.take(i + 1) =~= keys.take(i as int).push(keys[i as int]));
            assert(number_views(out@) =~= so_far.push(chars@[i as int] as int));
            assert(before + keys.take(i + 1) =~= (before + keys.take(i as int)).push(
                keys[i as int],
            ));
        }
        i += 1;
    }
    assert(order::char_keys(name@).take(i as int) =~= order::char_keys(name@));
}

/// Whether `a` comes strictly before `b`, component by component.
pub fn path_before(a: &str, b: &str) -> (before: bool)
    ensures
        before == path_precedes(a@, b@),
{
    let p: Vec<Mark> = key_of(a);
    let q: Vec<Mark> = key_of(b);
    let ghost x = number_views(p@);
    let ghost y = number_views(q@);
    let mut i: usize = 0;
    while i < p.len() && i < q.len() && compare(p[i], q[i]).0
        invariant
            i <= p.len(),
            i <= q.len(),
            x == number_views(p@),
            y == number_views(q@),
            forall|j: int| 0 <= j < i ==> #[trigger] x[j] == y[j],
        decreases p.len() - i,
    {
        assert(x[i as int] == y[i as int]);
        i += 1;
    }
    let before: bool = i < q.len() && (i == p.len() || compare(p[i], q[i]).1);
    proof {
        reveal(order::precedes);
        if before {
            assert(order::parts_at(x, y, i as int));
        } else if x != y {
            assert(i < p.len()) by {
                if i == p.len() {
                    assert(x =~= y);
                }
            }
            assert(order::parts_at(y, x, i as int));
            if order::precedes(x, y) {
                order::precedes_transitive(x, y, x);
                order::precedes_irreflexive(x);
            }
        } else {
            order::precedes_irreflexive(x);
        }
    }
    before
}

/// Whether two spellings are one path.
pub fn same_path(a: &str, b: &str) -> (same: bool)
    ensures
        same == (key(a@) == key(b@)),
{
    let p: Vec<Mark> = key_of(a);
    let q: Vec<Mark> = key_of(b);
    if p.len() != q.len() {
        assert(number_views(p@).len() != number_views(q@).len());
        return false;
    }
    let mut i: usize = 0;
    while i < p.len()
        invariant
            i <= p@.len() == q@.len(),
            number_views(p@) == key(a@),
            number_views(q@) == key(b@),
            forall|j: int| 0 <= j < i ==> #[trigger] number(p@[j]) == number(q@[j]),
        decreases p@.len() - i,
    {
        if !compare(p[i], q[i]).0 {
            assert(number_views(p@)[i as int] != number_views(q@)[i as int]);
            return false;
        }
        i += 1;
    }
    assert(number_views(p@) =~= number_views(q@));
    true
}

/// The order of paths is a strict total order, up to spelling.
pub proof fn path_order(a: Seq<char>, b: Seq<char>, c: Seq<char>)
    ensures
        !path_precedes(a, a),
        !(path_precedes(a, b) && path_precedes(b, a)),
        path_precedes(a, b) && path_precedes(b, c) ==> path_precedes(a, c),
        key(a) == key(b) || path_precedes(a, b) || path_precedes(b, a),
{
    order::precedes_irreflexive(key(a));
    if path_precedes(a, b) && path_precedes(b, a) {
        order::precedes_transitive(key(a), key(b), key(a));
    }
    if path_precedes(a, b) && path_precedes(b, c) {
        order::precedes_transitive(key(a), key(b), key(c));
    }
    order::precedes_total(key(a), key(b));
}

/// Whether one list of components starts with another.
pub open spec fn within(list: Seq<Part>, base: Seq<Part>) -> bool {
    base.len() <= list.len() && list.take(base.len() as int) == base
}

fn same_component(a: &Component, b: &Component) -> (same: bool)
    ensures
        same == (a@ == b@),
{
    match (a, b) {
        (Component::Root, Component::Root) => true,
        (Component::Current, Component::Current) => true,
        (Component::Parent, Component::Parent) => true,
        (Component::Normal(x), Component::Normal(y)) => text::same_text(x.as_str(), y.as_str()),
        _ => false,
    }
}

/// Whether one list of components starts with another.
pub fn is_within(list: &Vec<Component>, base: &Vec<Component>) -> (yes: bool)
    ensures
        yes == within(part_views(list@), part_views(base@)),
{
    if base.len() > list.len() {
        return false;
    }
    let ghost p = part_views(list@);
    let ghost b = part_views(base@);
    let mut i: usize = 0;
    while i < base.len()
        invariant
            i <= base@.len() <= list@.len(),
            p == part_views(list@),
            b == part_views(base@),
            forall|j: int| 0 <= j < i ==> #[trigger] p[j] == b[j],
        decreases base@.len() - i,
    {
        assert(p[i as int] == list@[i as int]@);
        if !same_component(&list[i], &base[i]) {
            assert(p.take(b.len() as int)[i as int] != b[i as int]);
            return false;
        }
        i += 1;
    }
    assert(p.take(b.len() as int) =~= b);
    true
}

/// Names joined by separators.
pub open spec fn joined(list: Seq<Part>) -> Seq<char>
    decreases list.len(),
{
    if list.len() == 0 {
        Seq::empty()
    } else if list.len() == 1 {
        list[0]->name
    } else {
        joined(list.drop_last()) + seq!['/'] + list.last()->name
    }
}

/// Every component is a name.
pub open spec fn all_names(list: Seq<Part>) -> bool {
    forall|i: int| #![trigger list[i]] 0 <= i < list.len() ==> list[i] is Normal
}

/// Path relative to the root, with forward slashes.
///
/// The separator is normalised because the logical path is what gets stored in
/// the index and sent to peers. Nothing for the root itself, for what lies
/// outside it, and for what is reached through `..`.
pub fn logical_path(root: &str, path: &str) -> (logical: Option<String>)
    ensures
        ({
            let rest = parts(path@).skip(parts(root@).len() as int);
            match logical {
                Some(l) => {
                    &&& within(parts(path@), parts(root@))
                    &&& rest.len() > 0
                    &&& all_names(rest)
                    &&& l@ == joined(rest)
                },
                None => !within(parts(path@), parts(root@)) || rest.len() == 0 || !all_names(rest),
            }
        }),
{
    let base: Vec<Component> = components(root);
    let list: Vec<Component> = components(path);
    if !is_within(&list, &base) {
        return None;
    }
    let ghost all = part_views(list@);
    let ghost rest = all.skip(base@.len() as int);
    let from: usize = base.len();
    if from == list.len() {
        return None;
    }
    let mut out: String = String::new();
    let mut i: usize = from;
    assert(out@ =~= joined(rest.take(0)));
    while i < list.len()
        invariant
            from <= i <= list@.len(),
            from < list@.len(),
            from == base@.len(),
            part_views(base@) == parts(root@),
            all == part_views(list@),
            all == parts(path@),
            rest == all.skip(from as int),
            all_names(rest.take(i - from)),
            out@ == joined(rest.take(i - from)),
        decreases list@.len() - i,
    {
        let ghost n = i - from;
        assert(rest[n] == list@[i as int]@);
        assert(rest.take(n + 1).drop_last() =~= rest.take(n));
        match &list[i] {
            Component::Normal(name) => {
                if i > from {
                    out.push('/');
                }
                let ghost so_far = out@;
                out = out.concat(name.as_str());
                proof {
                    if n == 0 {
                        assert(rest.take(n + 1)[0] == rest[0]);
                        assert(out@ =~= joined(rest.take(n + 1)));
                    } else {
                        assert(out@ =~= joined(rest.take(n)) + seq!['/'] + name@);
                    }
                    assert forall|k: int|
                        #![trigger rest.take(n + 1)[k]]
                        0 <= k < n + 1 implies rest.take(n + 1)[k] is Normal by {
                        if k < n {
                            assert(rest.take(n)[k] == rest.take(n + 1)[k]);
                        }
                    }
                }
            },
            _ => {
                assert(!(rest[n] is Normal));
                assert(!all_names(rest));
                return None;
            },
        }
        i += 1;
    }
    assert(rest.take(i - from) =~= rest);
    Some(out)
}

/// The numbers of a list of components end in a mark of their own.
proof fn keys_end_in_a_mark(list: Seq<Part>)
    requires
        list.len() > 0,
    ensures
        parts_key(list).len() > 0,
        parts_key(list).last() == (match list.last() {
            Part::Root => -4int,
            Part::Current => -3,
            Part::Parent => -2,
            Part::Normal { .. } => -1,
        }),
{
    let k = part_key(list.last());
    assert(parts_key(list).last() == k.last());
}

/// Two lists of components with the same numbers are the same.
proof fn keys_tell_apart(a: Seq<Part>, b: Seq<Part>)
    requires
        parts_key(a) == parts_key(b),
    ensures
        a == b,
    decreases a.len(),
{
    if a.len() == 0 || b.len() == 0 {
        if a.len() > 0 {
            keys_end_in_a_mark(a);
        }
        if b.len() > 0 {
            keys_end_in_a_mark(b);
        }
        assert(a =~= b);
    } else {
        keys_end_in_a_mark(a);
        keys_end_in_a_mark(b);
        let (p, q) = (part_key(a.last()), part_key(b.last()));
        let (x, y) = (parts_key(a.drop_last()), parts_key(b.drop_last()));
        let k = parts_key(a);
        assert(k == x + p);
        assert(k == y + q);
        not_shorter(a, b, k);
        not_shorter(b, a, k);
        assert(x =~= k.take(x.len() as int));
        assert(y =~= k.take(x.len() as int));
        assert(p =~= k.skip(x.len() as int));
        assert(q =~= k.skip(x.len() as int));
        keys_tell_apart(a.drop_last(), b.drop_last());
        if let (Part::Normal { name: m }, Part::Normal { name: n }) = (a.last(), b.last()) {
            assert(m.len() == n.len());
            assert forall|i: int| 0 <= i < m.len() implies m[i] == n[i] by {
                assert(p[i] == m[i] as int);
                assert(q[i] == n[i] as int);
            }
            assert(m =~= n);
        }
        assert(a =~= a.drop_last().push(a.last()));
        assert(b =~= b.drop_last().push(b.last()));
    }
}

/// Of two lists with the same numbers, the last name of one cannot be shorter.
proof fn not_shorter(a: Seq<Part>, b: Seq<Part>, k: Seq<int>)
    requires
        a.len() > 0,
        b.len() > 0,
        k == parts_key(a),
        k == parts_key(b),
    ensures
        part_key(a.last()).len() >= part_key(b.last()).len(),
{
    keys_end_in_a_mark(a);
    keys_end_in_a_mark(b);
    let (p, q) = (part_key(a.last()), part_key(b.last()));
    let (x, y) = (parts_key(a.drop_last()), parts_key(b.drop_last()));
    assert(k == x + p);
    assert(k == y + q);
    if p.len() < q.len() {
        assert(b.last() is Normal && a.last() is Normal);
        assert(x.len() > y.len());
        let at = x.len() - 1;
        assert(k[at] == x[at]);
        assert(k[at] == q[at - y.len()]);
        if a.drop_last().len() > 0 {
            keys_end_in_a_mark(a.drop_last());
            assert(x[at] == x.last());
        }
        assert(p.len() >= 1);
        assert(at - y.len() < q.len() - 1);
        let c: char = b.last()->name[at - y.len()];
        assert(q[at - y.len()] == c as int);
        number_of_a_letter(c);
    }
}

proof fn number_of_a_letter(c: char)
    ensures
        c as int >= 0,
{
}

/// Two paths are the same path exactly where they have the same components.
pub proof fn law_a_path_is_its_components(a: Seq<char>, b: Seq<char>)
    ensures
        key(a) == key(b) <==> parts(a) == parts(b),
{
    if key(a) == key(b) {
        keys_tell_apart(parts(a), parts(b));
    }
}

/// The cut is the first separator from `n` on, or the end.
proof fn cut_is_first(s: Seq<char>, n: int)
    requires
        0 <= n <= s.len(),
    ensures
        n <= next_cut(s, n) <= s.len(),
        next_cut(s, n) < s.len() ==> s[next_cut(s, n)] == '/',
        forall|i: int| n <= i < next_cut(s, n) ==> s[i] != '/',
    decreases s.len() - n,
{
    if n < s.len() && s[n] != '/' {
        cut_is_first(s, n + 1);
    }
}

/// A cut before the end stays where it is, whatever comes behind the text.
proof fn cut_within(s: Seq<char>, t: Seq<char>, n: int)
    requires
        0 <= n <= s.len(),
        t.len() > 0 ==> t[0] == '/',
    ensures
        next_cut(s + t, n) == next_cut(s, n),
    decreases s.len() - n,
{
    if n < s.len() {
        assert((s + t)[n] == s[n]);
        if s[n] != '/' {
            cut_within(s, t, n + 1);
        }
    } else if t.len() > 0 {
        assert((s + t)[n] == t[0]);
    }
}

/// A name is one component.
proof fn name_is_one_part(s: Seq<char>, name: Seq<char>, n: int)
    requires
        0 <= n,
        n + name.len() == s.len(),
        s.skip(n) == name,
        is_name(name),
    ensures
        parts_from(s, n, false) == seq![Part::Normal { name }],
{
    cut_is_first(s, n);
    let cut = next_cut(s, n);
    if cut < s.len() {
        assert(s.skip(n)[cut - n] == '/');
    }
    assert(s.subrange(n, cut) =~= name);
}

/// What can be the name of a file: something, without a separator, that does not
/// stand for this or for the next higher directory.
pub open spec fn is_name(name: Seq<char>) -> bool {
    &&& name.len() > 0
    &&& forall|i: int| #![trigger name[i]] 0 <= i < name.len() ==> name[i] != '/'
    &&& name != seq!['.']
    &&& name != seq!['.', '.']
}

proof fn one_part_more(dir: Seq<char>, name: Seq<char>, n: int, first: bool)
    requires
        0 <= n <= dir.len(),
        is_name(name),
    ensures
        parts_from(dir + seq!['/'] + name, n, first) == parts_from(dir, n, first).push(
            Part::Normal { name },
        ),
    decreases dir.len() - n,
{
    let t = seq!['/'] + name;
    let s = dir + seq!['/'] + name;
    assert(s =~= dir + t);
    cut_within(dir, t, n);
    cut_is_first(dir, n);
    let cut = next_cut(dir, n);
    assert(s.subrange(n, cut) =~= dir.subrange(n, cut));
    if cut < dir.len() {
        one_part_more(dir, name, cut + 1, false);
        assert(parts_from(s, n, first) =~= parts_from(dir, n, first).push(Part::Normal { name }));
    } else {
        assert(s.skip(cut + 1) =~= name);
        name_is_one_part(s, name, cut + 1);
        assert(parts_from(s, n, first) =~= parts_from(dir, n, first).push(Part::Normal { name }));
    }
}

/// A file in a directory has the directory's components and its own name, in that
/// order.
pub proof fn law_a_file_has_one_component_more(dir: Seq<char>, name: Seq<char>)
    requires
        dir.len() > 0,
        is_name(name),
    ensures
        parts(dir + seq!['/'] + name) == parts(dir).push(Part::Normal { name }),
{
    let s = dir + seq!['/'] + name;
    assert(s[0] == dir[0]);
    if dir[0] == '/' {
        one_part_more(dir, name, 1, false);
        assert(parts(s) =~= parts(dir).push(Part::Normal { name }));
    } else {
        one_part_more(dir, name, 0, true);
    }
}

/// A file under a root is known by its path from there: its name where it lies in
/// the root itself, and otherwise that of its directory, a separator and its name.
pub proof fn law_a_file_is_known_by_its_path_from_the_root(
    root: Seq<char>,
    dir: Seq<char>,
    name: Seq<char>,
)
    requires
        root.len() > 0,
        dir.len() > 0,
        is_name(name),
        within(parts(dir), parts(root)),
    ensures
        ({
            let n = parts(root).len() as int;
            let path = dir + seq!['/'] + name;
            let before = parts(dir).skip(n);
            let rest = parts(path).skip(n);
            &&& within(parts(path), parts(root))
            &&& rest.len() > 0
            &&& all_names(before) ==> all_names(rest)
            &&& before.len() == 0 ==> joined(rest) == name
            &&& before.len() > 0 ==> joined(rest) == joined(before) + seq!['/'] + name
        }),
{
    law_a_file_has_one_component_more(dir, name);
    let n = parts(root).len() as int;
    let path = dir + seq!['/'] + name;
    let before = parts(dir).skip(n);
    let rest = parts(path).skip(n);
    assert(rest =~= before.push(Part::Normal { name }));
    assert(parts(path).take(n) =~= parts(dir).take(n));
    if all_names(before) {
        assert forall|i: int| #![trigger rest[i]] 0 <= i < rest.len() implies rest[i] is Normal by {
            if i < before.len() {
                assert(rest[i] == before[i]);
            }
        }
    }
    assert(rest.drop_last() =~= before);
    assert(rest.last() == Part::Normal { name });
}

/// A path lies within another exactly where it starts with all of its components.
pub proof fn law_what_lies_within_starts_alike(list: Seq<Part>, base: Seq<Part>)
    ensures
        within(list, base) <==> base.len() <= list.len() && forall|i: int|
            #![trigger list[i]]
            0 <= i < base.len() ==> list[i] == base[i],
{
    if base.len() <= list.len() {
        let start = list.take(base.len() as int);
        if forall|i: int| #![trigger list[i]] 0 <= i < base.len() ==> list[i] == base[i] {
            assert forall|i: int| 0 <= i < base.len() implies start[i] == base[i] by {
                assert(list[i] == base[i]);
            }
            assert(start =~= base);
        }
        if start == base {
            assert forall|i: int| #![trigger list[i]] 0 <= i < base.len() implies list[i]
                == base[i] by {
                assert(start[i] == list[i]);
            }
        }
    }
}

} // verus!
