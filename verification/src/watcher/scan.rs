//! What a full directory walk comes to.
//!
//! Needed in two situations: at startup, because anything that changed while the
//! process was not running produced no event; and after the platform drops
//! events, because the event stream is then no longer a complete description of
//! what happened.

use vstd::prelude::*;

use super::ignore;
use super::ignore::IgnoreRules;
use super::paths;
use super::paths::logical_path;
use crate::order;
use crate::order::text_before;
use crate::text::same_text;

verus! {

#[derive(Debug, PartialEq, Eq)]
pub struct ScanEntry {
    /// Absolute path on this machine.
    pub path: String,
    /// Path relative to the watched root, as the index stores it.
    pub logical: String,
    pub size: u64,
    pub mtime_ns: i64,
}

/// A file that was found, as values.
pub struct Entry {
    pub path: Seq<char>,
    pub logical: Seq<char>,
    pub size: u64,
    pub mtime_ns: i64,
}

impl View for ScanEntry {
    type V = Entry;

    open spec fn view(&self) -> Entry {
        Entry {
            path: self.path@,
            logical: self.logical@,
            size: self.size,
            mtime_ns: self.mtime_ns,
        }
    }
}

pub open spec fn entry_views(s: Seq<ScanEntry>) -> Seq<Entry> {
    Seq::new(s.len(), |i: int| s[i]@)
}

/// A file that a walk came upon.
#[derive(Debug)]
pub struct FoundFile {
    pub path: String,
    pub size: u64,
    pub mtime_ns: i64,
}

/// Whether a path lies in the tree, and is known there by a name.
pub open spec fn has_logical(root: Seq<char>, path: Seq<char>) -> bool {
    let rest = paths::parts(path).skip(paths::parts(root).len() as int);
    paths::within(paths::parts(path), paths::parts(root)) && rest.len() > 0 && paths::all_names(rest)
}

/// The name by which a path is known in the tree.
pub open spec fn logical_of(root: Seq<char>, path: Seq<char>) -> Seq<char> {
    paths::joined(paths::parts(path).skip(paths::parts(root).len() as int))
}

/// What was found, as the index stores it.
pub open spec fn entries(root: Seq<char>, found: Seq<FoundFile>) -> Seq<Entry>
    decreases found.len(),
{
    if found.len() == 0 {
        Seq::empty()
    } else {
        let before = entries(root, found.drop_last());
        let f = found.last();
        if has_logical(root, f.path@) {
            before.push(
                Entry {
                    path: f.path@,
                    logical: logical_of(root, f.path@),
                    size: f.size,
                    mtime_ns: f.mtime_ns,
                },
            )
        } else {
            before
        }
    }
}

/// Nothing comes after what it has to come before.
pub open spec fn by_logical(list: Seq<Entry>) -> bool {
    forall|i: int, j: int|
        #![trigger list[i], list[j]]
        0 <= i < j < list.len() ==> !order::text_precedes(list[j].logical, list[i].logical)
}

/// Each comes strictly before the next.
pub open spec fn strictly_by_logical(list: Seq<Entry>) -> bool {
    forall|i: int, j: int|
        #![trigger list[i], list[j]]
        0 <= i < j < list.len() ==> order::text_precedes(list[i].logical, list[j].logical)
}

/// No two are known by one name, as no two files of a tree are.
pub open spec fn known_apart(list: Seq<Entry>) -> bool {
    forall|i: int, j: int|
        #![trigger list[i], list[j]]
        0 <= i < j < list.len() ==> list[i].logical != list[j].logical
}

/// What is known apart stands in strict order once it is in order.
proof fn order_is_strict(list: Seq<Entry>, all: Seq<Entry>)
    requires
        by_logical(list),
        known_apart(all),
        list.to_multiset() == all.to_multiset(),
    ensures
        strictly_by_logical(list),
{
    list.to_multiset_ensures();
    all.to_multiset_ensures();
    assert(all.no_duplicates()) by {
        assert forall|i: int, j: int| 0 <= i < all.len() && 0 <= j < all.len() && i != j implies
            all[i] != all[j] by {
            let (p, q) = if i < j {
                (i, j)
            } else {
                (j, i)
            };
            assert(all[p].logical != all[q].logical);
        }
    }
    all.lemma_multiset_has_no_duplicates();
    list.lemma_multiset_has_no_duplicates_conv();
    assert forall|i: int, j: int|
        #![trigger list[i], list[j]]
        0 <= i < j < list.len() implies order::text_precedes(list[i].logical, list[j].logical) by {
        assert(list.contains(list[i]) && list.contains(list[j]));
        assert(list.to_multiset().count(list[i]) > 0 && list.to_multiset().count(list[j]) > 0);
        assert(all.contains(list[i]) && all.contains(list[j]));
        let p = choose|p: int| 0 <= p < all.len() && all[p] == list[i];
        let q = choose|q: int| 0 <= q < all.len() && all[q] == list[j];
        assert(list[i] != list[j]);
        if p < q {
            assert(all[p].logical != all[q].logical);
        } else {
            assert(all[q].logical != all[p].logical);
        }
        order::text_order(list[i].logical, list[j].logical, list[i].logical);
    }
}

/// Puts an entry into a list that is in order, behind its equals.
fn put_in_order(list: &mut Vec<ScanEntry>, entry: ScanEntry)
    requires
        by_logical(entry_views(old(list)@)),
    ensures
        by_logical(entry_views(final(list)@)),
        entry_views(final(list)@).to_multiset() == entry_views(old(list)@).to_multiset().insert(
            entry@,
        ),
{
    let ghost before = entry_views(list@);
    let mut k: usize = list.len();
    while k > 0 && text_before(entry.logical.as_str(), list[k - 1].logical.as_str())
        invariant
            k <= list@.len(),
            *list == *old(list),
            before == entry_views(list@),
            forall|i: int|
                #![trigger before[i]]
                k <= i < before.len() ==> order::text_precedes(entry@.logical, before[i].logical),
        decreases k,
    {
        k -= 1;
        assert(before[k as int] == list@[k as int]@);
    }
    let ghost added = entry@;
    if k > 0 {
        assert(before[k - 1] == list@[k - 1]@);
    }
    list.insert(k, entry);
    proof {
        let after = before.insert(k as int, added);
        assert(entry_views(list@) =~= after);
        vstd::seq_lib::to_multiset_insert(before, k as int, added);
        assert forall|i: int, j: int|
            #![trigger after[i], after[j]]
            0 <= i < j < after.len() implies !order::text_precedes(
            after[j].logical,
            after[i].logical,
        ) by {
            if i != k && j != k {
                let p = if i < k { i } else { i - 1 };
                let q = if j < k { j } else { j - 1 };
                assert(after[i] == before[p] && after[j] == before[q]);
            } else if i == k {
                assert(after[j] == before[j - 1]);
                order::text_order(added.logical, before[j - 1].logical, added.logical);
            } else {
                assert(after[i] == before[i]);
                if i < k - 1 {
                    assert(!order::text_precedes(before[k - 1].logical, before[i].logical));
                }
                order::text_order(added.logical, before[i].logical, before[k - 1].logical);
                order::text_order(before[k - 1].logical, added.logical, before[i].logical);
                order::text_order(before[i].logical, before[k - 1].logical, added.logical);
            }
        }
    }
}

/// What a walk does with an entry that it comes to.
#[derive(Debug, Clone, Copy, PartialEq, Eq, Structural)]
pub enum Visit {
    /// Passes it by, with all that lies beneath.
    Skip,
    /// Goes on to what lies beneath, if anything does.
    Enter,
    /// Takes it up.
    List,
}

/// What a walk does with an entry: `path` is where it lies, where that is
/// Unicode. Only files are taken up. Links are no files, so they are not
/// followed.
pub fn visit(rules: &IgnoreRules, path: Option<&str>, is_file: bool) -> (visit: Visit)
    ensures
        visit == (match path {
            None => Visit::Skip,
            Some(p) => if ignore::ignored(rules@, p@) {
                Visit::Skip
            } else if is_file {
                Visit::List
            } else {
                Visit::Enter
            },
        }),
{
    match path {
        None => Visit::Skip,
        Some(p) => if rules.is_ignored(p) {
            Visit::Skip
        } else if is_file {
            Visit::List
        } else {
            Visit::Enter
        },
    }
}

/// What was found, as the index stores it, ordered by logical path. What lies
/// outside the tree is left out.
pub fn listed(root: &str, found: &Vec<FoundFile>) -> (list: Vec<ScanEntry>)
    ensures
        by_logical(entry_views(list@)),
        entry_views(list@).to_multiset() == entries(root@, found@).to_multiset(),
        known_apart(entries(root@, found@)) ==> strictly_by_logical(entry_views(list@)),
{
    let mut list: Vec<ScanEntry> = Vec::new();
    let mut i: usize = 0;
    assert(entry_views(list@) =~= entries(root@, found@.take(0)));
    while i < found.len()
        invariant
            i <= found@.len(),
            by_logical(entry_views(list@)),
            entry_views(list@).to_multiset() == entries(root@, found@.take(i as int)).to_multiset(),
        decreases found@.len() - i,
    {
        let ghost before = entries(root@, found@.take(i as int));
        proof {
            assert(found@.take(i + 1).drop_last() =~= found@.take(i as int));
            assert(found@.take(i + 1).last() == found@[i as int]);
        }
        match logical_path(root, found[i].path.as_str()) {
            Some(logical) => {
                let entry: ScanEntry = ScanEntry {
                    path: found[i].path.clone(),
                    logical,
                    size: found[i].size,
                    mtime_ns: found[i].mtime_ns,
                };
                proof {
                    before.to_multiset_ensures();
                    assert(entries(root@, found@.take(i + 1)) == before.push(entry@));
                }
                put_in_order(&mut list, entry);
            },
            None => {},
        }
        i += 1;
    }
    assert(found@.take(i as int) =~= found@);
    proof {
        if known_apart(entries(root@, found@)) {
            order_is_strict(entry_views(list@), entries(root@, found@));
        }
    }
    list
}

/// The lower-case form of a text.
pub uninterp spec fn lowercase_text(s: Seq<char>) -> Seq<char>;

/// `str::to_lowercase`: the result depends on the text alone.
#[verifier::external_body]
fn to_lowercase(s: &str) -> (lower: String)
    ensures
        lower@ == lowercase_text(s@),
{
    s.to_lowercase()
}

pub open spec fn texts(s: Seq<String>) -> Seq<Seq<char>> {
    Seq::new(s.len(), |i: int| s[i]@)
}

/// The paths among the first `n` that fold to a name, in the order in which they
/// stand.
pub open spec fn folding_to(
    list: Seq<Seq<char>>,
    folded: Seq<Seq<char>>,
    name: Seq<char>,
    n: int,
) -> Seq<Seq<char>>
    decreases n,
{
    if n <= 0 {
        Seq::empty()
    } else if folded[n - 1] == name {
        folding_to(list, folded, name, n - 1).push(list[n - 1])
    } else {
        folding_to(list, folded, name, n - 1)
    }
}

/// The groups of two or more paths that fold to one name, ordered by that name.
pub open spec fn are_groups(
    list: Seq<Seq<char>>,
    folded: Seq<Seq<char>>,
    groups: Seq<Seq<Seq<char>>>,
) -> bool {
    exists|names: Seq<Seq<char>>| #[trigger] are_groups_of(list, folded, groups, names)
}

/// The groups, with the names that they fold to.
pub open spec fn are_groups_of(
    list: Seq<Seq<char>>,
    folded: Seq<Seq<char>>,
    groups: Seq<Seq<Seq<char>>>,
    names: Seq<Seq<char>>,
) -> bool {
    let n = list.len() as int;
    &&& groups.len() == names.len()
    &&& forall|i: int, j: int|
        #![trigger names[i], names[j]]
        0 <= i < j < names.len() ==> order::text_precedes(names[i], names[j])
    &&& forall|i: int|
        #![trigger groups[i]]
        0 <= i < groups.len() ==> groups[i] == folding_to(list, folded, names[i], n)
    &&& forall|name: Seq<char>| #[trigger]
        names.contains(name) <==> folding_to(list, folded, name, n).len() > 1
}

pub open spec fn group_views(s: Seq<Vec<String>>) -> Seq<Seq<Seq<char>>> {
    Seq::new(s.len(), |i: int| texts(s[i]@))
}

/// The paths that fold to a name.
fn group_of(list: &[String], folded: &Vec<String>, name: &str) -> (group: Vec<String>)
    requires
        folded@.len() == list@.len(),
    ensures
        texts(group@) == folding_to(texts(list@), texts(folded@), name@, list@.len() as int),
{
    let ghost p = texts(list@);
    let ghost f = texts(folded@);
    let mut group: Vec<String> = Vec::new();
    let mut i: usize = 0;
    assert(texts(group@) =~= folding_to(p, f, name@, 0));
    while i < list.len()
        invariant
            i <= list@.len() == folded@.len(),
            p == texts(list@),
            f == texts(folded@),
            texts(group@) == folding_to(p, f, name@, i as int),
        decreases list@.len() - i,
    {
        assert(f[i as int] == folded@[i as int]@);
        if same_text(folded[i].as_str(), name) {
            let ghost before = texts(group@);
            group.push(list[i].clone());
            assert(texts(group@) =~= before.push(p[i as int]));
        }
        i += 1;
    }
    group
}

/// A name to which some path folds has that path in its group.
proof fn in_its_group(list: Seq<Seq<char>>, folded: Seq<Seq<char>>, name: Seq<char>, n: int)
    requires
        0 <= n,
    ensures
        folding_to(list, folded, name, n).len() > 0 <==> exists|i: int|
            0 <= i < n && #[trigger] folded[i] == name,
    decreases n,
{
    if n > 0 {
        in_its_group(list, folded, name, n - 1);
        if folding_to(list, folded, name, n - 1).len() > 0 {
            let i = choose|i: int| 0 <= i < n - 1 && #[trigger] folded[i] == name;
            assert(folded[i] == name);
        }
        if folded[n - 1] == name {
            assert(folding_to(list, folded, name, n).len() > 0);
        }
    }
}

/// Where a name belongs in a list of names, and whether it stands there.
fn place(names: &Vec<String>, name: &str) -> (at: (usize, bool))
    requires
        forall|i: int, j: int|
            #![trigger texts(names@)[i], texts(names@)[j]]
            0 <= i < j < names@.len() ==> order::text_precedes(
                texts(names@)[i],
                texts(names@)[j],
            ),
    ensures
        at.0 <= names@.len(),
        at.1 == texts(names@).contains(name@),
        !at.1 ==> forall|i: int|
            #![trigger texts(names@)[i]]
            0 <= i < at.0 ==> order::text_precedes(texts(names@)[i], name@),
        !at.1 ==> forall|i: int|
            #![trigger texts(names@)[i]]
            at.0 <= i < names@.len() ==> order::text_precedes(name@, texts(names@)[i]),
{
    let ghost all = texts(names@);
    let mut k: usize = 0;
    while k < names.len() && text_before(names[k].as_str(), name)
        invariant
            k <= names@.len(),
            all == texts(names@),
            forall|i: int| #![trigger all[i]] 0 <= i < k ==> order::text_precedes(all[i], name@),
        decreases names@.len() - k,
    {
        assert(all[k as int] == names@[k as int]@);
        k += 1;
    }
    if k < names.len() {
        assert(all[k as int] == names@[k as int]@);
        if same_text(names[k].as_str(), name) {
            return (k, true);
        }
        proof {
            order::text_order(all[k as int], name@, name@);
            assert forall|i: int| #![trigger all[i]] k <= i < names@.len() implies order::text_precedes(
                name@,
                all[i],
            ) by {
                if i > k {
                    assert(order::text_precedes(all[k as int], all[i]));
                    order::text_order(name@, all[k as int], all[i]);
                }
            }
        }
    }
    proof {
        if all.contains(name@) {
            let i = choose|i: int| 0 <= i < all.len() && all[i] == name@;
            order::text_order(all[i], name@, name@);
        }
    }
    (k, false)
}

/// The groups that paths fall into, given what each folds to.
pub fn collision_groups(list: &[String], folded: &Vec<String>) -> (groups: Vec<Vec<String>>)
    requires
        folded@.len() == list@.len(),
    ensures
        are_groups(texts(list@), texts(folded@), group_views(groups@)),
{
    let ghost p = texts(list@);
    let ghost f = texts(folded@);
    let ghost total = list@.len() as int;
    let mut names: Vec<String> = Vec::new();
    let mut groups: Vec<Vec<String>> = Vec::new();
    let mut i: usize = 0;
    while i < folded.len()
        invariant
            i <= folded@.len() == list@.len(),
            p == texts(list@),
            f == texts(folded@),
            total == list@.len(),
            groups@.len() == names@.len(),
            forall|a: int, b: int|
                #![trigger texts(names@)[a], texts(names@)[b]]
                0 <= a < b < names@.len() ==> order::text_precedes(
                    texts(names@)[a],
                    texts(names@)[b],
                ),
            forall|k: int|
                #![trigger groups@[k]]
                0 <= k < groups@.len() ==> texts(groups@[k]@) == folding_to(
                    p,
                    f,
                    texts(names@)[k],
                    total,
                ),
            forall|k: int|
                #![trigger texts(names@)[k]]
                0 <= k < names@.len() ==> folding_to(p, f, texts(names@)[k], total).len() > 1,
            forall|k: int|
                #![trigger f[k]]
                0 <= k < i && folding_to(p, f, f[k], total).len() > 1 ==> texts(names@).contains(
                    f[k],
                ),
        decreases folded@.len() - i,
    {
        let name: &str = folded[i].as_str();
        assert(f[i as int] == name@);
        let ghost before = texts(names@);
        let (at, known): (usize, bool) = place(&names, name);
        if !known {
            let group: Vec<String> = group_of(list, folded, name);
            assert(texts(group@).len() == group@.len());
            if group.len() > 1 {
                let ghost old_groups = groups@;
                let ghost view = texts(group@);
                names.insert(at, name.to_owned());
                groups.insert(at, group);
                proof {
                    let after = before.insert(at as int, name@);
                    assert(texts(names@) =~= after);
                    assert(after[at as int] == name@);
                    assert forall|a: int, b: int|
                        #![trigger after[a], after[b]]
                        0 <= a < b < after.len() implies order::text_precedes(after[a], after[b]) by {
                        let x = if a < at { a } else { a - 1 };
                        let y = if b < at { b } else { b - 1 };
                        if a != at {
                            assert(after[a] == before[x]);
                        }
                        if b != at {
                            assert(after[b] == before[y]);
                        }
                    }
                    assert forall|k: int| #![trigger groups@[k]] 0 <= k < groups@.len() implies texts(
                        groups@[k]@,
                    ) == folding_to(p, f, after[k], total) by {
                        if k < at {
                            assert(groups@[k] == old_groups[k]);
                            assert(after[k] == before[k]);
                        } else if k > at {
                            assert(groups@[k] == old_groups[k - 1]);
                            assert(after[k] == before[k - 1]);
                        }
                    }
                    assert forall|k: int| #![trigger after[k]] 0 <= k < names@.len() implies folding_to(
                        p,
                        f,
                        after[k],
                        total,
                    ).len() > 1 by {
                        let x = if k < at { k } else { k - 1 };
                        if k != at {
                            assert(after[k] == before[x]);
                        }
                    }
                    assert forall|g: Seq<char>| #[trigger] before.contains(g) implies after.contains(
                        g,
                    ) by {
                        let n = choose|n: int| 0 <= n < before.len() && before[n] == g;
                        let m = if n < at { n } else { n + 1 };
                        assert(after[m] == g);
                    }
                }
            }
        }
        i += 1;
    }
    proof {
        let all = texts(names@);
        let views = group_views(groups@);
        assert forall|name: Seq<char>| #[trigger] all.contains(name) <==> folding_to(
            p,
            f,
            name,
            total,
        ).len() > 1 by {
            if all.contains(name) {
                let k = choose|k: int| 0 <= k < all.len() && all[k] == name;
                assert(all[k] == name);
            }
            if folding_to(p, f, name, total).len() > 1 {
                in_its_group(p, f, name, total);
                let k = choose|k: int| 0 <= k < total && #[trigger] f[k] == name;
                assert(f[k] == name);
            }
        }
        assert forall|k: int| #![trigger views[k]] 0 <= k < views.len() implies views[k]
            == folding_to(p, f, all[k], total) by {
            assert(views[k] == texts(groups@[k]@));
        }
        assert(are_groups_of(p, f, views, all));
    }
    groups
}

/// Paths that a case-insensitive filesystem cannot keep apart.
///
/// Returns the groups, each holding two or more paths that fold to the same name.
/// On a case-sensitive filesystem they are ordinary distinct files; on a
/// case-insensitive one only one of them can exist, and writing the second
/// destroys the first.
pub fn case_collisions(list: &[String]) -> (groups: Vec<Vec<String>>)
    ensures
        are_groups(
            texts(list@),
            texts(list@).map_values(|s: Seq<char>| lowercase_text(s)),
            group_views(groups@),
        ),
{
    let mut folded: Vec<String> = Vec::new();
    let mut i: usize = 0;
    while i < list.len()
        invariant
            i <= list@.len(),
            folded@.len() == i,
            forall|k: int|
                #![trigger folded@[k]]
                0 <= k < i ==> folded@[k]@ == lowercase_text(list@[k]@),
        decreases list@.len() - i,
    {
        folded.push(to_lowercase(list[i].as_str()));
        i += 1;
    }
    assert(texts(folded@) =~= texts(list@).map_values(|s: Seq<char>| lowercase_text(s)));
    collision_groups(list, &folded)
}

/// A scan lists exactly the files that lie under the root by plain names, each as it
/// was found: under its path from the root, with its size and the time it was last
/// written.
pub proof fn law_a_scan_lists_what_lies_under_the_root(
    root: Seq<char>,
    found: Seq<FoundFile>,
    e: Entry,
)
    ensures
        entries(root, found).contains(e) <==> exists|i: int|
            0 <= i < found.len() && is_entry_of(root, #[trigger] found[i], e),
    decreases found.len(),
{
    if found.len() > 0 {
        let rest = found.drop_last();
        law_a_scan_lists_what_lies_under_the_root(root, rest, e);
        let a = entries(root, rest);
        let b = entries(root, found);
        let last = found.len() - 1;
        assert(found[last] == found.last());
        under_the_root(root, found.last().path@);
        if a.contains(e) {
            let k = choose|k: int| 0 <= k < a.len() && a[k] == e;
            assert(b[k] == e);
            let i = choose|i: int|
                0 <= i < rest.len() && is_entry_of(root, #[trigger] rest[i], e);
            assert(found[i] == rest[i]);
        }
        if b.contains(e) && !a.contains(e) {
            let k = choose|k: int| 0 <= k < b.len() && b[k] == e;
            if k < a.len() {
                assert(a[k] == e);
            }
            assert(is_entry_of(root, found[last], e));
        }
        if exists|i: int| 0 <= i < found.len() && is_entry_of(root, #[trigger] found[i], e) {
            let i = choose|i: int|
                0 <= i < found.len() && is_entry_of(root, #[trigger] found[i], e);
            if i < last {
                assert(rest[i] == found[i]);
            } else {
                assert(b[a.len() as int] == e);
            }
        }
    }
}

proof fn under_the_root(root: Seq<char>, path: Seq<char>)
    ensures
        ({
            let n = paths::parts(root).len() as int;
            let list = paths::parts(path);
            has_logical(root, path) <==> n < list.len() && list.take(n) == paths::parts(root)
                && forall|i: int| #![trigger list[i]] n <= i < list.len() ==> list[i] is Normal
        }),
{
    let n = paths::parts(root).len() as int;
    let list = paths::parts(path);
    let rest = list.skip(n);
    if has_logical(root, path) {
        assert forall|i: int| #![trigger list[i]] n <= i < list.len() implies list[i] is Normal by {
            assert(rest[i - n] == list[i]);
        }
    }
    if n < list.len() && list.take(n) == paths::parts(root) && (forall|i: int|
        #![trigger list[i]]
        n <= i < list.len() ==> list[i] is Normal) {
        assert forall|i: int| #![trigger rest[i]] 0 <= i < rest.len() implies rest[i] is Normal by {
            assert(rest[i] == list[i + n]);
        }
    }
}

/// The entry is that of a file under the root.
pub open spec fn is_entry_of(root: Seq<char>, f: FoundFile, e: Entry) -> bool {
    let n = paths::parts(root).len() as int;
    let list = paths::parts(f.path@);
    &&& n < list.len()
    &&& list.take(n) == paths::parts(root)
    &&& forall|i: int| #![trigger list[i]] n <= i < list.len() ==> list[i] is Normal
    &&& e.path == f.path@
    &&& e.logical == paths::joined(list.skip(n))
    &&& e.size == f.size
    &&& e.mtime_ns == f.mtime_ns
}

/// A group holds exactly what folds to its name.
proof fn folding_is_complete(
    list: Seq<Seq<char>>,
    folded: Seq<Seq<char>>,
    name: Seq<char>,
    n: int,
    x: Seq<char>,
)
    requires
        0 <= n,
    ensures
        folding_to(list, folded, name, n).contains(x) <==> exists|i: int|
            0 <= i < n && #[trigger] folded[i] == name && list[i] == x,
    decreases n,
{
    if n > 0 {
        folding_is_complete(list, folded, name, n - 1, x);
        let a = folding_to(list, folded, name, n - 1);
        let b = folding_to(list, folded, name, n);
        if a.contains(x) {
            let k = choose|k: int| 0 <= k < a.len() && a[k] == x;
            assert(b[k] == x);
            let i = choose|i: int| 0 <= i < n - 1 && #[trigger] folded[i] == name && list[i] == x;
            assert(folded[i] == name);
        }
        if b.contains(x) && !a.contains(x) {
            let k = choose|k: int| 0 <= k < b.len() && b[k] == x;
            if k < a.len() {
                assert(a[k] == x);
            }
            assert(folded[n - 1] == name);
        }
        if exists|i: int| 0 <= i < n && #[trigger] folded[i] == name && list[i] == x {
            let i = choose|i: int| 0 <= i < n && #[trigger] folded[i] == name && list[i] == x;
            if i < n - 1 {
                assert(folded[i] == name);
            } else {
                assert(b[a.len() as int] == x);
            }
        }
    }
}

proof fn folding_counts(
    list: Seq<Seq<char>>,
    folded: Seq<Seq<char>>,
    name: Seq<char>,
    n: int,
    i: int,
    j: int,
)
    requires
        0 <= i < j < n,
        folded[i] == name,
        folded[j] == name,
    ensures
        folding_to(list, folded, name, n).len() > 1,
    decreases n,
{
    if j < n - 1 {
        folding_counts(list, folded, name, n - 1, i, j);
    } else {
        in_its_group(list, folded, name, n - 1);
        assert(folded[i] == name);
    }
}

/// Names that fold alike stand in one group, and only such stand in it together;
/// what folds like nothing else is in none.
pub proof fn law_what_folds_alike_is_grouped(
    list: Seq<Seq<char>>,
    folded: Seq<Seq<char>>,
    groups: Seq<Seq<Seq<char>>>,
    i: int,
    j: int,
)
    requires
        are_groups(list, folded, groups),
        0 <= i < j < list.len(),
        folded[i] == folded[j],
    ensures
        exists|g: int|
            0 <= g < groups.len() && (#[trigger] groups[g]).contains(list[i]) && groups[g].contains(
                list[j],
            ),
{
    let names = choose|names: Seq<Seq<char>>| #[trigger]
        are_groups_of(list, folded, groups, names);
    let n = list.len() as int;
    let name = folded[i];
    folding_counts(list, folded, name, n, i, j);
    assert(names.contains(name));
    let g = choose|g: int| 0 <= g < names.len() && names[g] == name;
    folding_is_complete(list, folded, name, n, list[i]);
    folding_is_complete(list, folded, name, n, list[j]);
    assert(folded[i] == name && folded[j] == name);
    assert(groups[g] == folding_to(list, folded, names[g], n));
}

/// A group holds more than one name, and any two of them are names of the list that
/// fold to the same.
pub proof fn law_a_group_folds_to_one_name(
    list: Seq<Seq<char>>,
    folded: Seq<Seq<char>>,
    groups: Seq<Seq<Seq<char>>>,
    g: int,
    x: Seq<char>,
    y: Seq<char>,
)
    requires
        are_groups(list, folded, groups),
        0 <= g < groups.len(),
        groups[g].contains(x),
        groups[g].contains(y),
    ensures
        groups[g].len() > 1,
        exists|i: int, j: int|
            #![trigger folded[i], folded[j]]
            0 <= i < list.len() && 0 <= j < list.len() && list[i] == x && list[j] == y && folded[i]
                == folded[j],
{
    let names = choose|names: Seq<Seq<char>>| #[trigger]
        are_groups_of(list, folded, groups, names);
    let n = list.len() as int;
    let name = names[g];
    assert(names.contains(name));
    assert(groups[g] == folding_to(list, folded, name, n));
    folding_is_complete(list, folded, name, n, x);
    folding_is_complete(list, folded, name, n, y);
    let i = choose|i: int| 0 <= i < n && #[trigger] folded[i] == name && list[i] == x;
    let j = choose|j: int| 0 <= j < n && #[trigger] folded[j] == name && list[j] == y;
    assert(folded[i] == folded[j]);
}

/// What a scan lists comes by path, and where no two files have one path, no path
/// comes twice.
pub proof fn law_a_scan_comes_by_path(list: Seq<Entry>, i: int, j: int)
    requires
        0 <= i < j < list.len(),
    ensures
        by_logical(list) ==> list[i].logical == list[j].logical || order::text_precedes(
            list[i].logical,
            list[j].logical,
        ),
        strictly_by_logical(list) ==> list[i].logical != list[j].logical && order::text_precedes(
            list[i].logical,
            list[j].logical,
        ),
{
    order::text_order(list[i].logical, list[j].logical, list[i].logical);
}

} // verus!
