//! What not to watch.
//!
//! Two categories, for different reasons.
//!
//! **The store itself.** The chunk store and index live inside the watched tree
//! in most deployments. Watching them would make every write trigger events that
//! cause more writes. This one is not a preference, it is a correctness
//! requirement.
//!
//! **Editor and download scratch files.** Applications routinely write
//! `document.txt.tmp`, rename it over `document.txt`, and delete the original.
//! Syncing the intermediate states wastes transfer and produces files on other
//! devices that vanish seconds later.

use vstd::prelude::*;

use super::paths;
use super::paths::{components, is_within, Component, Part};
use crate::text;
use crate::text::{chars_of, lower_of, same_text, starts_with};

verus! {

/// Directory names skipped wherever they appear in the tree.
///
/// Version control metadata is excluded because it is large, changes constantly,
/// and is meaningless without the working tree it belongs to.
pub open spec fn dir_is_skipped(name: Seq<char>) -> bool {
    name == ".git"@ || name == ".svn"@ || name == ".hg"@ || name == ".bzr"@ || name
        == "node_modules"@ || name == "__pycache__"@
}

/// Files that are never worth syncing.
pub open spec fn name_is_skipped(name: Seq<char>) -> bool {
    name == ".DS_Store"@ || name == "Thumbs.db"@ || name == "desktop.ini"@
}

/// Whether `s` ends with `suffix`.
pub open spec fn has_suffix(s: Seq<char>, suffix: Seq<char>) -> bool {
    suffix.len() <= s.len() && s.skip(s.len() - suffix.len()) == suffix
}

/// The text with its ASCII letters in lower case.
pub open spec fn lowered(s: Seq<char>) -> Seq<char> {
    Seq::new(s.len(), |i: int| text::ascii_lower(s[i]))
}

/// Suffixes marking work in progress.
///
/// `.incoming` is ours: a file arriving from a peer is assembled beside its
/// destination and moved into place once verified. Without it the watcher would
/// index the half-written file, then see it vanish at the rename, and send both
/// the phantom and its deletion to every other device.
pub open spec fn suffix_is_skipped(name: Seq<char>) -> bool {
    has_suffix(name, ".tmp"@) || has_suffix(name, ".temp"@) || has_suffix(name, ".swp"@)
        || has_suffix(name, ".swx"@) || has_suffix(name, ".part"@) || has_suffix(name, ".partial"@)
        || has_suffix(name, ".crdownload"@) || has_suffix(name, ".download"@) || has_suffix(
        name,
        ".incoming"@,
    ) || has_suffix(name, "~"@)
}

/// Prefixes marking work in progress: Emacs lock files, Office lock files,
/// LibreOffice lock files.
pub open spec fn prefix_is_skipped(name: Seq<char>) -> bool {
    text::has_prefix(name, ".#"@) || text::has_prefix(name, "~$"@) || text::has_prefix(
        name,
        ".~lock."@,
    )
}

/// Whether a file of this name is never worth syncing. Suffixes are matched
/// whatever their case: Windows and macOS filesystems routinely differ in case
/// from what an application wrote.
pub open spec fn file_is_skipped(name: Seq<char>) -> bool {
    name_is_skipped(name) || prefix_is_skipped(name) || suffix_is_skipped(lowered(name))
}

#[derive(Debug, Clone)]
pub struct IgnoreRules {
    /// Absolute path to the store directory, if it lives inside the watched tree.
    /// Everything beneath it is ignored.
    pub store_dir: Option<String>,
    pub extra_dirs: Vec<String>,
}

/// The rules, as values.
pub struct Rules {
    pub store_dir: Option<Seq<char>>,
    pub extra_dirs: Seq<Seq<char>>,
}

impl View for IgnoreRules {
    type V = Rules;

    open spec fn view(&self) -> Rules {
        Rules {
            store_dir: match self.store_dir {
                Some(d) => Some(d@),
                None => None,
            },
            extra_dirs: Seq::new(self.extra_dirs@.len(), |i: int| self.extra_dirs@[i]@),
        }
    }
}

/// Whether a component names a directory that is skipped.
pub open spec fn part_is_skipped(rules: Rules, part: Part) -> bool {
    part is Normal && (dir_is_skipped(part->name) || rules.extra_dirs.contains(part->name))
}

/// Whether a path is skipped: it is the store or lies in it, some component of it
/// names a directory that is skipped, or it is a file that is skipped.
pub open spec fn ignored(rules: Rules, path: Seq<char>) -> bool {
    let list = paths::parts(path);
    ||| rules.store_dir matches Some(d) && paths::within(list, paths::parts(d))
    ||| exists|i: int| 0 <= i < list.len() && part_is_skipped(rules, #[trigger] list[i])
    ||| list.len() > 0 && list.last() is Normal && file_is_skipped(list.last()->name)
}

/// Whether the text ends with `suffix`, ASCII letters taken in lower case.
fn ends_with(chars: &Vec<char>, suffix: &str) -> (yes: bool)
    ensures
        yes == has_suffix(lowered(chars@), suffix@),
{
    let ghost s = lowered(chars@);
    let p: Vec<char> = chars_of(suffix);
    let len: usize = chars.len();
    if p.len() > len {
        return false;
    }
    let from: usize = len - p.len();
    let ghost tail = s.skip(from as int);
    let mut i: usize = 0;
    while i < p.len()
        invariant
            i <= p@.len(),
            p@ == suffix@,
            len == chars@.len(),
            from + p@.len() == len,
            s == lowered(chars@),
            tail == s.skip(from as int),
            forall|j: int| 0 <= j < i ==> #[trigger] p@[j] == tail[j],
        decreases p@.len() - i,
    {
        if p[i] != lower_of(chars[from + i]) {
            assert(tail[i as int] != p@[i as int]);
            return false;
        }
        i += 1;
    }
    assert(tail =~= p@);
    true
}

fn is_skipped_dir(name: &str) -> (yes: bool)
    ensures
        yes == dir_is_skipped(name@),
{
    same_text(name, ".git") || same_text(name, ".svn") || same_text(name, ".hg") || same_text(
        name,
        ".bzr",
    ) || same_text(name, "node_modules") || same_text(name, "__pycache__")
}

fn is_ignored_name(name: &str) -> (yes: bool)
    ensures
        yes == file_is_skipped(name@),
{
    if same_text(name, ".DS_Store") || same_text(name, "Thumbs.db") || same_text(
        name,
        "desktop.ini",
    ) {
        return true;
    }
    let chars: Vec<char> = chars_of(name);
    assert(chars@.skip(0) =~= name@);
    if starts_with(chars.as_slice(), 0, ".#") || starts_with(chars.as_slice(), 0, "~$")
        || starts_with(chars.as_slice(), 0, ".~lock.") {
        return true;
    }
    ends_with(&chars, ".tmp") || ends_with(&chars, ".temp") || ends_with(&chars, ".swp")
        || ends_with(&chars, ".swx") || ends_with(&chars, ".part") || ends_with(&chars, ".partial")
        || ends_with(&chars, ".crdownload") || ends_with(&chars, ".download") || ends_with(
        &chars,
        ".incoming",
    ) || ends_with(&chars, "~")
}

impl Default for IgnoreRules {
    fn default() -> (rules: Self)
        ensures
            rules@ == (Rules { store_dir: None, extra_dirs: Seq::empty() }),
    {
        IgnoreRules::new()
    }
}

impl IgnoreRules {
    pub fn new() -> (rules: Self)
        ensures
            rules@ == (Rules { store_dir: None, extra_dirs: Seq::empty() }),
    {
        let rules: IgnoreRules = IgnoreRules { store_dir: None, extra_dirs: Vec::new() };
        assert(rules@.extra_dirs =~= Seq::<Seq<char>>::empty());
        rules
    }

    /// Exclude the store's own directory. Call this whenever the store lives
    /// inside the tree being watched.
    pub fn with_store_dir(self, dir: &str) -> (rules: Self)
        ensures
            rules@ == (Rules { store_dir: Some(dir@), ..self@ }),
    {
        IgnoreRules { store_dir: Some(dir.to_owned()), extra_dirs: self.extra_dirs }
    }

    /// Exclude an additional directory name, matched anywhere in the tree.
    pub fn ignoring_dir(self, name: &str) -> (rules: Self)
        ensures
            rules@ == (Rules { extra_dirs: self@.extra_dirs.push(name@), ..self@ }),
    {
        let mut extra_dirs: Vec<String> = self.extra_dirs;
        extra_dirs.push(name.to_owned());
        let rules: IgnoreRules = IgnoreRules { store_dir: self.store_dir, extra_dirs };
        assert(rules@.extra_dirs =~= self@.extra_dirs.push(name@));
        rules
    }

    fn is_extra(&self, name: &str) -> (yes: bool)
        ensures
            yes == self@.extra_dirs.contains(name@),
    {
        let ghost all = self@.extra_dirs;
        let mut i: usize = 0;
        while i < self.extra_dirs.len()
            invariant
                i <= self.extra_dirs@.len(),
                all == self@.extra_dirs,
                forall|j: int| 0 <= j < i ==> #[trigger] all[j] != name@,
            decreases self.extra_dirs@.len() - i,
        {
            assert(all[i as int] == self.extra_dirs@[i as int]@);
            if same_text(self.extra_dirs[i].as_str(), name) {
                return true;
            }
            i += 1;
        }
        false
    }

    /// Whether this path should be skipped.
    ///
    /// Takes absolute paths. A path inside an ignored directory is ignored even
    /// if the path itself looks ordinary, so a whole subtree disappears at once.
    pub fn is_ignored(&self, path: &str) -> (yes: bool)
        ensures
            yes == ignored(self@, path@),
    {
        let list: Vec<Component> = components(path);
        let ghost all = paths::parts(path@);
        if let Some(store) = &self.store_dir {
            if is_within(&list, &components(store.as_str())) {
                return true;
            }
        }
        let mut i: usize = 0;
        while i < list.len()
            invariant
                i <= list@.len(),
                all == paths::part_views(list@),
                all == paths::parts(path@),
                forall|j: int| 0 <= j < i ==> !part_is_skipped(self@, #[trigger] all[j]),
            decreases list@.len() - i,
        {
            assert(all[i as int] == list@[i as int]@);
            if let Component::Normal(name) = &list[i] {
                if is_skipped_dir(name.as_str()) || self.is_extra(name.as_str()) {
                    assert(part_is_skipped(self@, all[i as int]));
                    return true;
                }
            }
            i += 1;
        }
        if list.len() == 0 {
            return false;
        }
        assert(all.last() == list@[list@.len() - 1]@);
        match &list[list.len() - 1] {
            Component::Normal(name) => is_ignored_name(name.as_str()),
            _ => false,
        }
    }
}

/// Whatever lies in the store's own directory is ignored, whatever it is called.
pub proof fn law_the_store_is_never_watched(rules: Rules, store: Seq<char>, path: Seq<char>)
    requires
        rules.store_dir == Some(store),
        paths::within(paths::parts(path), paths::parts(store)),
    ensures
        ignored(rules, path),
{
}

/// What lies in a directory that is skipped is ignored, whatever it is called and
/// however deep it lies.
pub proof fn law_a_skipped_directory_disappears_whole(
    rules: Rules,
    dir: Seq<char>,
    path: Seq<char>,
    i: int,
)
    requires
        paths::within(paths::parts(path), paths::parts(dir)),
        0 <= i < paths::parts(dir).len(),
        part_is_skipped(rules, paths::parts(dir)[i]),
    ensures
        ignored(rules, dir),
        ignored(rules, path),
{
    let list = paths::parts(path);
    assert(list.take(paths::parts(dir).len() as int)[i] == list[i]);
    assert(part_is_skipped(rules, list[i]));
}

/// An ordinary path is watched: one that does not lie in the store, lies in none of
/// the directories that are skipped or were named, and whose last name is not that
/// of a scratch file. Hidden files are ordinary.
pub proof fn law_an_ordinary_path_is_watched(rules: Rules, path: Seq<char>)
    requires
        rules.store_dir matches Some(d) ==> !paths::within(paths::parts(path), paths::parts(d)),
        forall|i: int|
            #![trigger paths::parts(path)[i]]
            0 <= i < paths::parts(path).len() && paths::parts(path)[i] is Normal ==> {
                let name = paths::parts(path)[i]->name;
                &&& !(name == ".git"@ || name == ".svn"@ || name == ".hg"@ || name == ".bzr"@
                    || name == "node_modules"@ || name == "__pycache__"@)
                &&& !rules.extra_dirs.contains(name)
            },
        paths::parts(path).len() > 0 && paths::parts(path).last() is Normal ==> {
            let name = paths::parts(path).last()->name;
            &&& name != ".DS_Store"@ && name != "Thumbs.db"@ && name != "desktop.ini"@
            &&& !text::has_prefix(name, ".#"@) && !text::has_prefix(name, "~$"@)
                && !text::has_prefix(name, ".~lock."@)
            &&& !ends_in(name, ".tmp"@) && !ends_in(name, ".temp"@) && !ends_in(name, ".swp"@)
                && !ends_in(name, ".swx"@) && !ends_in(name, ".part"@) && !ends_in(
                name,
                ".partial"@,
            ) && !ends_in(name, ".crdownload"@) && !ends_in(name, ".download"@) && !ends_in(
                name,
                ".incoming"@,
            ) && !ends_in(name, "~"@)
        },
    ensures
        !ignored(rules, path),
{
    let list = paths::parts(path);
    if list.len() > 0 && list.last() is Normal {
        suffixes_compare(list.last()->name);
    }
    assert forall|i: int| 0 <= i < list.len() implies !part_is_skipped(
        rules,
        #[trigger] list[i],
    ) by {
        assert(paths::parts(path)[i] == list[i]);
    }
}

/// The text ends in the suffix, whatever the case of its ASCII letters.
pub open spec fn ends_in(s: Seq<char>, suffix: Seq<char>) -> bool {
    suffix.len() <= s.len() && forall|i: int|
        #![trigger suffix[i]]
        0 <= i < suffix.len() ==> text::ascii_lower(s[s.len() - suffix.len() + i]) == suffix[i]
}

proof fn suffix_compares(s: Seq<char>, suffix: Seq<char>)
    ensures
        has_suffix(lowered(s), suffix) == ends_in(s, suffix),
{
    let low = lowered(s);
    if suffix.len() <= s.len() {
        let end = low.skip(low.len() - suffix.len());
        if ends_in(s, suffix) {
            assert forall|i: int| 0 <= i < suffix.len() implies end[i] == suffix[i] by {
                assert(end[i] == low[low.len() - suffix.len() + i]);
            }
            assert(end =~= suffix);
        }
        if end == suffix {
            assert forall|i: int| #![trigger suffix[i]] 0 <= i < suffix.len() implies text::ascii_lower(
                s[s.len() - suffix.len() + i],
            ) == suffix[i] by {
                assert(end[i] == low[low.len() - suffix.len() + i]);
            }
        }
    }
}

proof fn suffixes_compare(s: Seq<char>)
    ensures
        suffix_is_skipped(lowered(s)) <==> (ends_in(s, ".tmp"@) || ends_in(s, ".temp"@) || ends_in(
            s,
            ".swp"@,
        ) || ends_in(s, ".swx"@) || ends_in(s, ".part"@) || ends_in(s, ".partial"@) || ends_in(
            s,
            ".crdownload"@,
        ) || ends_in(s, ".download"@) || ends_in(s, ".incoming"@) || ends_in(s, "~"@)),
{
    suffix_compares(s, ".tmp"@);
    suffix_compares(s, ".temp"@);
    suffix_compares(s, ".swp"@);
    suffix_compares(s, ".swx"@);
    suffix_compares(s, ".part"@);
    suffix_compares(s, ".partial"@);
    suffix_compares(s, ".crdownload"@);
    suffix_compares(s, ".download"@);
    suffix_compares(s, ".incoming"@);
    suffix_compares(s, "~"@);
}

/// A scratch file is ignored wherever it lies, and so is everything in or under a
/// directory that is skipped or was named.
pub proof fn law_a_scratch_file_is_ignored(rules: Rules, path: Seq<char>)
    requires
        paths::parts(path).len() > 0,
        paths::parts(path).last() is Normal,
    ensures
        ({
            let name = paths::parts(path).last()->name;
            &&& name == ".DS_Store"@ || name == "Thumbs.db"@ || name == "desktop.ini"@ ==> ignored(
                rules,
                path,
            )
            &&& text::has_prefix(name, ".#"@) || text::has_prefix(name, "~$"@) || text::has_prefix(
                name,
                ".~lock."@,
            ) ==> ignored(rules, path)
            &&& ends_in(name, ".tmp"@) || ends_in(name, ".temp"@) || ends_in(name, ".swp"@)
                || ends_in(name, ".swx"@) || ends_in(name, ".part"@) || ends_in(name, ".partial"@)
                || ends_in(name, ".crdownload"@) || ends_in(name, ".download"@) || ends_in(
                name,
                ".incoming"@,
            ) || ends_in(name, "~"@) ==> ignored(rules, path)
        }),
        forall|i: int|
            #![trigger paths::parts(path)[i]]
            0 <= i < paths::parts(path).len() && paths::parts(path)[i] is Normal && ({
                let dir = paths::parts(path)[i]->name;
                dir == ".git"@ || dir == ".svn"@ || dir == ".hg"@ || dir == ".bzr"@ || dir
                    == "node_modules"@ || dir == "__pycache__"@ || rules.extra_dirs.contains(dir)
            }) ==> ignored(rules, path),
{
    suffixes_compare(paths::parts(path).last()->name);
    assert forall|i: int|
        #![trigger paths::parts(path)[i]]
        0 <= i < paths::parts(path).len() && paths::parts(path)[i] is Normal && ({
            let dir = paths::parts(path)[i]->name;
            dir == ".git"@ || dir == ".svn"@ || dir == ".hg"@ || dir == ".bzr"@ || dir
                == "node_modules"@ || dir == "__pycache__"@ || rules.extra_dirs.contains(dir)
        }) implies ignored(rules, path) by {
        assert(part_is_skipped(rules, paths::parts(path)[i]));
    }
}

/// Every file in the store's directory is ignored, and in every directory beneath it.
pub proof fn law_a_file_in_the_store_is_ignored(
    rules: Rules,
    store: Seq<char>,
    dir: Seq<char>,
    name: Seq<char>,
)
    requires
        rules.store_dir == Some(store),
        dir.len() > 0,
        paths::is_name(name),
        paths::parts(store).len() <= paths::parts(dir).len(),
        forall|i: int|
            #![trigger paths::parts(dir)[i]]
            0 <= i < paths::parts(store).len() ==> paths::parts(dir)[i] == paths::parts(store)[i],
    ensures
        ignored(rules, store),
        ignored(rules, dir),
        ignored(rules, dir + seq!['/'] + name),
{
    let path = dir + seq!['/'] + name;
    paths::law_a_file_has_one_component_more(dir, name);
    paths::law_what_lies_within_starts_alike(paths::parts(store), paths::parts(store));
    paths::law_what_lies_within_starts_alike(paths::parts(dir), paths::parts(store));
    assert forall|i: int|
        #![trigger paths::parts(path)[i]]
        0 <= i < paths::parts(store).len() implies paths::parts(path)[i] == paths::parts(
        store,
    )[i] by {
        assert(paths::parts(path)[i] == paths::parts(dir)[i]);
    }
    paths::law_what_lies_within_starts_alike(paths::parts(path), paths::parts(store));
}

} // verus!
