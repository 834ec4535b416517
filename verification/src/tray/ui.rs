//! The tray menu and the lines of a terminal, as text.

use vstd::prelude::*;

use crate::size;
use crate::size::human;
use crate::text;
use crate::text::{chars_of, decimal_of, same_text, string_of};

verus! {

/// How the daemon is doing.
#[derive(Debug, Clone, Copy, PartialEq, Eq, Structural)]
pub enum State {
    Starting,
    Working,
    UpToDate,
    Alone,
    Problem,
}

/// A file that was synced lately.
#[derive(Debug)]
pub struct Recent {
    pub path: String,
    /// Seconds since then; none where the clock says it has not happened yet.
    pub elapsed: Option<u64>,
}

/// What the daemon publishes about itself.
#[derive(Debug)]
pub struct Status {
    pub state: State,
    /// The state in a few words.
    pub summary: String,
    pub files: u64,
    pub bytes_on_disk: u64,
    /// Paired devices, and how many of them can be reached.
    pub peers: u64,
    pub peers_reachable: u64,
    /// The latest first.
    pub recent: Vec<Recent>,
    pub problem: Option<String>,
    /// Bytes that count against the storage allowance.
    pub used: u64,
}

/// Nothing behind one, an `s` behind any other number.
pub open spec fn plural_of(n: nat) -> Seq<char> {
    if n == 1 {
        ""@
    } else {
        "s"@
    }
}

pub fn plural(n: u64) -> (s: &'static str)
    ensures
        s@ == plural_of(n as nat),
{
    if n == 1 {
        ""
    } else {
        "s"
    }
}

/// The devices in words. "no paired devices" and "none reachable" mean different
/// things: one is a setup step, the other is a network problem.
pub open spec fn devices_text(peers: nat, reachable: nat) -> Seq<char> {
    if peers == 0 {
        "no paired devices"@
    } else if reachable == 0 {
        text::decimal(peers) + " device"@ + plural_of(peers) + " · none reachable"@
    } else if reachable == peers {
        text::decimal(peers) + " device"@ + plural_of(peers)
    } else {
        text::decimal(reachable) + " of "@ + text::decimal(peers) + " devices reachable"@
    }
}

pub fn devices(status: &Status) -> (text: String)
    ensures
        text@ == devices_text(status.peers as nat, status.peers_reachable as nat),
{
    let n: u64 = status.peers;
    let r: u64 = status.peers_reachable;
    if n == 0 {
        "no paired devices".to_owned()
    } else if r == 0 {
        decimal_of(n).concat(" device").concat(plural(n)).concat(" · none reachable")
    } else if r == n {
        decimal_of(n).concat(" device").concat(plural(n))
    } else {
        decimal_of(r).concat(" of ").concat(&decimal_of(n)).concat(" devices reachable")
    }
}

/// A path short enough for a menu, keeping the end.
pub open spec fn shortened(path: Seq<char>) -> Seq<char> {
    if path.len() <= 32 {
        path
    } else {
        "…"@ + path.skip(path.len() - 31)
    }
}

/// A path short enough for a menu, keeping the end.
///
/// The end, because that is where the filename is: the start of a long path tells
/// you nothing about which file arrived.
pub fn shorten(path: &str) -> (short: String)
    ensures
        short@ == shortened(path@),
{
    let chars: Vec<char> = chars_of(path);
    let n: usize = chars.len();
    if n <= 32 {
        return path.to_owned();
    }
    assert(chars@.subrange(n - 31, n as int) =~= path@.skip(n - 31));
    "…".to_owned().concat(&string_of(chars.as_slice(), n - 31, n))
}

/// How long ago something was.
pub open spec fn ago_text(elapsed: Option<u64>) -> Seq<char> {
    match elapsed {
        None => "just now"@,
        Some(s) => if s < 60 {
            "just now"@
        } else if s < 3600 {
            text::decimal((s / 60) as nat) + "m ago"@
        } else if s < 86400 {
            text::decimal((s / 3600) as nat) + "h ago"@
        } else {
            text::decimal((s / 86400) as nat) + "d ago"@
        },
    }
}

pub fn ago(elapsed: Option<u64>) -> (text: String)
    ensures
        text@ == ago_text(elapsed),
{
    match elapsed {
        None => "just now".to_owned(),
        Some(s) => if s < 60 {
            "just now".to_owned()
        } else if s < 3600 {
            decimal_of(s / 60).concat("m ago")
        } else if s < 86400 {
            decimal_of(s / 3600).concat("h ago")
        } else {
            decimal_of(s / 86400).concat("d ago")
        },
    }
}

/// How many files there are.
pub open spec fn files_text(files: nat) -> Seq<char> {
    text::decimal(files) + " file"@ + plural_of(files)
}

fn files_of(files: u64) -> (text: String)
    ensures
        text@ == files_text(files as nat),
{
    decimal_of(files).concat(" file").concat(plural(files))
}

/// Files, what they take, and the devices.
pub open spec fn detail_text(status: Status) -> Seq<char> {
    files_text(status.files as nat) + " · "@ + size::readable(status.bytes_on_disk as nat) + " · "@
        + devices_text(status.peers as nat, status.peers_reachable as nat)
}

pub fn detail(status: &Status) -> (text: String)
    ensures
        text@ == detail_text(*status),
{
    files_of(status.files).concat(" · ").concat(&human(status.bytes_on_disk)).concat(
        " · ",
    ).concat(&devices(status))
}

/// What is shown when the pointer rests on the icon.
pub fn tooltip(status: &Status) -> (text: String)
    ensures
        text@ == "qurb — "@ + status.summary@ + "\n"@ + devices_text(
            status.peers as nat,
            status.peers_reachable as nat,
        ),
{
    "qurb — ".to_owned().concat(status.summary.as_str()).concat("\n").concat(&devices(status))
}

/// One entry of the menu.
#[derive(Debug, PartialEq, Eq)]
pub enum Item {
    /// A line that cannot be clicked.
    Text(String),
    Separator,
    OpenFolder,
    Quit,
}

/// One entry of the menu, as values.
pub enum Entry {
    Text { text: Seq<char> },
    Separator,
    OpenFolder,
    Quit,
}

impl View for Item {
    type V = Entry;

    open spec fn view(&self) -> Entry {
        match *self {
            Item::Text(text) => Entry::Text { text: text@ },
            Item::Separator => Entry::Separator,
            Item::OpenFolder => Entry::OpenFolder,
            Item::Quit => Entry::Quit,
        }
    }
}

pub open spec fn item_views(s: Seq<Item>) -> Seq<Entry> {
    Seq::new(s.len(), |i: int| s[i]@)
}

/// How many recent files are shown.
pub open spec fn shown(recent: Seq<Recent>) -> int {
    if recent.len() <= 5 {
        recent.len() as int
    } else {
        5
    }
}

/// The menu line for one recent file.
pub open spec fn recent_entry(r: Recent) -> Entry {
    Entry::Text { text: "    "@ + shortened(r.path@) + "   "@ + ago_text(r.elapsed) }
}

/// The part of the menu that lists recent files, if there are any.
pub open spec fn recent_entries(recent: Seq<Recent>) -> Seq<Entry> {
    if recent.len() == 0 {
        Seq::empty()
    } else {
        seq![Entry::Separator, Entry::Text { text: "Recently synced"@ }] + Seq::new(
            shown(recent) as nat,
            |i: int| recent_entry(recent[i]),
        )
    }
}

/// The part of the menu that tells of a problem, if there is one.
pub open spec fn problem_entries(problem: Option<String>) -> Seq<Entry> {
    match problem {
        Some(p) => seq![Entry::Separator, Entry::Text { text: "⚠ "@ + p@ }],
        None => Seq::empty(),
    }
}

/// The menu: a headline, the figures, what was synced lately, what is wrong, and
/// what can be done.
pub open spec fn menu_entries(status: Status) -> Seq<Entry> {
    seq![
        Entry::Text { text: "qurb — "@ + status.summary@ },
        Entry::Text { text: detail_text(status) },
    ] + recent_entries(status.recent@) + problem_entries(status.problem) + seq![
        Entry::Separator,
        Entry::OpenFolder,
        Entry::Quit,
    ]
}

/// The menu.
pub fn menu(status: &Status) -> (items: Vec<Item>)
    ensures
        item_views(items@) == menu_entries(*status),
{
    let mut items: Vec<Item> = Vec::new();
    // The headline, not clickable: a menu that opens to tell you nothing is a
    // menu nobody opens twice.
    items.push(Item::Text("qurb — ".to_owned().concat(status.summary.as_str())));
    items.push(Item::Text(detail(status)));
    let ghost head = item_views(items@);
    assert(head =~= seq![
        Entry::Text { text: "qurb — "@ + status.summary@ },
        Entry::Text { text: detail_text(*status) },
    ]);
    add_recent(&mut items, &status.recent);
    let ghost listed = item_views(items@);
    match &status.problem {
        Some(problem) => {
            items.push(Item::Separator);
            items.push(Item::Text("⚠ ".to_owned().concat(problem.as_str())));
        },
        None => {},
    }
    let ghost told = item_views(items@);
    assert(told =~= listed + problem_entries(status.problem));
    items.push(Item::Separator);
    items.push(Item::OpenFolder);
    items.push(Item::Quit);
    assert(item_views(items@) =~= told + seq![Entry::Separator, Entry::OpenFolder, Entry::Quit]);
    items
}

fn add_recent(items: &mut Vec<Item>, recent: &Vec<Recent>)
    ensures
        item_views(final(items)@) == item_views(old(items)@) + recent_entries(recent@),
{
    let ghost before = item_views(items@);
    if recent.len() == 0 {
        assert(before + recent_entries(recent@) =~= before);
        return;
    }
    items.push(Item::Separator);
    items.push(Item::Text("Recently synced".to_owned()));
    let ghost title = seq![Entry::Separator, Entry::Text { text: "Recently synced"@ }];
    let ghost all = Seq::new(shown(recent@) as nat, |i: int| recent_entry(recent@[i]));
    let mut i: usize = 0;
    assert(item_views(items@) =~= before + (title + all.take(0)));
    while i < recent.len() && i < 5
        invariant
            i <= shown(recent@),
            all == Seq::new(shown(recent@) as nat, |i: int| recent_entry(recent@[i])),
            item_views(items@) == before + (title + all.take(i as int)),
        decreases recent@.len() - i,
    {
        let ghost so_far = item_views(items@);
        let ghost old_items = items@;
        let line: String = "    ".to_owned().concat(&shorten(recent[i].path.as_str())).concat(
            "   ",
        ).concat(&ago(recent[i].elapsed));
        items.push(Item::Text(line));
        proof {
            assert(items@ == old_items.push(Item::Text(line)));
            assert(all[i as int] == recent_entry(recent@[i as int]));
            assert(item_views(items@) =~= so_far.push(recent_entry(recent@[i as int])));
            assert(all.take(i + 1) =~= all.take(i as int).push(all[i as int]));
            assert(before + (title + all.take(i + 1)) =~= (before + (title + all.take(
                i as int,
            ))).push(all[i as int]));
        }
        i += 1;
    }
    assert(all.take(i as int) =~= all);
    assert(recent_entries(recent@) =~= title + all);
}

/// The line that a terminal shows.
pub open spec fn line_text(status: Status) -> Seq<char> {
    "qurb: "@ + status.summary@ + " — "@ + files_text(status.files as nat) + ", "@ + devices_text(
        status.peers as nat,
        status.peers_reachable as nat,
    )
}

/// The line to print, if it differs from the one that was printed last.
///
/// Compared as the rendered line rather than by state: a file count that grows
/// while the state stays the same is shown too, and nothing repeats itself.
pub fn next_line(status: &Status, last: &str) -> (line: Option<String>)
    ensures
        match line {
            Some(l) => l@ == line_text(*status) && l@ != last@,
            None => line_text(*status) == last@,
        },
{
    let line: String = "qurb: ".to_owned().concat(status.summary.as_str()).concat(" — ").concat(
        &files_of(status.files),
    ).concat(", ").concat(&devices(status));
    if same_text(line.as_str(), last) {
        None
    } else {
        Some(line)
    }
}

/// Why it all stopped: the last problem, if there was one.
pub fn stopped(status: &Status) -> (why: String)
    ensures
        why@ == (match status.problem {
            Some(p) => p@,
            None => "the daemon stopped"@,
        }),
{
    match &status.problem {
        Some(problem) => problem.clone(),
        None => "the daemon stopped".to_owned(),
    }
}

/// Which directory to sync: the one given, or the one in the home directory if it
/// is set up. Running one program and then another must not silently address two
/// different stores.
pub fn directory(given: Option<&str>, home: Option<&str>, set_up: bool) -> (result: Result<
    String,
    String,
>)
    ensures
        match given {
            Some(dir) => result matches Ok(r) && r@ == dir@,
            None => match home {
                None => result matches Err(e) && e@ == "no HOME set, and no directory given"@,
                Some(h) => if set_up {
                    result matches Ok(r) && r@ == text::path_joined(h@, "qurb"@)
                } else {
                    result matches Err(e) && e@ == "no directory given, and "@ + text::path_joined(
                        h@,
                        "qurb"@,
                    ) + " is not set up.\nPass one: qurb-tray <dir>"@
                },
            },
        },
{
    match given {
        Some(dir) => Ok(dir.to_owned()),
        None => match home {
            None => Err("no HOME set, and no directory given".to_owned()),
            Some(h) => {
                let default: String = text::path_under(h, "qurb");
                if set_up {
                    Ok(default)
                } else {
                    Err(
                        "no directory given, and ".to_owned().concat(default.as_str()).concat(
                            " is not set up.\nPass one: qurb-tray <dir>",
                        ),
                    )
                }
            },
        },
    }
}

/// A shortened path fits a menu, and keeps its end.
pub proof fn law_a_shortened_path_fits(path: Seq<char>)
    ensures
        shortened(path).len() <= 32,
        path.len() > 32 ==> shortened(path).skip(1) == path.skip(path.len() - 31),
        path.len() <= 32 ==> shortened(path) == path,
{
    reveal_strlit("…");
    if path.len() > 32 {
        assert("…"@.len() == 1);
        assert(shortened(path).skip(1) =~= path.skip(path.len() - 31));
    }
}

/// How long ago something was is told in whole units, of the largest that has passed
/// at least once: at least so many have passed, and not one more.
pub proof fn law_elapsed_time_is_told_in_whole_units(s: u64)
    ensures
        s < 60 ==> ago_text(Some(s)) == "just now"@,
        60 <= s < 3600 ==> exists|n: nat| #[trigger]
            text::decimal(n) + "m ago"@ == ago_text(Some(s)) && n * 60 <= s < (n + 1) * 60,
        3600 <= s < 86400 ==> exists|n: nat| #[trigger]
            text::decimal(n) + "h ago"@ == ago_text(Some(s)) && n * 3600 <= s < (n + 1) * 3600,
        86400 <= s ==> exists|n: nat| #[trigger]
            text::decimal(n) + "d ago"@ == ago_text(Some(s)) && n * 86400 <= s < (n + 1) * 86400,
        ago_text(None) == "just now"@,
{
    let (m, h, d) = ((s / 60) as nat, (s / 3600) as nat, (s / 86400) as nat);
    assert(m * 60 <= s < (m + 1) * 60);
    assert(h * 3600 <= s < (h + 1) * 3600);
    assert(d * 86400 <= s < (d + 1) * 86400);
    if 60 <= s < 3600 {
        assert(text::decimal(m) + "m ago"@ == ago_text(Some(s)));
    } else if 3600 <= s < 86400 {
        assert(text::decimal(h) + "h ago"@ == ago_text(Some(s)));
    } else if 86400 <= s {
        assert(text::decimal(d) + "d ago"@ == ago_text(Some(s)));
    }
}

/// The menu says what the device is doing, then the figures; then, where there are
/// any, the latest five paths at most, in the order in which they were given; then a
/// problem, where there is one; and ends with opening the folder and quitting.
pub proof fn law_the_menu_has_its_parts_in_order(status: Status)
    ensures
        ({
            let menu = menu_entries(status);
            let n = menu.len() as int;
            let k = status.recent@.len() as int;
            let shown = if k < 5 {
                k
            } else {
                5
            };
            let recents = if k == 0 {
                0
            } else {
                shown + 2
            };
            &&& n == 5 + recents + if status.problem is Some {
                2int
            } else {
                0
            }
            &&& menu[0] == Entry::Text { text: "qurb — "@ + status.summary@ }
            &&& menu[1] == Entry::Text { text: detail_text(status) }
            &&& k > 0 ==> menu[2] is Separator && menu[3] == Entry::Text {
                text: "Recently synced"@,
            }
            &&& forall|i: int|
                #![trigger status.recent@[i]]
                0 <= i < shown ==> menu[4 + i] == Entry::Text {
                    text: "    "@ + shortened(status.recent@[i].path@) + "   "@ + ago_text(
                        status.recent@[i].elapsed,
                    ),
                }
            &&& status.problem matches Some(p) ==> menu[n - 4] == Entry::Text {
                text: "⚠ "@ + p@,
            } && menu[n - 5] is Separator
            &&& menu[n - 3] is Separator
            &&& menu[n - 2] is OpenFolder
            &&& menu[n - 1] is Quit
        }),
{
}

/// What is said of the other devices tells how many are paired, and how many of them
/// can be reached where that is not all of them.
pub proof fn law_devices_are_told_by_number(peers: nat, reachable: nat)
    requires
        reachable <= peers,
    ensures
        peers == 0 ==> devices_text(peers, reachable) == "no paired devices"@,
        peers == 1 && reachable == 1 ==> devices_text(peers, reachable) == text::decimal(1)
            + " device"@ + ""@,
        peers > 1 && reachable == peers ==> devices_text(peers, reachable) == text::decimal(peers)
            + " device"@ + "s"@,
        peers > 0 && reachable == 0 ==> devices_text(peers, reachable) == devices_text(
            peers,
            peers,
        ) + " · none reachable"@,
        0 < reachable < peers ==> devices_text(peers, reachable) == text::decimal(reachable)
            + " of "@ + text::decimal(peers) + " devices reachable"@,
{
}

/// The figures are the number of files, what they take, and the other devices; a line
/// of output has what the device is doing, the number of files and the devices.
pub proof fn law_the_figures_are_told(status: Status)
    ensures
        ({
            let files = text::decimal(status.files as nat) + " file"@ + if status.files == 1 {
                ""@
            } else {
                "s"@
            };
            let devices = devices_text(status.peers as nat, status.peers_reachable as nat);
            &&& detail_text(status) == files + " · "@ + size::readable(status.bytes_on_disk as nat)
                + " · "@ + devices
            &&& line_text(status) == "qurb: "@ + status.summary@ + " — "@ + files + ", "@ + devices
        }),
{
}

} // verus!
