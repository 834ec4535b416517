//! The lines of the status window, for desktops that cannot show a tray icon.
//!
//! Every line answers a question people actually ask: is it working, how much is
//! here, can it reach my devices.

use vstd::prelude::*;

use super::ui;
use super::ui::{ago, shorten, Recent};
use crate::size;
use crate::size::human;

verus! {

/// One line per recent file, none behind the last.
pub open spec fn recent_lines(recent: Seq<Recent>, n: int) -> Seq<char>
    decreases n,
{
    if n <= 0 {
        Seq::empty()
    } else {
        let r = recent[n - 1];
        let line = ui::shortened(r.path@) + "   "@ + ui::ago_text(r.elapsed);
        if n == 1 {
            line
        } else {
            recent_lines(recent, n - 1) + "\n"@ + line
        }
    }
}

/// What was synced lately.
pub fn recent_text(recent: &Vec<Recent>) -> (text: String)
    ensures
        text@ == if recent@.len() == 0 {
            "Nothing yet."@
        } else {
            recent_lines(recent@, ui::shown(recent@))
        },
{
    if recent.len() == 0 {
        return "Nothing yet.".to_owned();
    }
    let mut out: String = String::new();
    let mut i: usize = 0;
    assert(out@ =~= recent_lines(recent@, 0));
    while i < recent.len() && i < 5
        invariant
            i <= ui::shown(recent@),
            out@ == recent_lines(recent@, i as int),
        decreases recent@.len() - i,
    {
        let line: String = shorten(recent[i].path.as_str()).concat("   ").concat(
            &ago(recent[i].elapsed),
        );
        out = if i == 0 {
            line
        } else {
            out.concat("\n").concat(line.as_str())
        };
        i += 1;
    }
    out
}

/// What the window says about the storage allowance.
pub struct Allowance {
    /// On the bar that shows how much is used.
    pub bar: String,
    /// Beneath it.
    pub chosen: String,
}

/// What the window says about the storage allowance. No limit is a limit of
/// zero.
pub fn allowance(limit: u64, used: u64) -> (said: Allowance)
    ensures
        if limit == 0 {
            &&& said.bar@ == size::readable(used as nat) + " used"@
            &&& said.chosen@ == "No limit — qurb will use what it needs."@
        } else {
            &&& said.bar@ == size::readable(used as nat) + " of "@ + size::readable(limit as nat)
            &&& said.chosen@ == if used > limit {
                "Over by "@ + size::readable((used - limit) as nat)
                    + ". qurb keeps files no other device has, even to stay under."@
            } else {
                size::readable((limit - used) as nat) + " free within the allowance."@
            }
        },
{
    if limit == 0 {
        return Allowance {
            bar: human(used).concat(" used"),
            chosen: "No limit — qurb will use what it needs.".to_owned(),
        };
    }
    let bar: String = human(used).concat(" of ").concat(&human(limit));
    let chosen: String = if used > limit {
        "Over by ".to_owned().concat(&human(used - limit)).concat(
            ". qurb keeps files no other device has, even to stay under.",
        )
    } else {
        human(limit - used).concat(" free within the allowance.")
    };
    Allowance { bar, chosen }
}

/// The window shows one line for each of the latest paths, in their order: the path,
/// shortened, and how long ago it was.
pub proof fn law_each_recent_path_has_a_line(recent: Seq<Recent>, n: int)
    requires
        1 <= n < recent.len(),
    ensures
        recent_lines(recent, 1) == ui::shortened(recent[0].path@) + "   "@ + ui::ago_text(
            recent[0].elapsed,
        ),
        recent_lines(recent, n + 1) == recent_lines(recent, n) + "\n"@ + (ui::shortened(
            recent[n].path@,
        ) + "   "@ + ui::ago_text(recent[n].elapsed)),
{
}

} // verus!
