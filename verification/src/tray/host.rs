//! Whether anything would actually display a tray icon.
//!
//! Creating one succeeds on a desktop that has no tray. The icon is simply never
//! drawn, which means a background program that is running, invisible, and
//! unquittable. Asking first is the only way to know: a host registers
//! `org.kde.StatusNotifierWatcher` on the session bus.

use vstd::prelude::*;

use crate::text;
use crate::text::{chars_of, starts_with};

verus! {

/// Whether a name is that of a tray's host. Matched by prefix because some
/// desktops register it under a suffixed name.
pub open spec fn is_host(name: Seq<char>) -> bool {
    text::has_prefix(name, "org.kde.StatusNotifierWatcher"@)
}

/// Whether a tray icon would be visible if we made one, given the names on the
/// session bus.
pub fn available(names: &Vec<String>) -> (result: Result<(), String>)
    ensures
        match result {
            Ok(_) => exists|i: int| 0 <= i < names@.len() && is_host(#[trigger] names@[i]@),
            Err(why) => {
                &&& why@ == "no StatusNotifierWatcher on the session bus"@
                &&& forall|i: int| 0 <= i < names@.len() ==> !is_host(#[trigger] names@[i]@)
            },
        },
{
    let mut i: usize = 0;
    while i < names.len()
        invariant
            i <= names@.len(),
            forall|j: int| 0 <= j < i ==> !is_host(#[trigger] names@[j]@),
        decreases names@.len() - i,
    {
        let chars: Vec<char> = chars_of(names[i].as_str());
        assert(chars@.skip(0) =~= names@[i as int]@);
        if starts_with(chars.as_slice(), 0, "org.kde.StatusNotifierWatcher") {
            assert(is_host(names@[i as int]@));
            return Ok(());
        }
        i += 1;
    }
    Err("no StatusNotifierWatcher on the session bus".to_owned())
}

/// An ASCII letter in upper case.
pub open spec fn upper(c: char) -> char {
    if 'a' <= c && c <= 'z' {
        (c as int - 32) as char
    } else {
        c
    }
}

/// Whether `word` stands in the text somewhere, ASCII letters of the text taken
/// in upper case.
pub open spec fn mentions(s: Seq<char>, word: Seq<char>) -> bool {
    exists|at: int| #[trigger] stands_at(s, word, at)
}

pub open spec fn stands_at(s: Seq<char>, word: Seq<char>, at: int) -> bool {
    &&& 0 <= at
    &&& at + word.len() <= s.len()
    &&& forall|k: int| 0 <= k < word.len() ==> upper(s[at + k]) == #[trigger] word[k]
}

fn upper_of(c: char) -> (u: char)
    ensures
        u == upper(c),
{
    if 'a' <= c && c <= 'z' {
        ((c as u8) - 32) as char
    } else {
        c
    }
}

fn is_mentioned(s: &str, word: &str) -> (yes: bool)
    ensures
        yes == mentions(s@, word@),
{
    let chars: Vec<char> = chars_of(s);
    let w: Vec<char> = chars_of(word);
    let len: usize = chars.len();
    let n: usize = w.len();
    if n > len {
        assert forall|at: int| !#[trigger] stands_at(s@, word@, at) by {}
        return false;
    }
    let mut at: usize = 0;
    while at <= len - n
        invariant
            chars@ == s@,
            w@ == word@,
            len == s@.len(),
            n == word@.len(),
            n <= len,
            at <= len - n + 1,
            forall|a: int| a < at ==> !#[trigger] stands_at(s@, word@, a),
        decreases len + 1 - at,
    {
        let mut k: usize = 0;
        while k < n && upper_of(chars[at + k]) == w[k]
            invariant
                chars@ == s@,
                w@ == word@,
                n == word@.len(),
                at + n <= len,
                len == s@.len(),
                k <= n,
                forall|j: int| 0 <= j < k ==> upper(s@[at + j]) == #[trigger] word@[j],
            decreases n - k,
        {
            k += 1;
        }
        if k == n {
            assert(stands_at(s@, word@, at as int));
            return true;
        }
        assert(upper(s@[at + k]) != word@[k as int]);
        if at == len - n {
            assert forall|a: int| !#[trigger] stands_at(s@, word@, a) by {}
            return false;
        }
        at += 1;
    }
    false
}

/// Advice for a desktop with no tray, given what it calls itself.
pub fn advice(desktop: &str) -> (text: &'static str)
    ensures
        text@ == if mentions(desktop@, "GNOME"@) {
            "  GNOME removed the system tray. To get one back, install the\n  \"AppIndicator and KStatusNotifierItem Support\" extension from\n  https://extensions.gnome.org and log out and back in."@
        } else {
            "  Nothing on this desktop is offering to display tray icons.\n  On most desktops that means the panel's system tray or\n  notification area is switched off."@
        },
{
    if is_mentioned(desktop, "GNOME") {
        "  GNOME removed the system tray. To get one back, install the\n  \"AppIndicator and KStatusNotifierItem Support\" extension from\n  https://extensions.gnome.org and log out and back in."
    } else {
        "  Nothing on this desktop is offering to display tray icons.\n  On most desktops that means the panel's system tray or\n  notification area is switched off."
    }
}

/// A word is found in a text whatever the case of the text's ASCII letters, wherever
/// it stands in it.
pub proof fn law_a_word_is_found_in_any_case(
    before: Seq<char>,
    found: Seq<char>,
    behind: Seq<char>,
    word: Seq<char>,
)
    requires
        found.len() == word.len(),
        forall|k: int|
            0 <= k < word.len() ==> #[trigger] word[k] == found[k] || ('A' <= word[k] <= 'Z'
                && found[k] == text::ascii_lower(word[k])),
        forall|k: int| 0 <= k < word.len() ==> !('a' <= #[trigger] word[k] <= 'z'),
    ensures
        mentions(before + found + behind, word),
{
    let s = before + found + behind;
    let at = before.len() as int;
    assert forall|k: int| 0 <= k < word.len() implies upper(s[at + k]) == #[trigger] word[k] by {
        assert(s[at + k] == found[k]);
        raised_again(word[k]);
    }
    assert(stands_at(s, word, at));
}

proof fn raised_again(c: char)
    ensures
        'A' <= c <= 'Z' ==> upper(text::ascii_lower(c)) == c,
{
}

} // verus!
