//! Deciding between two versions of the same path.
//!
//! The rule in one sentence: **if one version has seen the other, the later one
//! wins; otherwise keep both.**
//!
//! What is deliberately *not* here is any use of wall-clock time. Device clocks
//! disagree, and ordering by timestamp lets a device with a wrong clock win or
//! lose every conflict systematically. Timestamps appear only in conflict
//! filenames, where they help a person identify a version.

use vstd::prelude::*;

use super::calendar;
use super::calendar::format_utc;
use super::clock;
use super::clock::{Causality, Counts, VersionVector};
use super::version::{Content, FileVersion, Held, Version};
use crate::order;
use crate::order::{bytes_before, same_bytes};
use crate::text;
use crate::text::{chars_of, last_position, string_of};

verus! {

/// Which of the two versions a decision refers to.
#[derive(Debug, Clone, Copy, PartialEq, Eq, Structural)]
pub enum Side {
    Local,
    Remote,
}

#[derive(Debug, Clone, PartialEq, Eq)]
pub enum Outcome {
    /// Both sides already hold the same version. Nothing to do at all.
    InSync,
    /// Both sides hold the same *content*, but reached it independently: the
    /// same file copied onto each device, or deleted on each.
    ///
    /// No data needs to move, but the merged history must still be recorded.
    /// Leaving the two versions concurrent would mean the next edit on either
    /// side is concurrent with the other's history and raises a conflict over
    /// content that never actually disagreed.
    Merge,
    /// The remote version supersedes ours.
    TakeRemote,
    /// Ours supersedes the remote's.
    KeepLocal,
    /// Concurrent edits to different content. Both are kept.
    Conflict {
        /// The side that keeps the original path.
        keeps_path: Side,
        /// Where the other side is written instead.
        renamed_to: String,
    },
    /// One side deleted while the other edited, without either seeing the
    /// other. The edit survives and the deletion is dropped.
    Resurrect {
        /// The side holding the surviving content.
        survivor: Side,
    },
}

/// An outcome, as values.
pub enum Verdict {
    InSync,
    Merge,
    TakeRemote,
    KeepLocal,
    Conflict { keeps_path: Side, renamed_to: Seq<char> },
    Resurrect { survivor: Side },
}

impl View for Outcome {
    type V = Verdict;

    open spec fn view(&self) -> Verdict {
        match *self {
            Outcome::InSync => Verdict::InSync,
            Outcome::Merge => Verdict::Merge,
            Outcome::TakeRemote => Verdict::TakeRemote,
            Outcome::KeepLocal => Verdict::KeepLocal,
            Outcome::Conflict { keeps_path, renamed_to } => Verdict::Conflict {
                keeps_path,
                renamed_to: renamed_to@,
            },
            Outcome::Resurrect { survivor } => Verdict::Resurrect { survivor },
        }
    }
}

#[derive(Debug, Clone, PartialEq, Eq)]
pub struct Resolution {
    pub outcome: Outcome,
    /// The vector the resolved state should carry.
    ///
    /// For concurrent cases this is the merge of both sides, which by
    /// construction dominates each of them, so the resolution is not itself
    /// concurrent with what it resolved, and the conflict does not recur.
    pub vector: VersionVector,
}

/// Where the name of a file starts within its path.
pub open spec fn name_start(path: Seq<char>) -> int {
    text::last_of(path, '/') + 1
}

/// Where the extension of a file starts within its path, its dot counted; the
/// end of the path where it has none. A leading dot is part of the name, not an
/// extension separator.
pub open spec fn extension_start(path: Seq<char>) -> int {
    let after_first = name_start(path) + 1;
    let dot = text::last_of(path.skip(after_first), '.');
    if dot < 0 {
        path.len() as int
    } else {
        after_first + dot
    }
}

/// A path under which a conflicting version can be renamed: it names a file.
pub open spec fn renamable(path: Seq<char>) -> bool {
    name_start(path) < path.len()
}

/// `name.conflict-<device>-<when>.ext`
pub open spec fn conflict_name(version: Version) -> Seq<char> {
    let cut = extension_start(version.path);
    version.path.take(cut) + ".conflict-"@ + text::hex(version.modified_by.take(4)) + "-"@
        + calendar::utc(version.modified_at as int) + version.path.skip(cut)
}

/// Which of two concurrent edits keeps the path: the one with the greater
/// content hash, and the larger one of two with the same hash.
pub open spec fn path_keeper(local: Version, remote: Version) -> Side {
    match (local.content, remote.content) {
        (
            Held::File { hash: l, size: m },
            Held::File { hash: r, size: n },
        ) => if order::bytes_precede(r, l) || (r == l && n < m) {
            Side::Local
        } else {
            Side::Remote
        },
        _ => Side::Remote,
    }
}

/// Two different edits, made without seeing each other.
pub open spec fn in_conflict(local: Version, remote: Version) -> bool {
    &&& clock::causality(local.vector, remote.vector) == Causality::Concurrent
    &&& local.content is File
    &&& remote.content is File
    &&& local.content != remote.content
}

/// What is decided between a local and a remote version of one path.
pub open spec fn verdict(local: Version, remote: Version) -> Verdict {
    match clock::causality(local.vector, remote.vector) {
        Causality::Equal => Verdict::InSync,
        Causality::After => Verdict::KeepLocal,
        Causality::Before => Verdict::TakeRemote,
        Causality::Concurrent => if local.content == remote.content {
            Verdict::Merge
        } else if local.content is Deleted {
            Verdict::Resurrect { survivor: Side::Remote }
        } else if remote.content is Deleted {
            Verdict::Resurrect { survivor: Side::Local }
        } else {
            let keeps_path = path_keeper(local, remote);
            let loser = if keeps_path == Side::Local {
                remote
            } else {
                local
            };
            Verdict::Conflict { keeps_path, renamed_to: conflict_name(loser) }
        },
    }
}

/// The vector that the resolved state carries.
pub open spec fn settled_vector(local: Version, remote: Version) -> Counts {
    match clock::causality(local.vector, remote.vector) {
        Causality::Before => remote.vector,
        Causality::Concurrent => clock::join(local.vector, remote.vector),
        _ => local.vector,
    }
}

/// Decide between a local and a remote version of the same path.
pub fn resolve(local: &FileVersion, remote: &FileVersion) -> (resolution: Resolution)
    requires
        local@.path == remote@.path,
        in_conflict(local@, remote@) ==> renamable(local@.path),
    ensures
        resolution.outcome@ == verdict(local@, remote@),
        resolution.vector@ == settled_vector(local@, remote@),
{
    match local.vector.compare(&remote.vector) {
        Causality::Equal => Resolution {
            outcome: Outcome::InSync,
            vector: local.vector.clone(),
        },
        Causality::After => Resolution {
            outcome: Outcome::KeepLocal,
            vector: local.vector.clone(),
        },
        Causality::Before => Resolution {
            outcome: Outcome::TakeRemote,
            vector: remote.vector.clone(),
        },
        Causality::Concurrent => resolve_concurrent(local, remote),
    }
}

fn resolve_concurrent(local: &FileVersion, remote: &FileVersion) -> (resolution: Resolution)
    requires
        clock::causality(local@.vector, remote@.vector) == Causality::Concurrent,
        local@.path == remote@.path,
        in_conflict(local@, remote@) ==> renamable(local@.path),
    ensures
        resolution.outcome@ == verdict(local@, remote@),
        resolution.vector@ == settled_vector(local@, remote@),
{
    let vector: VersionVector = local.vector.merged(&remote.vector);

    // Two devices independently reaching the same bytes is not a conflict, even
    // though neither saw the other. Copying the same file onto both devices
    // does this, and so does deleting it on both.
    if local.same_content(remote) {
        return Resolution { outcome: Outcome::Merge, vector };
    }
    // Delete against edit. The edit wins: a deletion stays recoverable in the
    // retention window, an overwritten edit does not.
    if local.is_deleted() {
        return Resolution { outcome: Outcome::Resurrect { survivor: Side::Remote }, vector };
    }
    if remote.is_deleted() {
        return Resolution { outcome: Outcome::Resurrect { survivor: Side::Local }, vector };
    }
    // Two different edits. Both are kept; only the question of which keeps the
    // original filename is decided automatically.
    let keeps_path: Side = if wins_path(local, remote) {
        Side::Local
    } else {
        Side::Remote
    };
    let loser: &FileVersion = match keeps_path {
        Side::Local => remote,
        Side::Remote => local,
    };
    Resolution {
        outcome: Outcome::Conflict { keeps_path, renamed_to: conflict_path(loser) },
        vector,
    }
}

/// Which concurrent edit keeps the original filename.
///
/// Decided by content hash, which is arbitrary but has the two properties that
/// matter: every device computes the same answer without coordinating, and the
/// answer does not depend on anything unrelated to these two versions. Two
/// records that give one hash two sizes are told apart by the size, so that the
/// answer is the same on both sides even then.
///
/// It is emphatically *not* a judgement about which edit the user wanted, which
/// is why the loser is kept rather than discarded.
fn wins_path(local: &FileVersion, remote: &FileVersion) -> (wins: bool)
    ensures
        wins == (path_keeper(local@, remote@) == Side::Local),
{
    match (&local.content, &remote.content) {
        (
            Content::File { hash: l, size: m },
            Content::File { hash: r, size: n },
        ) => bytes_before(r, l) || (same_bytes(r, l) && *n < *m),
        _ => false,
    }
}

/// Where a losing version is written: `name.conflict-<device>-<when>.ext`.
///
/// The suffix goes before the final extension so the file still opens in the
/// application it belongs to. `report.docx` becomes
/// `report.conflict-a1b2c3d4-2026-09-09-143022.docx`, not
/// `report.docx.conflict-...`, which most systems would treat as having no known
/// type at all.
pub fn conflict_path(version: &FileVersion) -> (path: String)
    requires
        renamable(version@.path),
    ensures
        path@ == conflict_name(version@),
{
    let chars: Vec<char> = chars_of(&version.path);
    let len: usize = chars.len();
    let name: usize = match last_position(&chars, 0, '/') {
        Some(i) => i + 1,
        None => 0,
    };
    proof {
        assert(version@.path.skip(0) =~= version@.path);
    }
    // A leading dot is part of the name, not an extension separator: `.bashrc`
    // has no extension.
    let cut: usize = match last_position(&chars, name + 1, '.') {
        Some(i) => i,
        None => len,
    };
    proof {
        assert(version@.path.subrange(0, cut as int) =~= version@.path.take(cut as int));
        assert(version@.path.subrange(cut as int, len as int) =~= version@.path.skip(cut as int));
    }
    string_of(&chars, 0, cut).concat(".conflict-").concat(&version.modified_by.short()).concat(
        "-",
    ).concat(&format_utc(version.modified_at)).concat(&string_of(&chars, cut, len))
}

/// The other side.
pub open spec fn opposite(side: Side) -> Side {
    match side {
        Side::Local => Side::Remote,
        Side::Remote => Side::Local,
    }
}

/// The same verdict, told from the other side.
pub open spec fn mirrored(v: Verdict) -> Verdict {
    match v {
        Verdict::InSync => Verdict::InSync,
        Verdict::Merge => Verdict::Merge,
        Verdict::TakeRemote => Verdict::KeepLocal,
        Verdict::KeepLocal => Verdict::TakeRemote,
        Verdict::Conflict { keeps_path, renamed_to } => Verdict::Conflict {
            keeps_path: opposite(keeps_path),
            renamed_to,
        },
        Verdict::Resurrect { survivor } => Verdict::Resurrect { survivor: opposite(survivor) },
    }
}

/// Both devices reach the same decision, each without asking the other.
pub proof fn law_decision_does_not_depend_on_who_asks(local: Version, remote: Version)
    requires
        clock::valid(local.vector),
        clock::valid(remote.vector),
    ensures
        verdict(remote, local) == mirrored(verdict(local, remote)),
        settled_vector(remote, local) == settled_vector(local, remote),
{
    let c = clock::causality(local.vector, remote.vector);
    clock::law_comparison_is_antisymmetric(local.vector, remote.vector);
    clock::law_merge_is_a_join(local.vector, remote.vector, local.vector);
    clock::law_equal_is_identical(local.vector, remote.vector);
    if let (Held::File { hash: l, .. }, Held::File { hash: r, .. }) = (
        local.content,
        remote.content,
    ) {
        order::bytes_order(l, r, l);
    }
}

/// What was resolved has seen both sides, so that the same conflict does not
/// come up again.
pub proof fn law_resolution_dominates_both_sides(local: Version, remote: Version)
    ensures
        clock::known_to(local.vector, settled_vector(local, remote)),
        clock::known_to(remote.vector, settled_vector(local, remote)),
{
    clock::law_merge_dominates_both(local.vector, remote.vector, local.vector);
}

/// The version that has seen the other wins outright, whatever the two hold.
pub proof fn law_the_later_version_wins(local: Version, remote: Version)
    ensures
        clock::causality(local.vector, remote.vector) == Causality::After ==> verdict(
            local,
            remote,
        ) == Verdict::KeepLocal,
        clock::causality(local.vector, remote.vector) == Causality::Before ==> verdict(
            local,
            remote,
        ) == Verdict::TakeRemote,
{
}

/// Two versions with the same content are never in conflict.
pub proof fn law_identical_content_never_conflicts(local: Version, remote: Version)
    requires
        local.content == remote.content,
    ensures
        !(verdict(local, remote) is Conflict),
        !(verdict(local, remote) is Resurrect),
{
}

/// An edit survives a deletion that had not seen it, and the deletion does not.
pub proof fn law_an_edit_survives_a_concurrent_delete(local: Version, remote: Version)
    requires
        clock::causality(local.vector, remote.vector) == Causality::Concurrent,
        (local.content is Deleted) != (remote.content is Deleted),
    ensures
        verdict(local, remote) == (Verdict::Resurrect {
            survivor: if local.content is Deleted {
                Side::Remote
            } else {
                Side::Local
            },
        }),
{
}

/// The same decision, but perhaps for the name of the renamed file.
pub open spec fn same_but_for_the_name(a: Verdict, b: Verdict) -> bool {
    match (a, b) {
        (
            Verdict::Conflict { keeps_path: x, .. },
            Verdict::Conflict { keeps_path: y, .. },
        ) => x == y,
        _ => a == b,
    }
}

/// No clock decides anything: with any other times of change the decision is
/// the same, but for the time in a conflict filename.
pub proof fn law_clocks_decide_nothing(local: Version, remote: Version, s: i64, t: i64)
    ensures
        same_but_for_the_name(
            verdict(local, remote),
            verdict(
                Version { modified_at: s, ..local },
                Version { modified_at: t, ..remote },
            ),
        ),
        settled_vector(local, remote) == settled_vector(
            Version { modified_at: s, ..local },
            Version { modified_at: t, ..remote },
        ),
{
}

/// A conflict name is longer than the path that it was made from.
pub proof fn conflict_name_is_longer(version: Version)
    requires
        renamable(version.path),
    ensures
        conflict_name(version).len() > version.path.len(),
{
    let path = version.path;
    text::last_of_range(path, '/');
    text::last_of_range(path.skip(name_start(path) + 1), '.');
    reveal_strlit(".conflict-");
}

/// A conflict name is never the path that it was made from, stays in the same
/// directory and keeps the extension.
pub proof fn law_conflict_name_stays_beside_the_file(version: Version)
    requires
        renamable(version.path),
    ensures
        conflict_name(version) != version.path,
        conflict_name(version).take(name_start(version.path)) == version.path.take(
            name_start(version.path),
        ),
        ({
            let ext = version.path.skip(extension_start(version.path));
            conflict_name(version).skip(conflict_name(version).len() - ext.len()) == ext
        }),
{
    let path = version.path;
    let cut = extension_start(path);
    text::last_of_range(path, '/');
    text::last_of_range(path.skip(name_start(path) + 1), '.');
    reveal_strlit(".conflict-");
    let name = conflict_name(version);
    assert(name.len() >= path.len() + 10);
    assert(name.take(name_start(path)) =~= path.take(name_start(path)));
    let ext = path.skip(cut);
    assert(name.skip(name.len() - ext.len()) =~= ext);
}

/// What goes between the stem and the extension of a conflict name.
spec fn suffix(version: Version) -> Seq<char> {
    ".conflict-"@ + text::hex(version.modified_by.take(4)) + "-"@ + calendar::utc(
        version.modified_at as int,
    )
}

/// A conflict name is the stem, the suffix and the extension. The suffix starts
/// with its only dot, and so does an extension.
proof fn conflict_name_parts(version: Version)
    requires
        renamable(version.path),
    ensures
        ({
            let cut = extension_start(version.path);
            let end = suffix(version);
            let stem = version.path.take(cut);
            let ext = version.path.skip(cut);
            &&& 0 <= name_start(version.path) < cut <= version.path.len()
            &&& version.path == stem + ext
            &&& conflict_name(version) == stem + end + ext
            &&& end.len() > 0
            &&& end[0] == '.'
            &&& forall|i: int| 0 < i < end.len() ==> end[i] != '.'
            &&& forall|i: int| 0 <= i < end.len() ==> end[i] != '/'
            &&& ext.len() > 0 ==> ext[0] == '.'
            &&& forall|i: int| 0 < i < ext.len() ==> ext[i] != '.'
            &&& forall|i: int| 0 <= i < ext.len() ==> ext[i] != '/'
            &&& forall|i: int|
                ext.len() == 0 && name_start(version.path) < i < stem.len() ==> stem[i] != '.'
        }),
{
    let path = version.path;
    let cut = extension_start(path);
    let start = name_start(path);
    let rest = path.skip(start + 1);
    text::last_of_range(path, '/');
    text::last_of_range(rest, '.');
    reveal_strlit(".conflict-");
    reveal_strlit("-");
    let at = version.modified_at as int;
    text::hex_is_plain(version.modified_by.take(4));
    calendar::utc_is_plain(at);
    let end = suffix(version);
    let stem = path.take(cut);
    let ext = path.skip(cut);
    assert(path =~= stem + ext);
    assert(conflict_name(version) =~= stem + end + ext);
    assert forall|i: int| 0 < i < ext.len() implies ext[i] != '.' by {
        assert(ext[i] == rest[cut - start - 1 + i]);
    }
    assert(ext.len() > 0 ==> ext[0] == rest[cut - start - 1]);
    assert forall|i: int| ext.len() == 0 && start < i < stem.len() implies stem[i] != '.' by {
        assert(stem[i] == rest[i - start - 1]);
    }
}

/// Two conflict names are the same only where they were made from one path.
pub proof fn law_conflict_names_do_not_collide(a: Version, b: Version)
    requires
        renamable(a.path),
        renamable(b.path),
        conflict_name(a) == conflict_name(b),
    ensures
        a.path == b.path,
{
    conflict_name_parts(a);
    conflict_name_parts(b);
    let name = conflict_name(a);
    let (s, t) = (a.path.take(extension_start(a.path)), b.path.take(extension_start(b.path)));
    let (x, y) = (a.path.skip(extension_start(a.path)), b.path.skip(extension_start(b.path)));
    assert(x.len() == a.path.len() - extension_start(a.path));
    assert(y.len() == b.path.len() - extension_start(b.path));
    if x.len() == 0 && y.len() > 0 {
        extensionless_differs(a, b);
    } else if y.len() == 0 && x.len() > 0 {
        extensionless_differs(b, a);
    } else {
        if x.len() > 0 {
            text::last_of_is(name, '.', name.len() - x.len());
            text::last_of_is(name, '.', name.len() - y.len());
        }
        assert(x.len() == y.len());
        let n = name.len() - x.len();
        assert(x =~= name.skip(n));
        assert(y =~= name.skip(n));
        let head = name.take(n);
        assert(head =~= s + suffix(a));
        assert(head =~= t + suffix(b));
        text::last_of_is(head, '.', s.len() as int);
        text::last_of_is(head, '.', t.len() as int);
        assert(s =~= head.take(s.len() as int));
        assert(t =~= head.take(s.len() as int));
    }
}

/// The conflict name of a file without an extension is not that of a file with
/// one.
proof fn extensionless_differs(a: Version, b: Version)
    requires
        renamable(a.path),
        renamable(b.path),
        extension_start(a.path) == a.path.len(),
        extension_start(b.path) < b.path.len(),
    ensures
        conflict_name(a) != conflict_name(b),
{
    conflict_name_parts(a);
    conflict_name_parts(b);
    let name = conflict_name(a);
    if name == conflict_name(b) {
        let s = a.path.take(extension_start(a.path));
        let t = b.path.take(extension_start(b.path));
        let y = b.path.skip(extension_start(b.path));
        assert(y.len() == b.path.len() - extension_start(b.path));
        assert(a.path.skip(extension_start(a.path)).len() == 0);
        text::last_of_is(name, '.', s.len() as int);
        text::last_of_is(name, '.', name.len() - y.len());
        assert(s =~= name.take(s.len() as int));
        assert(s =~= t + suffix(b));
        text::last_of_range(a.path, '/');
        text::last_of_range(b.path, '/');
        let slash = name_start(a.path) - 1;
        if slash >= t.len() {
            assert(s[slash] == suffix(b)[slash - t.len()]);
        }
        if slash > name_start(b.path) - 1 {
            assert(a.path[slash] == s[slash]);
            assert(s[slash] == t[slash]);
            assert(t[slash] == b.path[slash]);
        }
        assert(s[t.len() as int] == suffix(b)[0]);
    }
}

} // verus!
