use qurb::sync::calendar::format_utc;
use qurb::sync::clock::VersionVector;
use qurb::sync::device::DeviceId;
use qurb::sync::resolve::{conflict_path, resolve, Outcome, Resolution, Side};
use qurb::sync::version::FileVersion;

fn dev_a() -> DeviceId {
    DeviceId::from_bytes([0xA1; 32])
}

fn dev_b() -> DeviceId {
    DeviceId::from_bytes([0xB2; 32])
}


fn vv(pairs: &[(DeviceId, u64)]) -> VersionVector {
    let mut v = VersionVector::new();
    for (d, n) in pairs {
        v.set(*d, *n);
    }
    v
}

fn file(path: &str, hash: u8, vector: VersionVector, by: DeviceId) -> FileVersion {
    FileVersion::file(path, [hash; 32], 100, vector, by, 1_757_462_400)
}

fn tomb(path: &str, vector: VersionVector, by: DeviceId) -> FileVersion {
    FileVersion::tombstone(path, vector, by, 1_757_462_400)
}

// -- causally ordered: no conflict ---------------------------------------

#[test]
fn identical_versions_are_in_sync() {
    let l = file("a.txt", 1, vv(&[(dev_a(), 2)]), dev_a());
    let r = file("a.txt", 1, vv(&[(dev_a(), 2)]), dev_a());
    assert_eq!(resolve(&l, &r).outcome, Outcome::InSync);
}

#[test]
fn a_version_that_has_seen_the_other_wins_outright() {
    let older = file("a.txt", 1, vv(&[(dev_a(), 1)]), dev_a());
    let newer = file("a.txt", 2, vv(&[(dev_a(), 2)]), dev_a());

    assert_eq!(resolve(&newer, &older).outcome, Outcome::KeepLocal);
    assert_eq!(resolve(&older, &newer).outcome, Outcome::TakeRemote);
}

#[test]
fn a_deletion_that_saw_the_edit_wins() {
    // Not a conflict: whoever deleted it knew about the edit.
    let edit = file("a.txt", 1, vv(&[(dev_a(), 1)]), dev_a());
    let delete = tomb("a.txt", vv(&[(dev_a(), 1), (dev_b(), 1)]), dev_b());
    assert_eq!(resolve(&edit, &delete).outcome, Outcome::TakeRemote);
}

// -- concurrent ----------------------------------------------------------

#[test]
fn concurrent_identical_content_is_not_a_conflict() {
    // The same file copied onto both devices independently.
    let l = file("a.txt", 7, vv(&[(dev_a(), 1)]), dev_a());
    let r = file("a.txt", 7, vv(&[(dev_b(), 1)]), dev_b());

    let res = resolve(&l, &r);
    assert_eq!(res.outcome, Outcome::Merge, "no transfer, but history must still converge");
    assert_eq!(res.vector, vv(&[(dev_a(), 1), (dev_b(), 1)]), "the merge records both histories");
}

#[test]
fn concurrent_deletions_are_not_a_conflict() {
    let l = tomb("a.txt", vv(&[(dev_a(), 2)]), dev_a());
    let r = tomb("a.txt", vv(&[(dev_b(), 3)]), dev_b());
    assert_eq!(resolve(&l, &r).outcome, Outcome::Merge);
}

#[test]
fn concurrent_different_edits_keep_both() {
    let l = file("a.txt", 0xFF, vv(&[(dev_a(), 1)]), dev_a());
    let r = file("a.txt", 0x01, vv(&[(dev_b(), 1)]), dev_b());

    let res = resolve(&l, &r);
    match res.outcome {
        Outcome::Conflict { keeps_path, renamed_to } => {
            assert_eq!(keeps_path, Side::Local, "the higher hash keeps the path");
            assert!(renamed_to.starts_with("a.conflict-b2b2b2b2-"), "got {renamed_to}");
        }
        other => panic!("expected a conflict, got {other:?}"),
    }
}

#[test]
fn the_conflict_winner_does_not_depend_on_which_side_asks() {
    // Both devices must independently reach the same answer, or they would
    // each rename the other's copy and end up with two conflict files and
    // no original.
    let l = file("a.txt", 0xFF, vv(&[(dev_a(), 1)]), dev_a());
    let r = file("a.txt", 0x01, vv(&[(dev_b(), 1)]), dev_b());

    let from_a = resolve(&l, &r);
    let from_b = resolve(&r, &l);

    let winner_hash = |res: &Resolution, local: &FileVersion, remote: &FileVersion| {
        match &res.outcome {
            Outcome::Conflict { keeps_path: Side::Local, .. } => local.content.hash().copied(),
            Outcome::Conflict { keeps_path: Side::Remote, .. } => remote.content.hash().copied(),
            other => panic!("expected a conflict, got {other:?}"),
        }
    };
    assert_eq!(winner_hash(&from_a, &l, &r), winner_hash(&from_b, &r, &l));
}

#[test]
fn a_concurrent_edit_survives_a_concurrent_delete() {
    // An edit is never silently discarded.
    // dev_a() deletion stays recoverable for the retention window; an edit that
    // loses is gone.
    let edit = file("a.txt", 1, vv(&[(dev_a(), 1)]), dev_a());
    let delete = tomb("a.txt", vv(&[(dev_b(), 1)]), dev_b());

    assert_eq!(
        resolve(&edit, &delete).outcome,
        Outcome::Resurrect { survivor: Side::Local }
    );
    assert_eq!(
        resolve(&delete, &edit).outcome,
        Outcome::Resurrect { survivor: Side::Remote }
    );
}

#[test]
fn a_resolution_dominates_both_sides_so_the_conflict_does_not_recur() {
    let l = file("a.txt", 0xFF, vv(&[(dev_a(), 3), (dev_b(), 1)]), dev_a());
    let r = file("a.txt", 0x01, vv(&[(dev_a(), 1), (dev_b(), 4)]), dev_b());

    let res = resolve(&l, &r);
    assert!(res.vector.dominates(&l.vector));
    assert!(res.vector.dominates(&r.vector));
}

// -- conflict filenames --------------------------------------------------

#[test]
fn the_suffix_goes_before_the_final_extension() {
    let v = file("report.docx", 1, VersionVector::new(), dev_a());
    assert_eq!(conflict_path(&v), "report.conflict-a1a1a1a1-2025-09-10-000000.docx");
}

#[test]
fn conflict_names_keep_the_directory() {
    let v = file("work/notes/plan.md", 1, VersionVector::new(), dev_a());
    assert!(conflict_path(&v).starts_with("work/notes/plan.conflict-"));
    assert!(conflict_path(&v).ends_with(".md"));
}

#[test]
fn a_file_without_an_extension_just_gets_the_suffix() {
    let v = file("README", 1, VersionVector::new(), dev_a());
    assert_eq!(conflict_path(&v), "README.conflict-a1a1a1a1-2025-09-10-000000");
}

#[test]
fn only_the_final_extension_is_preserved() {
    let v = file("archive.tar.gz", 1, VersionVector::new(), dev_a());
    assert_eq!(conflict_path(&v), "archive.tar.conflict-a1a1a1a1-2025-09-10-000000.gz");
}

#[test]
fn a_leading_dot_is_part_of_the_name_not_an_extension() {
    let v = file(".bashrc", 1, VersionVector::new(), dev_a());
    assert_eq!(conflict_path(&v), ".bashrc.conflict-a1a1a1a1-2025-09-10-000000");
}

// -- date formatting -----------------------------------------------------

#[test]
fn dates_format_correctly() {
    // Including the cases hand-rolled calendar arithmetic usually gets wrong.
    assert_eq!(format_utc(0), "1970-01-01-000000");
    assert_eq!(format_utc(946_684_800), "2000-01-01-000000"); // a century leap year
    assert_eq!(format_utc(1_709_164_800), "2024-02-29-000000"); // a leap day
    assert_eq!(format_utc(1_757_462_400), "2025-09-10-000000");
    assert_eq!(format_utc(1_757_515_022), "2025-09-10-143702");
    assert_eq!(format_utc(1_767_225_599), "2025-12-31-235959"); // a year boundary
    assert_eq!(format_utc(2_147_483_648), "2038-01-19-031408"); // past 2^31 seconds
}

#[test]
fn dates_before_the_epoch_do_not_panic() {
    // dev_a() file with a nonsense timestamp must still produce a usable name
    // rather than crashing the sync engine.
    assert_eq!(format_utc(-1), "1969-12-31-235959");
}

#[test]
fn a_name_in_any_script_can_be_renamed() {
    let v = FileVersion::file(
        "\u{e9}.txt", [1; 32], 100, VersionVector::new(), dev_a(), 1_757_462_400,
    );
    assert_eq!(conflict_path(&v), "\u{e9}.conflict-a1a1a1a1-2025-09-10-000000.txt");
    let v = file("\u{65e5}\u{8a18}/\u{6771}.tar.gz", 1, VersionVector::new(), dev_a());
    assert_eq!(
        conflict_path(&v),
        "\u{65e5}\u{8a18}/\u{6771}.tar.conflict-a1a1a1a1-2025-09-10-000000.gz"
    );
}

#[test]
fn conflict_names_of_different_files_differ() {
    let names: Vec<String> = ["a", "a.txt", ".a", "a.b.txt", "d/a", "d/a.txt", "a.conflict-x"]
        .iter()
        .map(|p| conflict_path(&file(p, 1, VersionVector::new(), dev_a())))
        .collect();
    for (i, a) in names.iter().enumerate() {
        for b in &names[i + 1..] {
            assert_ne!(a, b);
        }
    }
}
