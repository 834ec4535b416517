use qurb::watcher::ignore::IgnoreRules;

fn rules() -> IgnoreRules {
    IgnoreRules::new().with_store_dir("/home/u/sync/.qurb")
}

#[test]
fn ordinary_files_are_watched() {
    let r = rules();
    assert!(!r.is_ignored("/home/u/sync/notes.txt"));
    assert!(!r.is_ignored("/home/u/sync/photos/trip.jpg"));
    assert!(!r.is_ignored("/home/u/sync/.config-backup"));
}

#[test]
fn the_store_is_never_watched() {
    // Watching our own writes would feed back into itself.
    let r = rules();
    assert!(r.is_ignored("/home/u/sync/.qurb"));
    assert!(r.is_ignored("/home/u/sync/.qurb/index.db"));
    assert!(r.is_ignored("/home/u/sync/.qurb/chunks/9f/86d0"));
}

#[test]
fn version_control_metadata_is_skipped_at_any_depth() {
    let r = rules();
    assert!(r.is_ignored("/home/u/sync/proj/.git/objects/ab/cdef"));
    assert!(r.is_ignored("/home/u/sync/a/b/node_modules/x/y.js"));
}

#[test]
fn editor_scratch_files_are_skipped() {
    let r = rules();
    for name in [
        "doc.txt.tmp",
        "doc.txt.swp",
        "movie.mp4.part",
        "installer.exe.crdownload",
        "doc.txt~",
        ".#doc.txt",
        "~$report.docx",
        ".~lock.sheet.ods#",
        ".DS_Store",
    ] {
        let p = format!("/home/u/sync/{name}");
        assert!(r.is_ignored(&p), "{name} should be ignored");
    }
}

#[test]
fn suffix_matching_is_case_insensitive() {
    let r = rules();
    assert!(r.is_ignored("/home/u/sync/Setup.TMP"));
    assert!(r.is_ignored("/home/u/sync/Video.Part"));
}

#[test]
fn a_file_merely_containing_an_ignored_word_is_kept() {
    let r = rules();
    assert!(!r.is_ignored("/home/u/sync/tmp-notes.txt"));
    assert!(!r.is_ignored("/home/u/sync/git-guide.md"));
}

/// The staging name the engine writes must be one the watcher skips. These
/// live in different crates, so nothing but this test connects them.
#[test]
fn staging_files_are_ignored() {
    let rules = IgnoreRules::new();
    assert!(rules.is_ignored("/tree/.report.pdf.incoming"));
    assert!(!rules.is_ignored("/tree/report.pdf"));
}

#[test]
fn an_extra_directory_is_skipped_with_all_in_it() {
    let r = IgnoreRules::new().ignoring_dir("target");
    assert!(r.is_ignored("/p/target"));
    assert!(r.is_ignored("/p/target/debug/app"));
    assert!(!r.is_ignored("/p/targets/app"));
}

#[test]
fn a_name_that_starts_like_the_store_is_watched() {
    let r = rules();
    assert!(!r.is_ignored("/home/u/sync/.qurb-notes"));
    assert!(r.is_ignored("/home/u//sync/./.qurb/x"));
}

#[test]
fn what_ends_in_a_parent_has_no_name_to_skip() {
    let r = IgnoreRules::default();
    assert!(!r.is_ignored("/a/x.tmp/.."));
    assert!(!r.is_ignored("/"));
    assert!(!r.is_ignored(""));
}
