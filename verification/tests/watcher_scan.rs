use qurb::watcher::ignore::IgnoreRules;
use qurb::watcher::paths::logical_path;
use qurb::watcher::scan::{
    case_collisions, collision_groups, listed, visit, FoundFile, ScanEntry, Visit,
};

const ROOT: &str = "/home/u/sync";

fn tree() -> Vec<(&'static str, u64)> {
    vec![
        ("notes.txt", 5),
        ("photos/a.jpg", 9),
        ("photos/b.jpg.tmp", 7),
        (".git/objects/abcdef", 13),
        (".qurb/chunks/deadbeef", 13),
    ]
}

/// A walk that does not go into what is ignored.
fn scan(root: &str, files: &[(&str, u64)], ignore: &IgnoreRules) -> Vec<ScanEntry> {
    let mut found = Vec::new();
    'files: for (name, size) in files {
        let mut path = root.to_string();
        for part in name.split('/') {
            path = format!("{path}/{part}");
            if ignore.is_ignored(&path) {
                continue 'files;
            }
        }
        found.push(FoundFile { path, size: *size, mtime_ns: 1 });
    }
    listed(root, &found)
}

#[test]
fn scan_finds_files_and_skips_what_it_should() {
    let ignore = IgnoreRules::new().with_store_dir("/home/u/sync/.qurb");
    let found = scan(ROOT, &tree(), &ignore);

    let logical: Vec<_> = found.iter().map(|e| e.logical.as_str()).collect();
    assert_eq!(logical, vec!["notes.txt", "photos/a.jpg"]);
}

#[test]
fn scan_records_sizes() {
    let ignore = IgnoreRules::new().with_store_dir("/home/u/sync/.qurb");
    let found = scan(ROOT, &tree(), &ignore);
    let notes = found.iter().find(|e| e.logical == "notes.txt").unwrap();
    assert_eq!(notes.size, 5);
}

#[test]
fn scanning_an_empty_directory_yields_nothing() {
    assert!(scan(ROOT, &[], &IgnoreRules::new()).is_empty());
}

#[test]
fn a_scan_is_ordered_by_logical_path() {
    let files = [("zebra", 1), ("a/b", 2), ("a-b", 3), ("Apple", 4)];
    let found = scan(ROOT, &files, &IgnoreRules::new());
    let logical: Vec<_> = found.iter().map(|e| e.logical.as_str()).collect();
    assert_eq!(logical, vec!["Apple", "a-b", "a/b", "zebra"]);
    assert_eq!(found[1].path, "/home/u/sync/a-b");
}

#[test]
fn logical_paths_use_forward_slashes_and_are_root_relative() {
    let root = "/home/u/sync";
    assert_eq!(logical_path(root, "/home/u/sync/a/b.txt").as_deref(), Some("a/b.txt"));
    assert_eq!(logical_path(root, "/home/u/sync"), None, "the root itself is not a file");
    assert_eq!(logical_path(root, "/elsewhere/x"), None, "outside the tree");
}

#[test]
fn what_is_reached_through_a_parent_has_no_logical_path() {
    assert_eq!(logical_path("/r", "/r/a/../b"), None);
    assert_eq!(logical_path("/r", "/r//a/./b").as_deref(), Some("a/b"));
    assert_eq!(logical_path("/r", "/rest/a"), None);
}

#[test]
fn colliding_paths_are_grouped() {
    let paths: Vec<String> = ["README", "readme", "notes.txt", "dir/A.txt", "dir/a.txt"]
        .iter()
        .map(|s| s.to_string())
        .collect();
    let groups = case_collisions(&paths);

    assert_eq!(groups.len(), 2, "got {groups:?}");
    assert!(groups.iter().any(|g| g.contains(&"README".to_string())
        && g.contains(&"readme".to_string())));
    assert!(groups.iter().all(|g| !g.contains(&"notes.txt".to_string())));
}

#[test]
fn paths_that_only_look_similar_are_not_collisions() {
    let paths: Vec<String> =
        ["a/b.txt", "a-b.txt", "ab.txt"].iter().map(|s| s.to_string()).collect();
    assert!(case_collisions(&paths).is_empty());
}

#[test]
fn groups_come_by_name_and_keep_their_order() {
    let paths: Vec<String> =
        ["Zed", "b", "ZED", "\u{c4}", "B", "\u{e4}", "zed"].iter().map(|s| s.to_string()).collect();
    let groups = case_collisions(&paths);
    let expected: Vec<Vec<String>> = vec![
        vec!["b".to_string(), "B".to_string()],
        vec!["Zed".to_string(), "ZED".to_string(), "zed".to_string()],
        vec!["\u{c4}".to_string(), "\u{e4}".to_string()],
    ];
    assert_eq!(groups, expected);
}

#[test]
fn grouping_goes_by_what_the_paths_fold_to() {
    let paths: Vec<String> = ["x", "y", "z"].iter().map(|s| s.to_string()).collect();
    let folded: Vec<String> = ["same", "other", "same"].iter().map(|s| s.to_string()).collect();
    assert_eq!(collision_groups(&paths, &folded), vec![vec!["x".to_string(), "z".to_string()]]);
}

#[test]
fn a_walk_takes_up_files_and_passes_by_what_is_ignored() {
    let rules = IgnoreRules::new();
    assert_eq!(visit(&rules, Some("/home/u/sync/a.txt"), true), Visit::List);
    assert_eq!(visit(&rules, Some("/home/u/sync/photos"), false), Visit::Enter);
    assert_eq!(visit(&rules, Some("/home/u/sync/.git"), false), Visit::Skip);
    assert_eq!(visit(&rules, Some("/home/u/sync/a.tmp"), true), Visit::Skip);
    assert_eq!(visit(&rules, None, true), Visit::Skip);
}
