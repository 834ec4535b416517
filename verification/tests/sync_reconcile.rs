use qurb::sync::clock::VersionVector;
use qurb::sync::device::DeviceId;
use qurb::sync::reconcile::{reconcile, Action};
use qurb::sync::version::FileVersion;

fn dev_a() -> DeviceId {
    DeviceId::from_bytes([0xA1; 32])
}

fn dev_b() -> DeviceId {
    DeviceId::from_bytes([0xB2; 32])
}


fn vv(pairs: &[(DeviceId, u64)]) -> VersionVector {
    let mut v = VersionVector::new();
    for (d, n) in pairs {
        v.set(*d, *n);
    }
    v
}

fn file(path: &str, hash: u8, vector: VersionVector, by: DeviceId) -> FileVersion {
    FileVersion::file(path, [hash; 32], 100, vector, by, 1_757_462_400)
}

fn tomb(path: &str, vector: VersionVector, by: DeviceId) -> FileVersion {
    FileVersion::tombstone(path, vector, by, 1_757_462_400)
}

#[test]
fn identical_trees_need_no_work() {
    let tree = vec![
        file("a.txt", 1, vv(&[(dev_a(), 1)]), dev_a()),
        file("b.txt", 2, vv(&[(dev_a(), 2)]), dev_a()),
    ];
    assert!(reconcile(&tree, &tree).is_empty());
}

#[test]
fn a_file_only_we_have_is_offered() {
    let local = vec![file("mine.txt", 1, vv(&[(dev_a(), 1)]), dev_a())];
    let actions = reconcile(&local, &[]);
    assert_eq!(actions, vec![Action::Offer { local: local[0].clone() }]);
}

#[test]
fn a_file_only_they_have_is_adopted() {
    let remote = vec![file("theirs.txt", 1, vv(&[(dev_b(), 1)]), dev_b())];
    let actions = reconcile(&[], &remote);
    assert_eq!(actions, vec![Action::Adopt { remote: remote[0].clone() }]);
}

#[test]
fn a_tombstone_the_remote_has_not_seen_is_still_offered() {
    // Skipping it would be worse than useless: the remote still has the
    // file, would offer it back, and the deletion would undo itself.
    let local = vec![tomb("deleted.txt", vv(&[(dev_a(), 2)]), dev_a())];
    let actions = reconcile(&local, &[]);
    assert_eq!(actions, vec![Action::Offer { local: local[0].clone() }]);
}

#[test]
fn a_stale_local_version_is_adopted_from_the_remote() {
    let local = vec![file("a.txt", 1, vv(&[(dev_a(), 1)]), dev_a())];
    let remote = vec![file("a.txt", 2, vv(&[(dev_a(), 1), (dev_b(), 1)]), dev_b())];
    assert_eq!(reconcile(&local, &remote), vec![Action::Adopt { remote: remote[0].clone() }]);
}

#[test]
fn concurrent_edits_produce_a_conflict_action() {
    let local = vec![file("a.txt", 0xFF, vv(&[(dev_a(), 1)]), dev_a())];
    let remote = vec![file("a.txt", 0x01, vv(&[(dev_b(), 1)]), dev_b())];

    match &reconcile(&local, &remote)[..] {
        [Action::Conflict { keeps_path, renamed }] => {
            assert_eq!(keeps_path.content.hash(), Some(&[0xFFu8; 32]), "higher hash keeps the path");
            assert_eq!(keeps_path.path, "a.txt");
            assert!(renamed.path.starts_with("a.conflict-"), "got {}", renamed.path);
            assert_eq!(renamed.content.hash(), Some(&[0x01u8; 32]));

            // Both results record that they have seen both histories, so
            // the next comparison finds them settled rather than conflicting.
            let merged = vv(&[(dev_a(), 1), (dev_b(), 1)]);
            assert_eq!(keeps_path.vector, merged);
            assert_eq!(renamed.vector, merged);
        }
        other => panic!("expected one conflict, got {other:?}"),
    }
}

#[test]
fn a_concurrent_edit_beats_a_concurrent_delete() {
    let local = vec![file("a.txt", 1, vv(&[(dev_a(), 1)]), dev_a())];
    let remote = vec![tomb("a.txt", vv(&[(dev_b(), 1)]), dev_b())];

    let mut expected = local[0].clone();
    expected.vector = vv(&[(dev_a(), 1), (dev_b(), 1)]);
    assert_eq!(reconcile(&local, &remote), vec![Action::Resurrect { resolved: expected }]);
}

#[test]
fn actions_are_ordered_by_path() {
    // Both devices must produce the same plan in the same order, or they
    // will apply changes in different sequences and diverge on any path
    // whose outcome depends on another.
    let local = vec![
        file("zebra.txt", 1, vv(&[(dev_a(), 1)]), dev_a()),
        file("apple.txt", 1, vv(&[(dev_a(), 1)]), dev_a()),
        file("mango.txt", 1, vv(&[(dev_a(), 1)]), dev_a()),
    ];
    let paths: Vec<_> = reconcile(&local, &[]).iter().map(|a| a.path().to_string()).collect();
    assert_eq!(paths, vec!["apple.txt", "mango.txt", "zebra.txt"]);
}

#[test]
fn a_mixed_tree_produces_one_action_per_diverging_path() {
    let local = vec![
        file("same.txt", 1, vv(&[(dev_a(), 1)]), dev_a()),
        file("ours.txt", 1, vv(&[(dev_a(), 1)]), dev_a()),
        file("stale.txt", 1, vv(&[(dev_a(), 1)]), dev_a()),
    ];
    let remote = vec![
        file("same.txt", 1, vv(&[(dev_a(), 1)]), dev_a()),
        file("theirs.txt", 1, vv(&[(dev_b(), 1)]), dev_b()),
        file("stale.txt", 2, vv(&[(dev_a(), 1), (dev_b(), 1)]), dev_b()),
    ];

    let actions = reconcile(&local, &remote);
    let described: Vec<_> = actions
        .iter()
        .map(|a| {
            let kind = match a {
                Action::Adopt { .. } => "adopt",
                Action::Offer { .. } => "offer",
                Action::Conflict { .. } => "conflict",
                Action::Resurrect { .. } => "resurrect",
                Action::Merge { .. } => "merge",
            };
            format!("{kind} {}", a.path())
        })
        .collect();

    assert_eq!(
        described,
        vec!["offer ours.txt", "adopt stale.txt", "adopt theirs.txt"],
        "same.txt agrees and needs nothing"
    );
}

/// One device made both, at two times that it recorded: both sides land on the
/// same metadata all the same.
#[test]
fn a_tie_between_one_devices_changes_is_broken_alike() {
    let l = FileVersion::file(
        "a.txt", [7; 32], 100, vv(&[(dev_a(), 1), (dev_b(), 1)]), dev_a(), 10,
    );
    let r = FileVersion::file("a.txt", [7; 32], 100, vv(&[(dev_a(), 2)]), dev_a(), 20);
    let ours = reconcile(&[l.clone()], &[r.clone()]);
    let theirs = reconcile(&[r], &[l]);
    assert_eq!(ours, theirs);
    match &ours[..] {
        [Action::Merge { resolved }] => {
            assert_eq!(resolved.vector, vv(&[(dev_a(), 2), (dev_b(), 1)]));
            assert_eq!(resolved.modified_at, 10);
        }
        other => panic!("{other:?}"),
    }
}

/// Two records that give one hash two sizes are settled alike on both sides.
#[test]
fn one_hash_with_two_sizes_is_settled_alike() {
    let l = FileVersion::file("a.txt", [7; 32], 1, vv(&[(dev_a(), 1)]), dev_a(), 10);
    let r = FileVersion::file("a.txt", [7; 32], 2, vv(&[(dev_b(), 1)]), dev_b(), 10);
    assert_eq!(reconcile(&[l.clone()], &[r.clone()]), reconcile(&[r], &[l]));
}

/// Carries out a plan.
fn carried_out(tree: &[FileVersion], plan: &[Action]) -> Vec<FileVersion> {
    let mut after = tree.to_vec();
    let mut put = |v: &FileVersion| {
        after.retain(|old| old.path != v.path);
        after.push(v.clone());
    };
    for action in plan {
        match action {
            Action::Offer { .. } => {}
            Action::Adopt { remote } => put(remote),
            Action::Merge { resolved } | Action::Resurrect { resolved } => put(resolved),
            Action::Conflict { keeps_path, renamed } => {
                put(keeps_path);
                put(renamed);
            }
        }
    }
    after
}

#[test]
fn after_an_exchange_there_is_nothing_left_to_do() {
    let local = vec![
        file("clash.txt", 1, vv(&[(dev_a(), 1)]), dev_a()),
        file("same.txt", 3, vv(&[(dev_a(), 1)]), dev_a()),
        file("\u{e9}.txt", 1, vv(&[(dev_a(), 1)]), dev_a()),
        tomb("gone.txt", vv(&[(dev_a(), 2)]), dev_a()),
    ];
    let remote = vec![
        file("clash.txt", 2, vv(&[(dev_b(), 1)]), dev_b()),
        file("same.txt", 3, vv(&[(dev_b(), 1)]), dev_b()),
        file("\u{e9}.txt", 2, vv(&[(dev_b(), 1)]), dev_b()),
        file("gone.txt", 4, vv(&[(dev_b(), 1)]), dev_b()),
    ];
    let ours = carried_out(&local, &reconcile(&local, &remote));
    let theirs = carried_out(&remote, &reconcile(&remote, &local));
    assert_eq!(reconcile(&ours, &theirs), vec![]);
    assert_eq!(reconcile(&theirs, &ours), vec![]);
    assert_eq!(ours.len(), 6);
}
