use qurb::sync::clock::VersionVector;
use qurb::sync::device::DeviceId;
use qurb::sync::reconcile::{reconcile, Action};
use qurb::sync::version::{Content, FileVersion};
use std::collections::BTreeMap;

fn dev_a() -> DeviceId {
    DeviceId::from_bytes([0xA1; 32])
}

fn dev_b() -> DeviceId {
    DeviceId::from_bytes([0xB2; 32])
}

fn dev_c() -> DeviceId {
    DeviceId::from_bytes([0xC3; 32])
}


/// One device's whole view of the world.
#[derive(Debug, Clone)]
struct Device {
    id: DeviceId,
    files: BTreeMap<String, FileVersion>,
    clock: VersionVector,
    /// How wrong this device's wall clock is, in seconds.
    ///
    /// Ordering never consults it — that is the version vector's job. It exists
    /// so tests can prove that, by setting it absurdly and checking nothing
    /// changes.
    skew: i64,
}

impl Device {
    fn new(id: DeviceId) -> Self {
        Self { id, files: BTreeMap::new(), clock: VersionVector::new(), skew: 0 }
    }

    /// A device whose clock is wrong by `seconds`.
    fn with_skew(id: DeviceId, seconds: i64) -> Self {
        Self { skew: seconds, ..Self::new(id) }
    }

    fn now(&self) -> i64 {
        1_757_462_400_i64.saturating_add(self.skew)
    }

    /// Make a local change: write `hash` to `path`.
    fn edit(&mut self, path: &str, hash: u8) {
        self.clock.increment(self.id);
        let mut vector = self.files.get(path).map(|f| f.vector.clone()).unwrap_or_default();
        vector.set(self.id, self.clock.get(&self.id));
        self.files.insert(
            path.to_string(),
            FileVersion::file(path, [hash; 32], 100, vector, self.id, self.now()),
        );
    }

    fn delete(&mut self, path: &str) {
        if !self.files.contains_key(path) {
            return;
        }
        self.clock.increment(self.id);
        let mut vector = self.files[path].vector.clone();
        vector.set(self.id, self.clock.get(&self.id));
        self.files.insert(
            path.to_string(),
            FileVersion::tombstone(path, vector, self.id, self.now()),
        );
    }

    /// Apply everything this device should do after comparing with a peer.
    ///
    /// `Offer` is the peer's job, so it is ignored here; the peer sees the
    /// mirror-image `Adopt` when it reconciles.
    fn apply(&mut self, actions: &[Action]) {
        for action in actions {
            match action {
                Action::Offer { .. } => {}
                Action::Adopt { remote } => {
                    self.absorb(remote.clone());
                }
                Action::Conflict { keeps_path, renamed } => {
                    self.absorb(keeps_path.clone());
                    self.absorb(renamed.clone());
                }
                Action::Resurrect { resolved } | Action::Merge { resolved } => {
                    self.absorb(resolved.clone());
                }
            }
        }
    }

    fn absorb(&mut self, version: FileVersion) {
        self.clock.merge(&version.vector);
        self.files.insert(version.path.clone(), version);
    }

    fn versions(&self) -> Vec<FileVersion> {
        self.files.values().cloned().collect()
    }

    /// What a user would see: live paths and their contents.
    fn visible(&self) -> BTreeMap<String, [u8; 32]> {
        self.files
            .values()
            .filter_map(|f| match &f.content {
                Content::File { hash, .. } => Some((f.path.clone(), *hash)),
                Content::Deleted => None,
            })
            .collect()
    }
}

/// One exchange in both directions.
fn sync_once(a: &mut Device, b: &mut Device) {
    let a_actions = reconcile(&a.versions(), &b.versions());
    let b_actions = reconcile(&b.versions(), &a.versions());
    a.apply(&a_actions);
    b.apply(&b_actions);
}

/// Exchange until nothing changes, failing if that does not happen quickly.
///
/// The bound is the point of this helper. A sync engine that needs unbounded
/// rounds to settle is one that does not settle at all, and in production that
/// looks like two devices trading files forever while the user watches their
/// battery drain.
fn sync_until_stable(a: &mut Device, b: &mut Device) -> usize {
    for round in 1..=10 {
        let before = (a.files.clone(), b.files.clone());
        sync_once(a, b);
        if (a.files.clone(), b.files.clone()) == before {
            return round;
        }
    }
    panic!("did not converge within 10 rounds");
}

fn assert_converged(a: &Device, b: &Device) {
    assert_eq!(a.visible(), b.visible(), "devices disagree about what the user has");
    assert_eq!(a.files, b.files, "devices disagree about history, so they will diverge later");
}

// -- basic propagation -------------------------------------------------------

#[test]
fn a_new_file_reaches_the_other_device() {
    let (mut a, mut b) = (Device::new(dev_a()), Device::new(dev_b()));
    a.edit("notes.txt", 1);

    sync_until_stable(&mut a, &mut b);
    assert_converged(&a, &b);
    assert_eq!(b.visible().get("notes.txt"), Some(&[1u8; 32]));
}

#[test]
fn an_edit_propagates_and_replaces() {
    let (mut a, mut b) = (Device::new(dev_a()), Device::new(dev_b()));
    a.edit("notes.txt", 1);
    sync_until_stable(&mut a, &mut b);

    a.edit("notes.txt", 2);
    sync_until_stable(&mut a, &mut b);

    assert_converged(&a, &b);
    assert_eq!(b.visible().get("notes.txt"), Some(&[2u8; 32]));
}

#[test]
fn a_deletion_propagates_and_stays_deleted() {
    // The failure this guards against: the peer still has the file, offers it
    // back, and the deletion silently undoes itself.
    let (mut a, mut b) = (Device::new(dev_a()), Device::new(dev_b()));
    a.edit("doomed.txt", 1);
    sync_until_stable(&mut a, &mut b);

    a.delete("doomed.txt");
    sync_until_stable(&mut a, &mut b);

    assert_converged(&a, &b);
    assert!(b.visible().is_empty(), "the file must not come back");

    // And it must still be gone after further syncing.
    sync_until_stable(&mut a, &mut b);
    assert!(a.visible().is_empty() && b.visible().is_empty());
}

#[test]
fn syncing_an_unchanged_pair_does_nothing() {
    let (mut a, mut b) = (Device::new(dev_a()), Device::new(dev_b()));
    a.edit("a.txt", 1);
    b.edit("b.txt", 2);
    sync_until_stable(&mut a, &mut b);

    assert!(reconcile(&a.versions(), &b.versions()).is_empty(), "no work should remain");
}

// -- conflicts ---------------------------------------------------------------

#[test]
fn concurrent_edits_converge_with_both_versions_kept() {
    let (mut a, mut b) = (Device::new(dev_a()), Device::new(dev_b()));
    a.edit("shared.txt", 1);
    sync_until_stable(&mut a, &mut b);

    // Both edit without seeing the other.
    a.edit("shared.txt", 0xFF);
    b.edit("shared.txt", 0x0A);

    sync_until_stable(&mut a, &mut b);
    assert_converged(&a, &b);

    let visible = a.visible();
    assert_eq!(visible.len(), 2, "both edits survive: {:?}", visible.keys().collect::<Vec<_>>());
    assert!(visible.contains_key("shared.txt"));
    assert!(
        visible.keys().any(|k| k.starts_with("shared.conflict-")),
        "the losing edit must be kept under a conflict name"
    );

    let contents: Vec<_> = visible.values().map(|h| h[0]).collect();
    assert!(contents.contains(&0xFF) && contents.contains(&0x0A), "no edit was discarded");
}

#[test]
fn a_conflict_settles_and_does_not_recur() {
    // The bug this exists to catch: if a resolution does not record that it has
    // seen both sides, the next comparison finds the same conflict, and the two
    // devices conflict with each other forever.
    let (mut a, mut b) = (Device::new(dev_a()), Device::new(dev_b()));
    a.edit("shared.txt", 1);
    sync_until_stable(&mut a, &mut b);

    a.edit("shared.txt", 0xFF);
    b.edit("shared.txt", 0x0A);

    let rounds = sync_until_stable(&mut a, &mut b);
    assert!(rounds <= 3, "took {rounds} rounds to settle one conflict");

    assert!(
        reconcile(&a.versions(), &b.versions()).is_empty(),
        "the conflict was re-detected after being resolved"
    );

    let before = a.visible();
    sync_until_stable(&mut a, &mut b);
    assert_eq!(a.visible(), before, "further syncing must not create more conflict files");
}

#[test]
fn concurrent_identical_edits_do_not_produce_a_conflict() {
    // The same file copied onto both devices. Concurrent, but there is nothing
    // to disagree about, and a conflict file here would be pure noise.
    let (mut a, mut b) = (Device::new(dev_a()), Device::new(dev_b()));
    a.edit("same.txt", 42);
    b.edit("same.txt", 42);

    sync_until_stable(&mut a, &mut b);
    assert_converged(&a, &b);
    assert_eq!(a.visible().len(), 1, "no conflict file should appear");
}

#[test]
fn an_edit_survives_a_concurrent_delete() {
    // A deletion stays recoverable in the retention
    // window; a discarded edit does not.
    let (mut a, mut b) = (Device::new(dev_a()), Device::new(dev_b()));
    a.edit("contested.txt", 1);
    sync_until_stable(&mut a, &mut b);

    a.edit("contested.txt", 0x77);
    b.delete("contested.txt");

    sync_until_stable(&mut a, &mut b);
    assert_converged(&a, &b);
    assert_eq!(
        a.visible().get("contested.txt"),
        Some(&[0x77u8; 32]),
        "the edit must survive the delete"
    );
}

#[test]
fn concurrent_deletes_converge_without_a_conflict() {
    let (mut a, mut b) = (Device::new(dev_a()), Device::new(dev_b()));
    a.edit("doomed.txt", 1);
    sync_until_stable(&mut a, &mut b);

    a.delete("doomed.txt");
    b.delete("doomed.txt");

    sync_until_stable(&mut a, &mut b);
    assert_converged(&a, &b);
    assert!(a.visible().is_empty());
}

// -- the general property ----------------------------------------------------

/// Deterministic pseudo-random sequences of edits, deletes and syncs.
///
/// Every seed must end converged. It explores interleavings nobody would think
/// to write by hand.
#[test]
fn random_operation_sequences_always_converge() {
    const PATHS: [&str; 4] = ["a.txt", "b.txt", "dir/c.txt", "notes.md"];

    for seed in 0..200u32 {
        let (mut a, mut b) = (Device::new(dev_a()), Device::new(dev_b()));
        let mut rng = seed | 1;
        let mut next = || {
            rng ^= rng << 13;
            rng ^= rng >> 17;
            rng ^= rng << 5;
            rng
        };

        for _ in 0..24 {
            let r = next();
            let device = if r & 1 == 0 { &mut a } else { &mut b };
            let path = PATHS[(r >> 1) as usize % PATHS.len()];

            match (r >> 8) % 10 {
                0..=5 => device.edit(path, ((r >> 16) % 4) as u8 + 1),
                6..=7 => device.delete(path),
                // Sync at an arbitrary point, so devices diverge by varying
                // amounts before comparing notes.
                _ => sync_once(&mut a, &mut b),
            }
        }

        sync_until_stable(&mut a, &mut b);

        assert_eq!(a.visible(), b.visible(), "seed {seed}: user-visible state diverged");
        assert_eq!(a.files, b.files, "seed {seed}: histories diverged");
        assert!(
            reconcile(&a.versions(), &b.versions()).is_empty(),
            "seed {seed}: work remained after converging"
        );
    }
}

#[test]
fn syncing_is_idempotent() {
    // Running a sync twice must not change anything the first one settled.
    // Because delivery elsewhere in the system is at-least-once, repeated
    // syncs are normal rather than exceptional.
    let (mut a, mut b) = (Device::new(dev_a()), Device::new(dev_b()));
    a.edit("x.txt", 1);
    b.edit("y.txt", 2);
    a.edit("shared.txt", 0xFF);
    b.edit("shared.txt", 0x0A);

    sync_until_stable(&mut a, &mut b);
    let settled = (a.files.clone(), b.files.clone());

    for _ in 0..5 {
        sync_once(&mut a, &mut b);
    }
    assert_eq!((a.files.clone(), b.files.clone()), settled, "repeated syncing changed state");
}

// -- three devices -----------------------------------------------------------

/// Sync every pair until the whole set stops changing.
fn sync_all_until_stable(devices: &mut [Device]) -> usize {
    for round in 1..=20 {
        let before: Vec<_> = devices.iter().map(|d| d.files.clone()).collect();
        for i in 0..devices.len() {
            for j in (i + 1)..devices.len() {
                let (left, right) = devices.split_at_mut(j);
                let (a, b) = (&mut left[i], &mut right[0]);
                sync_once(a, b);
            }
        }
        let after: Vec<_> = devices.iter().map(|d| d.files.clone()).collect();
        if before == after {
            return round;
        }
    }
    panic!("three devices did not converge within 20 rounds");
}

#[test]
fn three_devices_converge() {
    // Two devices can be reconciled by much simpler schemes than vector
    // clocks. Three is where they start to earn their complexity: a change can
    // reach one device by two different routes, and "has this device seen that
    // edit?" stops having an obvious answer.
    let mut devices = vec![Device::new(dev_a()), Device::new(dev_b()), Device::new(dev_c())];

    devices[0].edit("shared.txt", 1);
    sync_all_until_stable(&mut devices);

    devices[0].edit("shared.txt", 0xF0);
    devices[1].edit("shared.txt", 0x0B);
    devices[2].edit("other.txt", 0x22);

    sync_all_until_stable(&mut devices);

    let visible = devices[0].visible();
    for d in &devices {
        assert_eq!(d.visible(), visible, "device {} disagrees", d.id.short());
        assert_eq!(d.files, devices[0].files, "device {} has a different history", d.id.short());
    }

    let contents: Vec<_> = visible.values().map(|h| h[0]).collect();
    assert!(contents.contains(&0xF0) && contents.contains(&0x0B), "an edit was lost");
    assert!(contents.contains(&0x22));
}

#[test]
fn a_change_propagates_through_an_intermediary() {
    // A and C never talk to each other directly. B has to carry the change,
    // which is the situation that makes a laptop-plus-phone-plus-desktop setup
    // work when they are rarely all awake at once.
    let (mut a, mut b, mut c) = (Device::new(dev_a()), Device::new(dev_b()), Device::new(dev_c()));

    a.edit("relay.txt", 9);
    sync_until_stable(&mut a, &mut b);
    sync_until_stable(&mut b, &mut c);

    assert_eq!(c.visible().get("relay.txt"), Some(&[9u8; 32]));
    assert_eq!(a.files, c.files, "the history must survive the relay, not just the content");
}

#[test]
fn three_devices_converge_under_random_operations() {
    const PATHS: [&str; 3] = ["a.txt", "b.txt", "sub/c.txt"];

    for seed in 0..120u32 {
        let mut devices = vec![Device::new(dev_a()), Device::new(dev_b()), Device::new(dev_c())];
        let mut rng = seed | 1;
        let mut next = || {
            rng ^= rng << 13;
            rng ^= rng >> 17;
            rng ^= rng << 5;
            rng
        };

        for _ in 0..30 {
            let r = next();
            let which = (r >> 1) as usize % 3;
            let path = PATHS[(r >> 3) as usize % PATHS.len()];

            match (r >> 8) % 10 {
                0..=5 => devices[which].edit(path, ((r >> 16) % 3) as u8 + 1),
                6..=7 => devices[which].delete(path),
                _ => {
                    // Sync one arbitrary pair, so devices learn about changes
                    // by different routes and at different times.
                    let i = which;
                    let j = (which + 1 + (r >> 20) as usize % 2) % 3;
                    if i != j {
                        let (lo, hi) = (i.min(j), i.max(j));
                        let (left, right) = devices.split_at_mut(hi);
                        sync_once(&mut left[lo], &mut right[0]);
                    }
                }
            }
        }

        sync_all_until_stable(&mut devices);

        for d in &devices[1..] {
            assert_eq!(d.visible(), devices[0].visible(), "seed {seed}: visible state diverged");
            assert_eq!(d.files, devices[0].files, "seed {seed}: history diverged");
        }
    }
}

// -- clocks ------------------------------------------------------------------

#[test]
fn a_device_with_a_badly_wrong_clock_still_converges() {
    // Ordering is the version vector's job; wall-clock time is used only for
    // conflict filenames. A device three days in the past must therefore not
    // lose every conflict, nor win every one.
    let mut a = Device::with_skew(dev_a(), -3 * 86_400);
    let mut b = Device::new(dev_b());

    a.edit("shared.txt", 1);
    sync_until_stable(&mut a, &mut b);

    a.edit("shared.txt", 0xF0);
    b.edit("shared.txt", 0x0B);
    sync_until_stable(&mut a, &mut b);

    assert_converged(&a, &b);
    let contents: Vec<u8> = a.visible().values().map(|h| h[0]).collect();
    assert!(contents.contains(&0xF0), "the past-dated device's edit was lost");
    assert!(contents.contains(&0x0B), "the correctly-dated device's edit was lost");
}

#[test]
fn a_device_far_in_the_future_does_not_win_everything() {
    // The failure this guards against: ordering by timestamp, which would let
    // one wrong clock systematically beat every other device forever.
    let mut a = Device::with_skew(dev_a(), 10 * 365 * 86_400);
    let mut b = Device::new(dev_b());

    b.edit("notes.txt", 1);
    sync_until_stable(&mut a, &mut b);

    // A is a decade ahead but has seen B's change, so its edit legitimately
    // supersedes -- by causality, not by clock.
    a.edit("notes.txt", 2);
    sync_until_stable(&mut a, &mut b);
    assert_eq!(b.visible().get("notes.txt").map(|h| h[0]), Some(2));

    // Now B edits having seen A's, and must win despite being a decade behind.
    b.edit("notes.txt", 3);
    sync_until_stable(&mut a, &mut b);
    assert_converged(&a, &b);
    assert_eq!(
        a.visible().get("notes.txt").map(|h| h[0]),
        Some(3),
        "a device with a wrong clock overrode a causally later edit"
    );
    assert_eq!(a.visible().len(), 1, "a spurious conflict file appeared");
}

#[test]
fn clock_skew_does_not_change_who_wins_a_conflict() {
    // The same pair of concurrent edits must resolve the same way regardless of
    // what the devices think the time is, or two devices with different skew
    // would rename each other's copies and never agree.
    fn outcome(skew: i64) -> Vec<u8> {
        let mut a = Device::with_skew(dev_a(), skew);
        let mut b = Device::new(dev_b());
        a.edit("f.txt", 1);
        sync_until_stable(&mut a, &mut b);
        a.edit("f.txt", 0xAA);
        b.edit("f.txt", 0xBB);
        sync_until_stable(&mut a, &mut b);

        let mut winner: Vec<u8> = a
            .visible()
            .iter()
            .filter(|(path, _)| path.as_str() == "f.txt")
            .map(|(_, h)| h[0])
            .collect();
        winner.sort_unstable();
        winner
    }

    let baseline = outcome(0);
    for skew in [-86_400 * 30, -3600, 3600, 86_400 * 365] {
        assert_eq!(outcome(skew), baseline, "skew of {skew}s changed the winner");
    }
}

// -- long absences -----------------------------------------------------------

#[test]
fn a_device_offline_for_a_month_catches_up() {
    let mut online_a = Device::new(dev_a());
    let mut online_b = Device::new(dev_b());
    let mut away = Device::with_skew(dev_c(), 0);

    // Everyone starts in agreement.
    online_a.edit("shared.txt", 1);
    sync_until_stable(&mut online_a, &mut online_b);
    sync_until_stable(&mut online_a, &mut away);

    // A month of activity between the two that stayed on.
    for day in 1..=30u8 {
        online_a.edit("shared.txt", day);
        online_a.edit(&format!("day{day}.txt"), day);
        if day % 3 == 0 {
            online_b.edit("shared.txt", day.wrapping_add(100));
        }
        if day % 7 == 0 {
            online_a.delete(&format!("day{}.txt", day - 1));
        }
        sync_until_stable(&mut online_a, &mut online_b);
    }

    // The absent device returns.
    sync_until_stable(&mut away, &mut online_a);
    sync_until_stable(&mut away, &mut online_b);
    sync_until_stable(&mut online_a, &mut online_b);

    assert_converged(&away, &online_a);
    assert_converged(&away, &online_b);
    assert!(
        reconcile(&away.versions(), &online_a.versions()).is_empty(),
        "work remained after catching up"
    );
}

#[test]
fn a_device_that_worked_offline_merges_rather_than_being_overwritten() {
    // The case that actually loses data if handled badly: a device edits while
    // disconnected, and its work must survive rejoining.
    let mut home = Device::new(dev_a());
    let mut laptop = Device::new(dev_b());

    home.edit("report.txt", 1);
    home.edit("keep.txt", 1);
    sync_until_stable(&mut home, &mut laptop);

    // A month apart, both working.
    for i in 1..=30u8 {
        home.edit("report.txt", i);
        laptop.edit("laptop-only.txt", i);
    }
    laptop.edit("report.txt", 0xEE);

    sync_until_stable(&mut home, &mut laptop);
    assert_converged(&home, &laptop);

    let visible = home.visible();
    assert!(visible.contains_key("laptop-only.txt"), "offline work was lost");
    assert!(visible.contains_key("keep.txt"));

    let report: Vec<u8> = visible
        .iter()
        .filter(|(p, _)| p.starts_with("report"))
        .map(|(_, h)| h[0])
        .collect();
    assert!(report.contains(&0xEE), "the laptop's edit was discarded");
    assert!(report.contains(&30), "the home device's edit was discarded");
}

#[test]
fn a_deletion_made_while_offline_is_not_undone_by_rejoining() {
    // A peer that never learned about a deletion still has the file and will
    // offer it back. Without a tombstone crossing, the deletion silently
    // reverses itself -- one of the most confusing bugs a sync engine has.
    let mut home = Device::new(dev_a());
    let mut laptop = Device::new(dev_b());

    home.edit("doomed.txt", 1);
    sync_until_stable(&mut home, &mut laptop);

    home.delete("doomed.txt");
    for _ in 0..20 {
        home.edit("other.txt", 2);
    }

    sync_until_stable(&mut home, &mut laptop);
    assert!(!laptop.visible().contains_key("doomed.txt"), "the deletion was undone");
    assert_converged(&home, &laptop);
}

#[test]
fn three_devices_with_three_different_wrong_clocks_converge() {
    let mut a = Device::with_skew(dev_a(), -86_400 * 7);
    let mut b = Device::with_skew(dev_b(), 86_400 * 400);
    let mut c = Device::with_skew(dev_c(), 0);

    a.edit("shared.txt", 1);
    sync_until_stable(&mut a, &mut b);
    sync_until_stable(&mut b, &mut c);
    sync_until_stable(&mut a, &mut c);

    a.edit("shared.txt", 0x11);
    b.edit("shared.txt", 0x22);
    c.edit("shared.txt", 0x33);

    for _ in 0..3 {
        sync_until_stable(&mut a, &mut b);
        sync_until_stable(&mut b, &mut c);
        sync_until_stable(&mut a, &mut c);
    }

    assert_converged(&a, &b);
    assert_converged(&b, &c);
    let contents: Vec<u8> = a.visible().values().map(|h| h[0]).collect();
    for expected in [0x11, 0x22, 0x33] {
        assert!(contents.contains(&expected), "edit {expected:#x} was lost among skewed clocks");
    }
}
