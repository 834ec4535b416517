use qurb::watcher::debounce::{Change, ChangeKind, DebounceConfig, Debouncer};

const MS: u64 = 1_000_000;

fn at(base: u64, ms: u64) -> u64 {
    base + ms * MS
}

fn debouncer() -> (u64, Debouncer) {
    let config = DebounceConfig { quiet: 400 * MS, max_hold: 5000 * MS };
    (1_000_000_000, Debouncer::new(config))
}

#[test]
fn a_single_event_settles_after_the_quiet_period() {
    let (t0, mut d) = debouncer();
    d.observe("/a.txt", ChangeKind::Upserted, t0);

    assert!(d.drain_settled(at(t0, 399)).is_empty(), "not yet quiet");
    assert_eq!(d.drain_settled(at(t0, 400)), vec![Change::upserted("/a.txt")]);
    assert_eq!(d.pending_count(), 0);
}

#[test]
fn a_burst_of_events_collapses_to_one_change() {
    // What saving a file in an editor actually looks like.
    let (t0, mut d) = debouncer();
    for ms in [0, 5, 12, 13, 40, 41] {
        d.observe("/doc.txt", ChangeKind::Upserted, at(t0, ms));
    }
    assert_eq!(d.pending_count(), 1);

    assert!(d.drain_settled(at(t0, 400)).is_empty(), "quiet counts from the last event");
    assert_eq!(d.drain_settled(at(t0, 441)), vec![Change::upserted("/doc.txt")]);
}

#[test]
fn a_continuously_written_file_is_released_at_the_maximum_hold() {
    // A long download would otherwise never settle and never sync.
    let (t0, mut d) = debouncer();
    for ms in (0..6000).step_by(50) {
        d.observe("/big.iso", ChangeKind::Upserted, at(t0, ms));
    }
    let settled = d.drain_settled(at(t0, 5000));
    assert_eq!(settled, vec![Change::upserted("/big.iso")], "max hold must force a release");
}

#[test]
fn the_last_event_decides_the_kind() {
    let (t0, mut d) = debouncer();

    // Created then deleted: a temp file that came and went.
    d.observe("/tmp-thing", ChangeKind::Upserted, t0);
    d.observe("/tmp-thing", ChangeKind::Removed, at(t0, 10));
    assert_eq!(d.drain_settled(at(t0, 500)), vec![Change::removed("/tmp-thing")]);

    // Deleted then recreated: how many editors save.
    d.observe("/doc.txt", ChangeKind::Removed, at(t0, 600));
    d.observe("/doc.txt", ChangeKind::Upserted, at(t0, 610));
    assert_eq!(d.drain_settled(at(t0, 1100)), vec![Change::upserted("/doc.txt")]);
}

#[test]
fn paths_settle_independently() {
    let (t0, mut d) = debouncer();
    d.observe("/a", ChangeKind::Upserted, t0);
    d.observe("/b", ChangeKind::Upserted, at(t0, 300));

    assert_eq!(d.drain_settled(at(t0, 400)), vec![Change::upserted("/a")]);
    assert_eq!(d.pending_count(), 1);
    assert_eq!(d.drain_settled(at(t0, 700)), vec![Change::upserted("/b")]);
}

#[test]
fn defer_pushes_the_deadline_out() {
    // A file still growing when we were about to read it.
    let (t0, mut d) = debouncer();
    d.observe("/growing.bin", ChangeKind::Upserted, t0);

    d.defer("/growing.bin", at(t0, 400));
    assert!(d.drain_settled(at(t0, 700)).is_empty(), "deferral resets the quiet period");
    assert_eq!(d.drain_settled(at(t0, 800)), vec![Change::upserted("/growing.bin")]);
}

#[test]
fn deferring_an_unknown_path_starts_tracking_it() {
    let (t0, mut d) = debouncer();
    d.defer("/appeared.bin", t0);
    assert_eq!(d.drain_settled(at(t0, 400)), vec![Change::upserted("/appeared.bin")]);
}

#[test]
fn overflow_requests_a_rescan_once() {
    let (_t0, mut d) = debouncer();
    assert!(!d.take_rescan());

    d.observe_overflow();
    assert!(d.take_rescan(), "the flag is reported");
    assert!(!d.take_rescan(), "and cleared, so one overflow means one rescan");
}

#[test]
fn next_deadline_is_the_soonest_release() {
    let (t0, mut d) = debouncer();
    assert!(d.next_deadline().is_none());

    d.observe("/late", ChangeKind::Upserted, at(t0, 200));
    d.observe("/early", ChangeKind::Upserted, t0);
    assert_eq!(d.next_deadline(), Some(at(t0, 400)), "the earliest quiet expiry");
}

#[test]
fn next_deadline_accounts_for_the_maximum_hold() {
    let (t0, mut d) = debouncer();
    d.observe("/busy", ChangeKind::Upserted, t0);
    // Kept alive past where max_hold, not quiet, becomes the binding limit.
    for ms in (0..4900).step_by(100) {
        d.observe("/busy", ChangeKind::Upserted, at(t0, ms));
    }
    assert_eq!(d.next_deadline(), Some(at(t0, 5000)));
}

#[test]
fn settled_output_is_ordered() {
    let (t0, mut d) = debouncer();
    for p in ["/c", "/a", "/b"] {
        d.observe(p, ChangeKind::Upserted, t0);
    }
    let settled = d.drain_settled(at(t0, 400));
    let paths: Vec<_> = settled.iter().map(|c| c.path.as_str()).collect();
    assert_eq!(paths, vec!["/a", "/b", "/c"]);
}

#[test]
fn the_default_waits_are_short_and_bounded() {
    let config = DebounceConfig::default();
    assert_eq!(config.quiet, 400 * MS);
    assert_eq!(config.max_hold, 5000 * MS);
}

#[test]
fn two_spellings_of_a_path_are_one_path() {
    let (t0, mut d) = debouncer();
    d.observe("/a//b", ChangeKind::Upserted, t0);
    d.observe("/a/./b", ChangeKind::Removed, t0);
    assert_eq!(d.pending_count(), 1);
    assert_eq!(d.drain_settled(at(t0, 400)), vec![Change::removed("/a//b")]);
}

#[test]
fn paths_are_ordered_by_component() {
    let (t0, mut d) = debouncer();
    for p in ["/a-b", "/a/b", "/a"] {
        d.observe(p, ChangeKind::Upserted, t0);
    }
    let settled = d.drain_settled(at(t0, 400));
    let paths: Vec<_> = settled.iter().map(|c| c.path.as_str()).collect();
    assert_eq!(paths, vec!["/a", "/a/b", "/a-b"]);
}

#[test]
fn a_moment_before_the_first_event_settles_nothing() {
    let (t0, mut d) = debouncer();
    d.observe("/a", ChangeKind::Upserted, t0);
    assert!(d.drain_settled(t0 - 1).is_empty());
}

#[test]
fn a_drain_finds_something_exactly_from_the_next_deadline_on() {
    let (t0, mut d) = debouncer();
    assert_eq!(d.next_deadline(), None);
    assert!(d.drain_settled(u64::MAX).is_empty());
    d.observe("/a.txt", ChangeKind::Upserted, t0);
    d.observe("/b.txt", ChangeKind::Upserted, at(t0, 100));
    let next = d.next_deadline().unwrap();
    assert_eq!(next, at(t0, 400));
    assert!(d.drain_settled(next - 1).is_empty());
    assert_eq!(d.drain_settled(next), vec![Change::upserted("/a.txt")]);
}
