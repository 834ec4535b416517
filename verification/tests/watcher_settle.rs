use qurb::watcher::debounce::{Change, ChangeKind, DebounceConfig};
use qurb::watcher::ignore::IgnoreRules;
use qurb::watcher::settle::{batch, classify, Event, Found, RawEvent, RawKind, Settler, Snapshot};

const MS: u64 = 1_000_000;
const T0: u64 = 1_000_000_000;

fn settler() -> Settler {
    Settler::new(DebounceConfig::default())
}

fn looks(size: u64) -> Snapshot {
    Snapshot { size, mtime_ns: 7 }
}

fn event(kind: RawKind, paths: &[&str]) -> RawEvent {
    RawEvent::Notify { kind, paths: paths.iter().map(|p| p.to_string()).collect() }
}

fn names(paths: &[&str]) -> Vec<String> {
    paths.iter().map(|p| p.to_string()).collect()
}

#[test]
fn a_rename_is_a_removal_and_an_addition_at_once() {
    assert_eq!(
        classify(RawKind::RenameBoth, &names(&["/old", "/new"])),
        vec![Change::removed("/old"), Change::upserted("/new")]
    );
    assert_eq!(classify(RawKind::RenameBoth, &names(&["/old"])), vec![Change::removed("/old")]);
    assert!(classify(RawKind::RenameBoth, &names(&[])).is_empty());
}

#[test]
fn each_kind_of_event_implies_its_changes() {
    let paths = names(&["/a", "/b"]);
    let gone = vec![Change::removed("/a"), Change::removed("/b")];
    let here = vec![Change::upserted("/a"), Change::upserted("/b")];
    assert_eq!(classify(RawKind::Remove, &paths), gone);
    assert_eq!(classify(RawKind::RenameFrom, &paths), gone);
    assert_eq!(classify(RawKind::Other, &paths), here);
    assert!(classify(RawKind::Access, &paths).is_empty());
}

#[test]
fn a_file_that_looks_the_same_is_reported() {
    let mut s = settler();
    let rules = IgnoreRules::new();
    s.handle(&event(RawKind::Other, &["/t/a"]), &vec![Some(looks(3))], &rules, T0);
    let due = s.due(T0 + 400 * MS);
    assert_eq!(due, vec![Change::upserted("/t/a")]);
    for change in due {
        let now = T0 + 400 * MS;
        let report = s.release(change, &Found::File(looks(3)), now);
        assert_eq!(report, Some(Change::upserted("/t/a")));
    }
    assert_eq!(s.debouncer.pending_count(), 0);
}

#[test]
fn a_file_that_grew_since_is_held_back() {
    let mut s = settler();
    let rules = IgnoreRules::new();
    s.handle(&event(RawKind::Other, &["/t/a"]), &vec![Some(looks(3))], &rules, T0);
    let now = T0 + 400 * MS;
    let mut due = s.due(now);
    assert_eq!(s.release(due.remove(0), &Found::File(looks(9)), now), None);
    assert_eq!(s.debouncer.pending_count(), 1);

    let later = now + 400 * MS;
    let mut due = s.due(later);
    assert_eq!(
        s.release(due.remove(0), &Found::File(looks(9)), later),
        Some(Change::upserted("/t/a"))
    );
}

#[test]
fn a_file_that_went_away_is_reported_as_removed() {
    let mut s = settler();
    let report = s.release(Change::upserted("/t/a"), &Found::Gone, T0);
    assert_eq!(report, Some(Change::removed("/t/a")));
    let report = s.release(Change::removed("/t/b"), &Found::File(looks(1)), T0);
    assert_eq!(report, Some(Change::removed("/t/b")));
}

#[test]
fn a_new_directory_is_walked_rather_than_reported() {
    let mut s = settler();
    let files = vec![("/t/d/x".to_string(), Some(looks(1))), ("/t/d/y".to_string(), None)];
    let report = s.release(Change::upserted("/t/d"), &Found::Directory(Some(files)), T0);
    assert_eq!(report, None);
    assert_eq!(
        s.due(T0 + 400 * MS),
        vec![Change::upserted("/t/d/x"), Change::upserted("/t/d/y")]
    );
    assert!(!s.take_rescan());
}

#[test]
fn a_directory_that_cannot_be_walked_asks_for_a_rescan() {
    let mut s = settler();
    assert_eq!(s.release(Change::upserted("/t/d"), &Found::Directory(None), T0), None);
    assert!(s.take_rescan());
    assert!(!s.take_rescan());
}

#[test]
fn dropped_events_ask_for_a_rescan() {
    let mut s = settler();
    s.handle(&RawEvent::Overflow, &Vec::new(), &IgnoreRules::new(), T0);
    assert!(s.take_rescan());
}

#[test]
fn what_is_ignored_never_waits() {
    let mut s = settler();
    let rules = IgnoreRules::new().with_store_dir("/t/.qurb");
    let raw = event(RawKind::Other, &["/t/.qurb/index.db", "/t/b.tmp", "/t/c"]);
    s.handle(&raw, &vec![None, None, None], &rules, T0);
    assert_eq!(s.due(T0 + 400 * MS), vec![Change::upserted("/t/c")]);
}

#[test]
fn an_empty_batch_is_not_sent() {
    assert_eq!(batch(Vec::new()), None);
    let changes = vec![Change { path: "/a".to_string(), kind: ChangeKind::Removed }];
    assert_eq!(batch(changes.clone()), Some(Event::Changes(changes)));
}
