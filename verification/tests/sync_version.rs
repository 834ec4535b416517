use qurb::sync::clock::VersionVector;
use qurb::sync::device::DeviceId;
use qurb::sync::version::FileVersion;

fn dev_a() -> DeviceId {
    DeviceId::from_bytes([0xA1; 32])
}


#[test]
fn a_tombstone_is_deleted_and_has_no_hash() {
    let v = FileVersion::tombstone("a.txt", VersionVector::new(), dev_a(), 0);
    assert!(v.is_deleted());
    assert_eq!(v.content.hash(), None);
}

#[test]
fn identical_bytes_compare_equal_even_from_different_devices() {
    let b = DeviceId::from_bytes([0xB2; 32]);
    let mut v1 = VersionVector::new();
    v1.increment(dev_a());
    let mut v2 = VersionVector::new();
    v2.increment(b);

    let left = FileVersion::file("a.txt", [7; 32], 100, v1, dev_a(), 111);
    let right = FileVersion::file("a.txt", [7; 32], 100, v2, b, 222);
    assert!(left.same_content(&right), "history differs, content does not");
}

#[test]
fn different_sizes_are_different_content() {
    let v = VersionVector::new();
    let left = FileVersion::file("a.txt", [7; 32], 100, v.clone(), dev_a(), 0);
    let right = FileVersion::file("a.txt", [7; 32], 200, v, dev_a(), 0);
    assert!(!left.same_content(&right));
}

#[test]
fn two_tombstones_are_the_same_content() {
    let a = FileVersion::tombstone("a.txt", VersionVector::new(), dev_a(), 1);
    let b = FileVersion::tombstone("a.txt", VersionVector::new(), dev_a(), 2);
    assert!(a.same_content(&b));
}
