use qurb::sync::clock::{Causality, DecodeError, VersionVector};
use qurb::sync::device::DeviceId;

fn dev_a() -> DeviceId {
    DeviceId::from_bytes([0xA1; 32])
}

fn dev_b() -> DeviceId {
    DeviceId::from_bytes([0xB2; 32])
}

fn dev_c() -> DeviceId {
    DeviceId::from_bytes([0xC3; 32])
}


fn vv(pairs: &[(DeviceId, u64)]) -> VersionVector {
    let mut v = VersionVector::new();
    for (d, n) in pairs {
        v.set(*d, *n);
    }
    v
}

#[test]
fn a_fresh_vector_is_empty_and_reads_zero() {
    let v = VersionVector::new();
    assert!(v.is_empty());
    assert_eq!(v.get(&dev_a()), 0);
}

#[test]
fn incrementing_counts_changes_per_device() {
    let mut v = VersionVector::new();
    v.increment(dev_a());
    v.increment(dev_a());
    v.increment(dev_b());
    assert_eq!(v.get(&dev_a()), 2);
    assert_eq!(v.get(&dev_b()), 1);
    assert_eq!(v.get(&dev_c()), 0);
}

#[test]
fn identical_vectors_are_equal() {
    assert_eq!(vv(&[(dev_a(), 3), (dev_b(), 1)]).compare(&vv(&[(dev_a(), 3), (dev_b(), 1)])), Causality::Equal);
}

#[test]
fn an_empty_vector_precedes_everything() {
    let empty = VersionVector::new();
    assert_eq!(empty.compare(&vv(&[(dev_a(), 1)])), Causality::Before);
    assert_eq!(vv(&[(dev_a(), 1)]).compare(&empty), Causality::After);
    assert_eq!(empty.compare(&VersionVector::new()), Causality::Equal);
}

#[test]
fn a_later_version_comes_after() {
    // The laptop made another change; the phone has not seen it.
    assert_eq!(vv(&[(dev_a(), 4), (dev_b(), 2)]).compare(&vv(&[(dev_a(), 3), (dev_b(), 2)])), Causality::After);
    assert_eq!(vv(&[(dev_a(), 3), (dev_b(), 2)]).compare(&vv(&[(dev_a(), 4), (dev_b(), 2)])), Causality::Before);
}

#[test]
fn edits_neither_side_has_seen_are_concurrent() {
    // The laptop edited without seeing the phone's edit, and vice versa.
    // This is the case no clock can resolve.
    let laptop = vv(&[(dev_a(), 4), (dev_b(), 2)]);
    let phone = vv(&[(dev_a(), 3), (dev_b(), 3)]);
    assert_eq!(laptop.compare(&phone), Causality::Concurrent);
    assert_eq!(phone.compare(&laptop), Causality::Concurrent);
}

#[test]
fn a_device_absent_from_one_side_still_counts() {
    // dev_a() vector that does not mention dev_c() treats it as zero, so knowing about
    // dev_c() at all puts you ahead.
    assert_eq!(vv(&[(dev_a(), 1), (dev_c(), 1)]).compare(&vv(&[(dev_a(), 1)])), Causality::After);
    assert_eq!(vv(&[(dev_a(), 2)]).compare(&vv(&[(dev_a(), 1), (dev_c(), 1)])), Causality::Concurrent);
}

#[test]
fn comparison_is_antisymmetric() {
    let cases = [
        (vv(&[(dev_a(), 1)]), vv(&[(dev_a(), 2)])),
        (vv(&[(dev_a(), 1)]), vv(&[(dev_b(), 1)])),
        (vv(&[(dev_a(), 1)]), vv(&[(dev_a(), 1)])),
        (VersionVector::new(), vv(&[(dev_c(), 9)])),
    ];
    for (l, r) in cases {
        let expected = match l.compare(&r) {
            Causality::Before => Causality::After,
            Causality::After => Causality::Before,
            same => same,
        };
        assert_eq!(r.compare(&l), expected, "comparing {l:?} and {r:?}");
    }
}

#[test]
fn merging_keeps_the_higher_count_for_each_device() {
    let mut merged = vv(&[(dev_a(), 4), (dev_b(), 1)]);
    merged.merge(&vv(&[(dev_a(), 2), (dev_b(), 7), (dev_c(), 1)]));
    assert_eq!(merged, vv(&[(dev_a(), 4), (dev_b(), 7), (dev_c(), 1)]));
}

#[test]
fn a_merge_dominates_both_inputs() {
    // The property that makes conflict resolution terminate: the merged
    // vector supersedes both sides, so the resolution is not itself
    // concurrent with what it resolved.
    let laptop = vv(&[(dev_a(), 4), (dev_b(), 2)]);
    let phone = vv(&[(dev_a(), 3), (dev_b(), 3)]);
    let merged = laptop.merged(&phone);

    assert_eq!(merged.compare(&laptop), Causality::After);
    assert_eq!(merged.compare(&phone), Causality::After);
    assert!(merged.dominates(&laptop));
    assert!(merged.dominates(&phone));
}

#[test]
fn merging_is_commutative() {
    let l = vv(&[(dev_a(), 4), (dev_b(), 2)]);
    let r = vv(&[(dev_a(), 1), (dev_c(), 9)]);
    assert_eq!(l.merged(&r), r.merged(&l));
}

#[test]
fn dominating_covers_equal_and_after_but_not_concurrent() {
    let v = vv(&[(dev_a(), 2)]);
    assert!(v.dominates(&vv(&[(dev_a(), 2)])));
    assert!(v.dominates(&vv(&[(dev_a(), 1)])));
    assert!(!v.dominates(&vv(&[(dev_a(), 3)])));
    assert!(!v.dominates(&vv(&[(dev_b(), 1)])));
}

#[test]
fn setting_zero_removes_a_device() {
    // Otherwise a vector carrying explicit zeroes would encode differently
    // from an equivalent one that simply omits them.
    let mut v = vv(&[(dev_a(), 1), (dev_b(), 2)]);
    v.set(dev_b(), 0);
    assert_eq!(v, vv(&[(dev_a(), 1)]));
    assert_eq!(v.encode(), vv(&[(dev_a(), 1)]).encode());
}

#[test]
fn encoding_round_trips() {
    for v in [VersionVector::new(), vv(&[(dev_a(), 1)]), vv(&[(dev_a(), u64::MAX), (dev_b(), 2), (dev_c(), 3)])] {
        assert_eq!(VersionVector::decode(&v.encode()).unwrap(), v);
    }
}

#[test]
fn encoding_is_deterministic_regardless_of_insertion_order() {
    let mut forwards = VersionVector::new();
    forwards.set(dev_a(), 1);
    forwards.set(dev_b(), 2);
    forwards.set(dev_c(), 3);

    let mut backwards = VersionVector::new();
    backwards.set(dev_c(), 3);
    backwards.set(dev_b(), 2);
    backwards.set(dev_a(), 1);

    assert_eq!(forwards.encode(), backwards.encode());
}

#[test]
fn decoding_rejects_malformed_input() {
    assert_eq!(VersionVector::decode(&[1, 2]), Err(DecodeError::Truncated));
    let mut encoded = vv(&[(dev_a(), 1)]).encode();
    encoded.truncate(encoded.len() - 1);
    assert!(matches!(
        VersionVector::decode(&encoded),
        Err(DecodeError::LengthMismatch { .. })
    ));
}

#[test]
fn bytes_in_order_are_encoded_as_they_were() {
    let mut bytes = vec![2, 0, 0, 0];
    bytes.extend_from_slice(&[1; 32]);
    bytes.extend_from_slice(&7u64.to_le_bytes());
    bytes.extend_from_slice(&[2; 32]);
    bytes.extend_from_slice(&1u64.to_le_bytes());
    assert_eq!(VersionVector::decode(&bytes).unwrap().encode(), bytes);

    // Out of order, or with a count of zero, they are not what is encoded.
    let mut swapped = bytes[..4].to_vec();
    swapped.extend_from_slice(&bytes[44..]);
    swapped.extend_from_slice(&bytes[4..44]);
    assert_eq!(VersionVector::decode(&swapped).unwrap().encode(), bytes);
    let mut zero = bytes.clone();
    zero[36] = 0;
    assert_eq!(VersionVector::decode(&zero).unwrap().encode().len(), 44);
}
