use qurb::sync::device::DeviceId;

#[test]
fn short_form_is_eight_hex_characters() {
    let d = DeviceId::from_bytes([0xAB; 32]);
    assert_eq!(d.short(), "abababab");
}

#[test]
fn display_is_the_full_identity() {
    let d = DeviceId::from_bytes([0x01; 32]);
    assert_eq!(d.to_string().len(), 64);
}

#[test]
fn devices_order_deterministically() {
    // Ordering matters: version vectors are encoded in device order, and
    // an unstable order would make identical state encode differently.
    let a = DeviceId::from_bytes([1; 32]);
    let b = DeviceId::from_bytes([2; 32]);
    assert!(a < b);
}
