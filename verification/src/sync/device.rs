//! Device identity.

use vstd::prelude::*;

use crate::order;
use crate::order::{bytes_before, same_bytes};
use crate::text;
use crate::text::hex_of;

verus! {

/// A device's stable identity: 32 opaque bytes.
///
/// Devices are ordered by these bytes, so that every device lists the others
/// in the same order.
#[derive(Debug, Clone, Copy, Eq, Hash)]
pub struct DeviceId([u8; 32]);

impl View for DeviceId {
    type V = Seq<u8>;

    closed spec fn view(&self) -> Seq<u8> {
        self.0@
    }
}

/// Two devices with the same bytes are the same device, and an identity is
/// 32 bytes long.
pub proof fn identity_is_its_bytes(a: DeviceId, b: DeviceId)
    ensures
        a@ == b@ ==> a == b,
        a@.len() == 32,
{
    if a@ == b@ {
        assert(a.0 =~= b.0);
    }
}

impl PartialEq for DeviceId {
    fn eq(&self, other: &Self) -> (same: bool) {
        proof {
            identity_is_its_bytes(*self, *other);
        }
        same_bytes(&self.0, &other.0)
    }
}

impl vstd::std_specs::cmp::PartialEqSpecImpl for DeviceId {
    open spec fn obeys_eq_spec() -> bool {
        true
    }

    open spec fn eq_spec(&self, other: &Self) -> bool {
        self@ == other@
    }
}

impl PartialOrd for DeviceId {
    fn partial_cmp(&self, other: &Self) -> (order: Option<std::cmp::Ordering>) {
        proof {
            order::bytes_order(self@, other@, self@);
        }
        if bytes_before(&self.0, &other.0) {
            Some(std::cmp::Ordering::Less)
        } else if bytes_before(&other.0, &self.0) {
            Some(std::cmp::Ordering::Greater)
        } else {
            Some(std::cmp::Ordering::Equal)
        }
    }
}

impl vstd::std_specs::cmp::PartialOrdSpecImpl for DeviceId {
    open spec fn obeys_partial_cmp_spec() -> bool {
        true
    }

    open spec fn partial_cmp_spec(&self, other: &Self) -> Option<std::cmp::Ordering> {
        if order::bytes_precede(self@, other@) {
            Some(std::cmp::Ordering::Less)
        } else if order::bytes_precede(other@, self@) {
            Some(std::cmp::Ordering::Greater)
        } else {
            Some(std::cmp::Ordering::Equal)
        }
    }
}

impl DeviceId {
    pub fn from_bytes(bytes: [u8; 32]) -> (device: Self)
        ensures
            device@ == bytes@,
    {
        DeviceId(bytes)
    }

    pub fn as_bytes(&self) -> (bytes: &[u8; 32])
        ensures
            bytes@ == self@,
    {
        &self.0
    }

    /// Short form for display and for conflict filenames: the first four bytes
    /// as eight hexadecimal digits.
    ///
    /// Enough to tell a handful of a user's own devices apart in a filename.
    /// It is not enough to be secure against collision, and nothing may rely on
    /// it for identity.
    pub fn short(&self) -> (text: String)
        ensures
            text@ == text::hex(self@.take(4)),
    {
        let head: [u8; 4] = [self.0[0], self.0[1], self.0[2], self.0[3]];
        assert(head@ =~= self@.take(4));
        hex_of(&head)
    }

    /// The full identity as 64 hexadecimal digits.
    pub fn to_string(&self) -> (text: String)
        ensures
            text@ == text::hex(self@),
    {
        hex_of(&self.0)
    }
}

} // verus!
