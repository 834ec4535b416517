//! Reading index rows back from their stored form.

use vstd::prelude::*;

use super::chunker::ContentHash;
use crate::bytes;
use crate::sync::clock;
use crate::sync::clock::VersionVector;
use crate::sync::device::DeviceId;

verus! {

fn array_of(raw: &[u8]) -> (out: [u8; 32])
    requires
        raw@.len() == 32,
    ensures
        out@ == raw@,
{
    let mut out: [u8; 32] = [0u8; 32];
    let mut i: usize = 0;
    while i < 32
        invariant
            i <= 32,
            raw@.len() == 32,
            forall|j: int| 0 <= j < i ==> out@[j] == raw@[j],
        decreases 32 - i,
    {
        out[i] = raw[i];
        i += 1;
    }
    assert(out@ =~= raw@);
    out
}

/// Rebuild a hash from its 32-byte stored representation.
///
/// A short row means the index was written by something that is not this code,
/// which is not a condition we can sensibly continue from.
pub fn to_hash(raw: &[u8]) -> (hash: ContentHash)
    requires
        raw@.len() == 32,
    ensures
        hash@ == raw@,
{
    array_of(raw)
}

/// Rebuild a device id, if there are 32 bytes of it.
pub fn to_device(raw: &[u8]) -> (device: Option<DeviceId>)
    ensures
        match device {
            Some(d) => raw@.len() == 32 && d@ == raw@,
            None => raw@.len() != 32,
        },
{
    if raw.len() == 32 {
        Some(DeviceId::from_bytes(array_of(raw)))
    } else {
        None
    }
}

/// Rebuild a version vector.
///
/// One that will not decode means the row was written by something that is not
/// this code. Treating it as empty is the conservative reading: the version looks
/// maximally old, so it loses to anything real rather than silently winning.
pub fn to_vector(encoded: &[u8]) -> (vector: VersionVector)
    ensures
        vector@ == if encoded@.len() >= 4 && encoded@.len() == clock::encoded_len(encoded@) {
            clock::decoded(encoded@, bytes::le_at(encoded@, 0, 4))
        } else {
            Map::empty()
        },
{
    match VersionVector::decode(encoded) {
        Ok(vector) => vector,
        Err(_) => VersionVector::new(),
    }
}

} // verus!
