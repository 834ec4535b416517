//! Finding the other device.
//!
//! Two devices behind home routers have no address the other can dial, and hole
//! punching needs both to send at roughly the same moment. This is the service
//! that makes both possible: it remembers where each device says it is, and
//! tells two of them to punch at once.
//!
//! No filenames, no chunks, no keys: nothing from the data plane passes through
//! here. It does not even learn whose devices these are: the identifiers a
//! device announces under are derived from a key the service does not hold, so
//! it matches opaque values and forwards addresses.

use vstd::prelude::*;

pub mod address;
pub mod client;
pub mod error;
pub mod fcm;
pub mod introductions;
pub mod message;
pub mod rate;
pub mod rendezvous;
pub mod server;
pub mod tls;
pub mod wake;

verus! {

} // verus!
