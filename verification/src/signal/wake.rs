//! Waking a device that is not connected.
//!
//! The rendezvous service can tell a device something only while it is holding
//! a socket open, and a phone does not hold one. A push notification is the way
//! through. What is sent is an empty poke: no filenames, no sizes, no counts,
//! not even which peer, because the device already knows how to find out once it
//! is awake.

use std::sync::Arc;
use vstd::prelude::*;

verus! {

/// Somewhere a sleeping device can be reached.
///
/// Opaque: it is whatever the platform's push service issued, and the only thing
/// done with it is handing it back to that service.
pub type WakeToken = String;

/// How a device that is not connected gets told to wake up.
pub trait Waker: Send + Sync {
    /// Poke the device behind this token.
    ///
    /// Carries nothing. A woken device syncs with the peers it already knows
    /// about, so there is nothing useful to put in the message and every reason
    /// not to.
    ///
    /// Best effort and non-blocking. A failure means a device syncs on its own
    /// schedule instead.
    fn wake(&self, token: &WakeToken);
}

/// The default: nobody can be woken.
///
/// A service configured with no push credentials behaves exactly as it would
/// without push: devices sync when they next look.
pub struct NoWaker;

impl Waker for NoWaker {
    fn wake(&self, token: &WakeToken) {
    }
}

/// The default waker, to be shared by the whole service: none.
pub fn none() -> (waker: Arc<NoWaker>)
    ensures
        *waker == NoWaker,
{
    Arc::new(NoWaker)
}

} // verus!
