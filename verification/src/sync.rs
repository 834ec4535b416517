//! Deciding, without a server, which version of each file is current.

use vstd::prelude::*;

pub mod calendar;
pub mod clock;
pub mod convergence;
pub mod decisions;
pub mod device;
pub mod reconcile;
pub mod resolve;
pub mod version;

verus! {

} // verus!
