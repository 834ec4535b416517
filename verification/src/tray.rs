//! What the interface in the corner of the screen says.
//!
//! An interface should display the engine, not reimplement it. What it displays
//! is decided here, as text and pixels; drawing them is left to whatever the
//! desktop offers.

use vstd::prelude::*;

pub mod host;
pub mod icon;
pub mod ui;
pub mod window;

verus! {

} // verus!
