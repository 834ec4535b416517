//! Filesystem watching.
//!
//! Reports the changes a *user* made, not the events a filesystem emitted. Those
//! are very different things: one editor save produces a dozen events across two
//! paths, and a large copy produces a write event every few milliseconds for as
//! long as it runs.
//!
//! ```text
//!   native events        raw, noisy, per-syscall
//!         |
//!         +- ignore      drop the store's own writes, VCS metadata, scratch files
//!         +- debounce    collapse bursts; hold until a path goes quiet
//!         +- settle      look again before releasing, so nothing is read mid-write
//!         +- emit        settled changes, or a demand to rescan
//! ```
//!
//! Three failure modes shape the design, all of them silent if unhandled: reading
//! a file that is still being written, watching our own chunk store, and events
//! that the platform dropped.

use vstd::prelude::*;

pub mod debounce;
pub mod ignore;
pub mod paths;
pub mod reports;
pub mod scan;
pub mod settle;

verus! {

} // verus!
