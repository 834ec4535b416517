//! Private file sync.
//!
//! Files stay on the user's own devices and move directly between them. This
//! library is the part that decides: which of two versions wins, which chunks to
//! write and which may go, which events are a change, who is introduced to whom.
//! It does no I/O. Times, bytes and messages come in as values, and what is to be
//! done goes out as values.

use vstd::prelude::*;

pub mod bench;
pub mod bytes;
pub mod digest;
pub mod keyed;
pub mod order;
pub mod probe;
pub mod signal;
pub mod size;
pub mod storage;
pub mod sync;
pub mod text;
pub mod tray;
pub mod watcher;

verus! {

} // verus!
