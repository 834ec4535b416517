//! Files in, files out, with deduplication underneath.

use vstd::prelude::*;

pub mod activity;
pub mod answers;
pub mod cas;
pub mod chunker;
pub mod db;
pub mod error;
pub mod gc;
pub mod health;
pub mod holding;
pub mod laws;
pub mod lifecycle;
pub mod listing;
pub mod peers;
pub mod promises;
pub mod queries;
pub mod reading;
pub mod refcount;
pub mod removal;
pub mod rows;
pub mod sealing;
pub mod sending;
pub mod store;
pub mod vault;
pub mod writing;

verus! {

} // verus!
