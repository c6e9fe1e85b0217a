//! Resource versioning and reconciliation engine of the orchestration daemon:
//! an append-only history of configuration snapshots with a movable head per
//! resource, an ordered event log, revert, and convergence toward a declared state.

use vstd::prelude::*;

pub mod error;
pub mod store;
pub mod events;
pub mod engine;
pub mod reconcile;
pub mod config;
pub mod laws;

verus! {

} // verus!
