//! A dependency-aware task scheduler.
//!
//! Work items linked by "must happen before" edges are organised into levels:
//! batches whose prerequisites lie entirely in earlier batches. The store
//! enforces insertion-order acyclicity, the planner computes the level
//! partition, the executor settles every item level by level and reports
//! outcomes through a bounded notification channel.

pub mod channel;
pub mod executor;
pub mod planner;
pub mod store;

use vstd::prelude::*;

verus! {

/// Kind of order a caller's payload may describe. The scheduler itself never
/// inspects payloads; this type exists for producers and tests that schedule
/// buy/sell work through the store.
#[derive(Clone, Copy, Debug, PartialEq, Eq, Structural)]
pub enum OrderType {
    Buy,
    Sell,
}

} // verus!
