//! Per-block task scheduling and execution engine for a blockchain indexer.
//!
//! Each block of the chain is processed by a set of named extraction tasks
//! with declared name dependencies and declared resource read/write sets.
//! The engine builds an execution plan (a topological layering of the task
//! graph), runs it stage by stage, records per-task timings, and commits or
//! rolls back the block's data-store transaction as one atomic unit.

use vstd::prelude::*;

pub mod byron;
pub mod exec;
pub mod perf;
pub mod plan;
pub mod processor;
pub mod registry;
pub mod store;
pub mod task;
pub mod txstore;

verus! {

} // verus!
