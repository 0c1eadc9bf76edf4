//! Per-key minimum, maximum and mean over delimited text records, computed by a
//! pool of aggregator tasks that a single dispatcher feeds.
//!
//! - `record`: splits a line at its first `;` and reads the value in tenths.
//! - `router`: binds keys to worker slots in first-seen order, within a capacity.
//! - `aggregator`: the per-slot task, a state machine over sample and finish
//!   messages.
//! - `pipeline`: the dispatch loop and result collector, and a whole run.
//! - `laws`: what holds of every run.
//! - `output`: the summary line and the output file's name.
use vstd::prelude::*;

pub mod aggregator;
pub mod laws;
pub mod output;
pub mod pipeline;
pub mod record;
pub mod router;

verus! {

} // verus!
