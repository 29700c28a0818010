//! A lightweight workflow engine: a calendar-expression trigger calculus
//! (cron-style five-field expressions resolved to their next occurrence)
//! and a dependency-graph executor with fan-in input accumulation and a
//! retry policy, together with the client-side logic of a run-log and
//! config-cache service.

pub mod errors;
pub mod timepoint;
pub mod helpers;
pub mod unit;
pub mod expression;
pub mod task;
pub mod store;
pub mod graph;
pub mod executor;
