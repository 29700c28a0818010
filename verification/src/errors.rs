//! Error taxonomy of the engine.

use vstd::prelude::*;

verus! {

/// Errors raised while building a calendar expression or resolving its
/// next occurrence.
#[derive(Clone, Copy, Debug, PartialEq, Eq, Structural)]
pub enum CronError {
    /// A field of the expression is malformed or out of its domain.
    ParseError,
    /// No real calendar date satisfies the expression within the bounded
    /// forward search.
    ScheduleUnsatisfiable,
}

/// Errors raised while committing or running a task graph.
#[derive(Clone, Debug)]
pub enum GraphError {
    /// The committed edge set is not acyclic.
    CycleError,
    /// The graph holds no tasks at all.
    EmptyGraph,
    /// `run` was invoked before a successful `commit`.
    NotReady,
    /// A task's handler exhausted its retry budget; the payload is the
    /// name of the failing task.
    HandlerFailure(String),
}

impl GraphError {
    /// A stable text form for each variant, usable by reporting layers.
    pub fn describe(&self) -> (r: &'static str)
        ensures
            r@ == match self {
                GraphError::CycleError => "graph has a cycle"@,
                GraphError::EmptyGraph => "graph is empty"@,
                GraphError::NotReady => "call commit() before running the graph"@,
                GraphError::HandlerFailure(_) => "a task exhausted its retries"@,
            },
    {
        match self {
            GraphError::CycleError => "graph has a cycle",
            GraphError::EmptyGraph => "graph is empty",
            GraphError::NotReady => "call commit() before running the graph",
            GraphError::HandlerFailure(_) => "a task exhausted its retries",
        }
    }
}

} // verus!
