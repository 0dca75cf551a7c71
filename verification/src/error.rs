//! Errors reported by the executive.

use vstd::prelude::*;

verus! {

/// A fault in the static configuration, found at startup. None of these is
/// recoverable: the task set and the clock are fixed for the process lifetime.
#[derive(Clone, Copy, Debug, PartialEq, Eq, Structural)]
pub enum ConfigError {
    /// The task registered as number `task` asks for a priority that is zero
    /// or above the number of levels the hardware supports.
    PriorityOutOfRange { task: usize, priority: u8 },
    /// The task registered as number `task` claims an interrupt source that an
    /// earlier task is already bound to.
    DuplicateSource { task: usize, source: u16 },
    /// The hardware counter's period is below two counts or above `2^32`.
    ClockPeriod { period: u64 },
}

/// A spawn that could not be queued. The caller decides whether to drop,
/// retry or escalate.
#[derive(Clone, Copy, Debug, PartialEq, Eq, Structural)]
pub enum SpawnError {
    /// Every invocation slot of the task is taken.
    QueueFull { task: usize },
}

} // verus!
