//! A minimal real-time executive for a single-core microcontroller.
//!
//! The crate holds the decisions of the executive as verified code over plain
//! values. Hardware access stays with the caller, which hands in counter
//! readings and interrupt sources and carries out the actions that come back.
//!
//! - [`tick`]: values of the monotonic counter, with wraparound arithmetic.
//! - [`clock`]: the monotonic clock, which widens a hardware counter to a
//!   tick and arms a wake for a future tick.
//! - [`table`]: the priority dispatch table, the fixed task set.
//! - [`lock`]: the resource lock manager, which raises the effective
//!   priority to a resource's ceiling while the resource is held.
//! - [`queue`]: the queues of invocations that are ready or wait for their
//!   tick.
//! - [`model`]: the scheduler's state as a mathematical value, its steps,
//!   and what holds at every step.
//! - [`runtime`]: the scheduler, which decides what the processor does next.
//! - [`button`]: the state of the push button that switches the indicator.
//! - [`error`]: the errors of configuration and of spawning.

pub mod button;
pub mod clock;
pub mod error;
pub mod lock;
pub mod model;
pub mod queue;
pub mod runtime;
pub mod table;
pub mod tick;
