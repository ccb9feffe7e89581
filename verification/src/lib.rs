//! A minimal single-threaded cooperative task executor with a channel-based
//! ready queue and a per-call timer primitive.
//!
//! The executor owns a FIFO ready queue of task identifiers. Spawning a task
//! enqueues it; the run loop pops ready tasks and resumes them. A timer leaf
//! becomes ready once the clock reaches its deadline, and arranges for a
//! background waiter to re-enqueue the suspended task on expiry.

pub mod executor;
pub mod queue;
pub mod timer;
