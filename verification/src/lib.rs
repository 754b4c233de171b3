//! A minimal cooperative task executor: resumable tasks, a yield point that
//! suspends exactly once, and a runtime that alternates between a root task
//! and a FIFO queue of background tasks.

pub mod runtime;
pub mod schedule;
pub mod task;
pub mod wake;
