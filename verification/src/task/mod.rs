//! Threads, processes, identifiers and the scheduler.

pub mod id;
pub mod manager;
pub mod process;
pub mod task;
