//! Blocking primitives and the bookkeeping that guards them against deadlock.

pub mod banker;
pub mod condvar;
pub mod mutex;
pub mod semaphore;
