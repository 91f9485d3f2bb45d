//! The core of a small teaching kernel, as a verified state machine:
//! identity allocators, address spaces, the stride scheduler, the blocking
//! synchronization primitives with their banker's-algorithm bookkeeping, and
//! the system calls that tie them together.

pub mod config;
pub mod fs;
pub mod kernel;
pub mod loader;
pub mod mm;
pub mod sync;
pub mod syscall;
pub mod table;
pub mod task;
