//! The system calls.

pub mod fs;
pub mod process;
pub mod sync;
pub mod thread;
