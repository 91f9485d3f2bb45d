//! Constants shared by the whole kernel.

use vstd::prelude::*;

verus! {

/// Bytes in one page of virtual or physical memory.
pub const PAGE_SIZE: usize = 4096;

/// Number of address bits that select a byte inside a page.
pub const PAGE_SIZE_BITS: usize = 12;

/// Bytes in a thread's user stack.
pub const USER_STACK_SIZE: usize = 8192;

/// Bytes in a thread's kernel stack.
pub const KERNEL_STACK_SIZE: usize = 8192;

/// Address of the trampoline page, the last page of every address space.
pub const TRAMPOLINE: usize = usize::MAX - PAGE_SIZE + 1;

/// Address of the page that holds the main thread's trap frame.
pub const TRAP_CONTEXT: usize = TRAMPOLINE - PAGE_SIZE;

/// The most threads a process can have; each has a kernel stack of its own.
pub const MAX_THREADS: usize = 16;

/// The stride numerator: a dispatch advances a thread by `BIG_STRIDE / priority`.
pub const BIG_STRIDE: usize = 0x100000;

/// The lowest priority a thread may have.
pub const PRIORITY_MIN: isize = 2;

/// The priority a thread starts with.
pub const PRIORITY_INIT: isize = 16;

/// Number of slots in a thread's system-call histogram.
pub const MAX_SYSCALL_NUM: usize = 500;

/// What a blocking acquire returns when granting it could deadlock.
pub const DEADLOCK: isize = -0xDEAD;

} // verus!
