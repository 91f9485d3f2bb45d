//! The thread control block and the register images it carries.

use vstd::prelude::*;
use crate::config::{PRIORITY_INIT, PRIORITY_MIN};

verus! {

/// Where a thread stands in its life.
#[derive(Copy, Clone, Debug, PartialEq, Eq, Structural)]
pub enum TaskStatus {
    UnInit,
    Ready,
    Running,
    Blocked,
    Exited,
}

/// The registers a context switch saves: return address, stack pointer and
/// the callee-saved registers.
#[derive(Copy, Clone)]
pub struct TaskContext {
    pub ra: usize,
    pub sp: usize,
    pub s: [usize; 12],
}

impl TaskContext {
    /// A context with every register cleared.
    pub fn zero_init() -> (cx: Self)
        ensures
            cx.ra == 0,
            cx.sp == 0,
            forall|i: int| 0 <= i < 12 ==> cx.s[i] == 0,
    {
        TaskContext { ra: 0, sp: 0, s: [0usize; 12] }
    }

    /// The context of a thread that resumes at `trap_return` on the kernel
    /// stack whose top is `kstack_ptr`.
    pub fn goto_trap_return(trap_return: usize, kstack_ptr: usize) -> (cx: Self)
        ensures
            cx.ra == trap_return,
            cx.sp == kstack_ptr,
            forall|i: int| 0 <= i < 12 ==> cx.s[i] == 0,
    {
        TaskContext { ra: trap_return, sp: kstack_ptr, s: [0usize; 12] }
    }
}

/// Index of the stack pointer among the general registers.
pub const REG_SP: usize = 2;

/// Index of the register that carries a system call's result and first argument.
pub const REG_A0: usize = 10;

/// Index of the register that carries the second argument.
pub const REG_A1: usize = 11;

/// A thread's user-mode register image at its entry to the kernel.
#[derive(Copy, Clone)]
pub struct TrapContext {
    /// The general registers.
    pub x: [usize; 32],
    /// The status word; zero returns to user mode.
    pub sstatus: usize,
    /// Where user code resumes.
    pub sepc: usize,
    /// Token of the kernel's address space.
    pub kernel_satp: usize,
    /// Top of this thread's kernel stack.
    pub kernel_sp: usize,
    /// Address of the kernel's trap handler.
    pub trap_handler: usize,
}

impl TrapContext {
    /// The image of a thread about to start user code at `entry` with its
    /// stack pointer at `sp`: all other general registers are zero.
    pub fn app_init_context(
        entry: usize,
        sp: usize,
        kernel_satp: usize,
        kernel_sp: usize,
        trap_handler: usize,
    ) -> (cx: Self)
        ensures
            cx.sepc == entry,
            cx.sstatus == 0,
            cx.kernel_satp == kernel_satp,
            cx.kernel_sp == kernel_sp,
            cx.trap_handler == trap_handler,
            cx.x[REG_SP as int] == sp,
            forall|i: int| 0 <= i < 32 && i != REG_SP ==> cx.x[i] == 0,
    {
        let mut cx = TrapContext {
            x: [0usize; 32],
            sstatus: 0,
            sepc: entry,
            kernel_satp,
            kernel_sp,
            trap_handler,
        };
        cx.x[REG_SP] = sp;
        cx
    }
}

/// A thread as the scheduler and the wait queues see it.
///
/// A control block is a plain value that lives in exactly one place at a
/// time: the processor while it runs, the ready queue while it is runnable,
/// or the wait queue or timer it is blocked on.
pub struct TaskControlBlock {
    /// The process the thread belongs to.
    pub pid: usize,
    /// The thread's identifier within its process.
    pub tid: usize,
    pub task_status: TaskStatus,
    pub task_cx: TaskContext,
    pub trap_cx: TrapContext,
    /// Virtual time: the thread with the smallest stride runs next.
    pub stride: usize,
    /// Share of the processor; never below the minimum priority.
    pub priority: isize,
    /// How often the thread made each system call.
    pub syscall_times: [u32; 500],
    /// Time of the thread's first run in microseconds; zero before it.
    pub start_time: usize,
}

impl TaskControlBlock {
    /// The priority is at least the minimum, and both identifiers can be
    /// handed to user code as non-negative results.
    pub open spec fn wf(&self) -> bool {
        &&& self.priority >= PRIORITY_MIN
        &&& self.pid <= isize::MAX
        &&& self.tid <= isize::MAX
    }

    /// A ready thread that has not run yet.
    pub fn new(pid: usize, tid: usize, task_cx: TaskContext, trap_cx: TrapContext) -> (task: Self)
        requires
            pid <= isize::MAX,
            tid <= isize::MAX,
        ensures
            task.wf(),
            task.pid == pid,
            task.tid == tid,
            task.task_status == TaskStatus::Ready,
            task.task_cx == task_cx,
            task.trap_cx == trap_cx,
            task.stride == 0,
            task.priority == PRIORITY_INIT,
            task.start_time == 0,
            forall|i: int| 0 <= i < 500 ==> task.syscall_times[i] == 0,
    {
        TaskControlBlock {
            pid,
            tid,
            task_status: TaskStatus::Ready,
            task_cx,
            trap_cx,
            stride: 0,
            priority: PRIORITY_INIT,
            syscall_times: [0u32; 500],
            start_time: 0,
        }
    }

    /// Sets the priority; the caller has checked it against the minimum.
    pub fn set_priority(&mut self, priority: isize)
        requires
            priority >= PRIORITY_MIN,
        ensures
            *final(self) == (TaskControlBlock { priority, ..*old(self) }),
    {
        self.priority = priority;
    }

    /// Counts one more call of system call `id`; identifiers outside the
    /// histogram are not counted, and a full counter stays full.
    pub fn record_syscall(&mut self, id: usize)
        ensures
            final(self).syscall_times@ == (if id < 500 {
                old(self).syscall_times@.update(
                    id as int,
                    if old(self).syscall_times[id as int] < u32::MAX {
                        (old(self).syscall_times[id as int] + 1) as u32
                    } else {
                        u32::MAX
                    },
                )
            } else {
                old(self).syscall_times@
            }),
            final(self).same_but_histogram(*old(self)),
    {
        if id < 500 {
            let n = self.syscall_times[id];
            self.syscall_times[id] = n.saturating_add(1);
        }
    }

    /// `self` and `other` agree in everything but the system-call histogram.
    pub open spec fn same_but_histogram(&self, other: TaskControlBlock) -> bool {
        &&& self.pid == other.pid
        &&& self.tid == other.tid
        &&& self.task_status == other.task_status
        &&& self.task_cx == other.task_cx
        &&& self.trap_cx == other.trap_cx
        &&& self.stride == other.stride
        &&& self.priority == other.priority
        &&& self.start_time == other.start_time
    }
}

} // verus!
