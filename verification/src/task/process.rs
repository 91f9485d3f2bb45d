//! The process control block.

use vstd::prelude::*;
use crate::config::{DEADLOCK, MAX_THREADS, PAGE_SIZE, PRIORITY_INIT, TRAP_CONTEXT, USER_STACK_SIZE};
use crate::mm::{
    ceil_page, copy_bytes, floor_page, fresh_area, image_end, image_space, lemma_image_space,
    lemma_overlaps_by_areas, lemma_segments_any_token, lemma_with_bytes_same, MemorySet,
    MemorySetView, page_above, page_of, PERM_R, PERM_U, PERM_W, ProgramImage, segment_views,
    SegmentView, trampoline_area, user_stack_base, with_segments,
};
use crate::sync::banker::{LedgerView, ResourceLedger};
use crate::sync::condvar::Condvar;
use crate::sync::mutex::Mutex;
use crate::sync::semaphore::Semaphore;
use crate::table::{first_free, free_slot, lemma_free_slot, taken};
use crate::task::id::RecycleAllocator;
use crate::task::task::{
    REG_A0, REG_A1, REG_SP, TaskContext, TaskControlBlock, TaskStatus, TrapContext,
};
use vstd::bytes::{spec_u64_to_le_bytes, u64_to_le_bytes};

verus! {

/// Handle of the console's input in the table of open files.
pub const STDIN: usize = 0;

/// Handle of the console's output in the table of open files.
pub const STDOUT: usize = 1;

/// What the kernel knows of itself and hands to every new thread.
#[derive(Clone, Copy)]
pub struct KernelContext {
    /// Token of the kernel's address space.
    pub kernel_satp: usize,
    /// Address of the trap handler.
    pub trap_handler: usize,
    /// Address at which a new thread leaves the kernel.
    pub trap_return: usize,
}

/// The user resources of one thread of a process.
#[derive(Clone, Copy, PartialEq, Eq, Structural)]
pub struct TaskUserRes {
    pub tid: usize,
    /// Address of the bottom of the thread's user stack.
    pub ustack_base: usize,
}

/// `task` is a thread of process `pid` that has not run yet: it is ready,
/// with stride 0, the initial priority and an empty histogram, and it will
/// leave the kernel through the trap return on the kernel stack with top
/// `kernel_sp`.
pub open spec fn is_new_thread(
    task: TaskControlBlock,
    pid: usize,
    tid: usize,
    kernel: KernelContext,
    kernel_sp: usize,
) -> bool {
    &&& task.wf()
    &&& task.pid == pid
    &&& task.tid == tid
    &&& task.task_status == TaskStatus::Ready
    &&& task.stride == 0
    &&& task.priority == PRIORITY_INIT
    &&& task.start_time == 0
    &&& forall|i: int| 0 <= i < 500 ==> task.syscall_times[i] == 0
    &&& task.task_cx.ra == kernel.trap_return
    &&& task.task_cx.sp == kernel_sp
    &&& forall|i: int| 0 <= i < 12 ==> task.task_cx.s[i] == 0
    &&& task.trap_cx.kernel_sp == kernel_sp
}

/// Every thread of the queue belongs to process `pid` and has a row in the
/// bookkeeping of a process with `threads` threads.
pub open spec fn waiters_within(q: Seq<TaskControlBlock>, pid: int, threads: int) -> bool {
    forall|i: int| 0 <= i < q.len() ==> (#[trigger] q[i]).pid == pid && q[i].tid < threads
}

/// The mutable state of a process.
pub struct ProcessControlBlockInner {
    pub is_zombie: bool,
    pub memory_set: MemorySet,
    /// The parent's identifier; the initial process has none.
    pub parent: Option<usize>,
    /// The identifiers of the children.
    pub children: Vec<usize>,
    pub exit_code: i32,
    /// Handles of the open files, by descriptor.
    pub fd_table: Vec<Option<usize>>,
    /// The user resources of the threads, by thread identifier.
    pub tasks: Vec<Option<TaskUserRes>>,
    pub task_res_allocator: RecycleAllocator,
    pub mutex_list: Vec<Option<Mutex>>,
    pub semaphore_list: Vec<Option<Semaphore>>,
    pub condvar_list: Vec<Option<Condvar>>,
    /// Bookkeeping of the mutexes: every counter is 0 or 1.
    pub mutex_ledger: ResourceLedger,
    /// Bookkeeping of the semaphores.
    pub semaphore_ledger: ResourceLedger,
    pub deadlock_detect: bool,
}

impl ProcessControlBlockInner {
    /// The parts are well formed and fit together: the thread identifiers in
    /// use are those of the slots that are taken, each ledger has a row per
    /// thread slot and a column per resource of its kind, and whoever waits
    /// in a queue of the process is one of its threads.
    pub open spec fn wf(&self, pid: int) -> bool {
        &&& self.memory_set.wf()
        &&& self.task_res_allocator.wf()
        &&& forall|tid: nat|
            !(#[trigger] self.task_res_allocator.is_free(tid)) <==> taken(self.tasks@, tid as int)
        &&& self.mutex_ledger.wf()
        &&& self.mutex_ledger@.limit == 1
        &&& self.semaphore_ledger.wf()
        &&& self.semaphore_ledger@.limit == usize::MAX
        &&& self.mutex_ledger@.threads() == self.tasks@.len()
        &&& self.semaphore_ledger@.threads() == self.tasks@.len()
        &&& self.mutex_ledger@.resources() == self.mutex_list@.len()
        &&& self.semaphore_ledger@.resources() == self.semaphore_list@.len()
        &&& forall|i: int|
            0 <= i < self.mutex_list@.len() ==> match #[trigger] self.mutex_list@[i] {
                Some(m) => m.wf() && waiters_within(m.waiters(), pid, self.tasks@.len() as int),
                None => true,
            }
        &&& forall|i: int|
            0 <= i < self.semaphore_list@.len() ==> match #[trigger] self.semaphore_list@[i] {
                Some(s) => s.wf() && waiters_within(s.waiters(), pid, self.tasks@.len() as int),
                None => true,
            }
        &&& forall|i: int|
            0 <= i < self.condvar_list@.len() ==> match #[trigger] self.condvar_list@[i] {
                Some(c) => c.wf() && waiters_within(c.waiters(), pid, self.tasks@.len() as int),
                None => true,
            }
    }

    /// The token of the process's address space.
    pub fn get_user_token(&self) -> (token: usize)
        ensures
            token == self.memory_set@.token,
    {
        self.memory_set.token()
    }

    /// The smallest descriptor that is free; the table grows by one free
    /// slot when all are taken.
    pub fn alloc_fd(&mut self) -> (fd: usize)
        ensures
            fd == free_slot(old(self).fd_table@),
            fd < final(self).fd_table@.len(),
            final(self).fd_table@[fd as int] is None,
            forall|i: int| 0 <= i < fd ==> old(self).fd_table@[i] is Some,
            final(self).fd_table@ == (if fd < old(self).fd_table@.len() {
                old(self).fd_table@
            } else {
                old(self).fd_table@.push(None)
            }),
            final(self).same_but_files(*old(self)),
    {
        let fd = first_free(&self.fd_table);
        proof {
            lemma_free_slot(self.fd_table@);
        }
        if fd == self.fd_table.len() {
            self.fd_table.push(None);
        }
        fd
    }

    /// `self` and `other` agree in everything but the table of descriptors.
    pub open spec fn same_but_files(&self, other: Self) -> bool {
        &&& self.is_zombie == other.is_zombie
        &&& self.memory_set == other.memory_set
        &&& self.parent == other.parent
        &&& self.children == other.children
        &&& self.exit_code == other.exit_code
        &&& self.tasks == other.tasks
        &&& self.task_res_allocator == other.task_res_allocator
        &&& self.mutex_list == other.mutex_list
        &&& self.semaphore_list == other.semaphore_list
        &&& self.condvar_list == other.condvar_list
        &&& self.mutex_ledger == other.mutex_ledger
        &&& self.semaphore_ledger == other.semaphore_ledger
        &&& self.deadlock_detect == other.deadlock_detect
    }

    /// `self` and `other` agree in everything but the synchronization
    /// resources and their bookkeeping.
    pub open spec fn same_but_sync(&self, other: Self) -> bool {
        &&& self.is_zombie == other.is_zombie
        &&& self.memory_set == other.memory_set
        &&& self.parent == other.parent
        &&& self.children == other.children
        &&& self.exit_code == other.exit_code
        &&& self.fd_table == other.fd_table
        &&& self.tasks == other.tasks
        &&& self.task_res_allocator == other.task_res_allocator
        &&& self.deadlock_detect == other.deadlock_detect
    }

    /// Hands out the smallest free thread identifier.
    pub fn alloc_tid(&mut self) -> (tid: usize)
        requires
            old(self).task_res_allocator.wf(),
            !old(self).task_res_allocator.exhausted(),
        ensures
            final(self).task_res_allocator.wf(),
            old(self).task_res_allocator.is_free(tid as nat),
            forall|j: nat| j < tid ==> !old(self).task_res_allocator.is_free(j),
            forall|j: nat|
                final(self).task_res_allocator.is_free(j) == (old(self).task_res_allocator.is_free(
                    j,
                ) && j != tid),
            final(self).same_but_tids(*old(self)),
    {
        self.task_res_allocator.alloc_id()
    }

    /// Takes back a thread identifier that is in use.
    pub fn dealloc_tid(&mut self, tid: usize)
        requires
            old(self).task_res_allocator.wf(),
            !old(self).task_res_allocator.is_free(tid as nat),
        ensures
            final(self).task_res_allocator.wf(),
            forall|j: nat|
                final(self).task_res_allocator.is_free(j) == (old(self).task_res_allocator.is_free(
                    j,
                ) || j == tid),
            final(self).same_but_tids(*old(self)),
    {
        self.task_res_allocator.dealloc_id(tid)
    }

    /// `self` and `other` agree in everything but the allocator of thread identifiers.
    pub open spec fn same_but_tids(&self, other: Self) -> bool {
        &&& self.is_zombie == other.is_zombie
        &&& self.memory_set == other.memory_set
        &&& self.parent == other.parent
        &&& self.children == other.children
        &&& self.exit_code == other.exit_code
        &&& self.fd_table == other.fd_table
        &&& self.tasks == other.tasks
        &&& self.mutex_list == other.mutex_list
        &&& self.semaphore_list == other.semaphore_list
        &&& self.condvar_list == other.condvar_list
        &&& self.mutex_ledger == other.mutex_ledger
        &&& self.semaphore_ledger == other.semaphore_ledger
        &&& self.deadlock_detect == other.deadlock_detect
    }

    /// Number of thread slots of the process.
    pub fn thread_count(&self) -> (n: usize)
        ensures
            n == self.tasks@.len(),
    {
        self.tasks.len()
    }

    /// The user resources of thread `tid`.
    pub fn get_task(&self, tid: usize) -> (res: TaskUserRes)
        requires
            tid < self.tasks@.len(),
            self.tasks@[tid as int] is Some,
        ensures
            Some(res) == self.tasks@[tid as int],
    {
        self.tasks[tid].unwrap()
    }

    /// The banker's algorithm on the mutexes: 0 when the recorded state is
    /// safe, the deadlock sentinel otherwise.
    pub fn check_deadlock_mutex(&self) -> (code: isize)
        requires
            self.mutex_ledger.wf(),
        ensures
            code == (if self.mutex_ledger@.is_safe() {
                0isize
            } else {
                DEADLOCK
            }),
    {
        self.mutex_ledger.check_deadlock()
    }

    /// The banker's algorithm on the semaphores: 0 when the recorded state
    /// is safe, the deadlock sentinel otherwise.
    pub fn check_deadlock_semaphore(&self) -> (code: isize)
        requires
            self.semaphore_ledger.wf(),
        ensures
            code == (if self.semaphore_ledger@.is_safe() {
                0isize
            } else {
                DEADLOCK
            }),
    {
        self.semaphore_ledger.check_deadlock()
    }

    /// The state of a process at its birth: one thread, the console on the
    /// first three descriptors, no child, no synchronization resource.
    pub open spec fn is_newborn(&self, parent: Option<usize>, ustack_base: usize) -> bool {
        &&& !self.is_zombie
        &&& self.parent == parent
        &&& self.children@ == Seq::<usize>::empty()
        &&& self.exit_code == 0
        &&& self.tasks@ == seq![Some(TaskUserRes { tid: 0, ustack_base })]
        &&& forall|j: nat| self.task_res_allocator.is_free(j) == (j != 0)
        &&& self.has_fresh_sync()
        &&& !self.deadlock_detect
    }

    /// No synchronization resource exists, and the ledgers have one row and
    /// no column.
    pub open spec fn has_fresh_sync(&self) -> bool {
        &&& self.mutex_list@ == Seq::<Option<Mutex>>::empty()
        &&& self.semaphore_list@ == Seq::<Option<Semaphore>>::empty()
        &&& self.condvar_list@ == Seq::<Option<Condvar>>::empty()
        &&& self.mutex_ledger@ == fresh_ledger(1)
        &&& self.semaphore_ledger@ == fresh_ledger(usize::MAX as nat)
    }

    /// A newborn process around the address space `memory_set`, with the
    /// given open files.
    fn newborn(
        memory_set: MemorySet,
        parent: Option<usize>,
        fd_table: Vec<Option<usize>>,
        ustack_base: usize,
        pid: Ghost<int>,
    ) -> (inner: Self)
        requires
            memory_set.wf(),
        ensures
            inner.wf(pid@),
            inner.is_newborn(parent, ustack_base),
            inner.memory_set == memory_set,
            inner.fd_table == fd_table,
    {
        let mut tids = RecycleAllocator::new();
        let ghost unused = tids;
        assert(!tids.exhausted()) by {
            assert(tids.is_free(0));
        }
        let tid = tids.alloc_id();
        assert(tid == 0) by {
            if tid > 0 {
                assert(unused.is_free(0));
            }
        }
        let mut tasks: Vec<Option<TaskUserRes>> = Vec::new();
        tasks.push(Some(TaskUserRes { tid: 0, ustack_base }));
        let (mutex_ledger, semaphore_ledger) = fresh_ledgers();
        let inner = ProcessControlBlockInner {
            is_zombie: false,
            memory_set,
            parent,
            children: Vec::new(),
            exit_code: 0,
            fd_table,
            tasks,
            task_res_allocator: tids,
            mutex_list: Vec::new(),
            semaphore_list: Vec::new(),
            condvar_list: Vec::new(),
            mutex_ledger,
            semaphore_ledger,
            deadlock_detect: false,
        };
        assert(inner.tasks@ =~= seq![Some(TaskUserRes { tid: 0, ustack_base })]);
        inner
    }
}

/// Address of the bottom of the user stack of thread `tid` in a process
/// whose stacks start at `base`: the stacks lie one guard page apart.
pub open spec fn ustack_bottom(base: int, tid: int) -> int {
    base + tid * (PAGE_SIZE + USER_STACK_SIZE)
}

/// Address of the page that holds the trap frame of thread `tid`: the
/// pages lie below that of the main thread, one after the other.
pub open spec fn trap_cx_bottom(tid: int) -> int {
    TRAP_CONTEXT - tid * PAGE_SIZE
}

/// Whether the user stack and the trap frame of thread `tid` lie in the
/// address space.
pub open spec fn thread_fits(base: int, tid: int) -> bool {
    ustack_bottom(base, tid) + USER_STACK_SIZE <= usize::MAX && trap_cx_bottom(tid) >= 0
}

/// The addresses of the bottom of the user stack and of the trap frame's
/// page of thread `tid`, if they lie in the address space.
pub fn thread_ranges(base: usize, tid: usize) -> (ranges: Option<(usize, usize)>)
    requires
        tid < MAX_THREADS,
    ensures
        match ranges {
            Some((stack, trap)) => thread_fits(base as int, tid as int) && stack == ustack_bottom(
                base as int,
                tid as int,
            ) && trap == trap_cx_bottom(tid as int),
            None => !thread_fits(base as int, tid as int),
        },
{
    let off = tid * (PAGE_SIZE + USER_STACK_SIZE);
    if base > usize::MAX - USER_STACK_SIZE - off {
        return None;
    }
    Some((base + off, TRAP_CONTEXT - tid * PAGE_SIZE))
}

/// The address space `v` with the user stack and the page of the trap
/// frame of thread `tid` mapped to fresh frames.
pub open spec fn with_thread(v: MemorySetView, base: int, tid: int) -> MemorySetView {
    let stack = ustack_bottom(base, tid);
    let trap = trap_cx_bottom(tid);
    v.push(
        fresh_area(page_of(stack), page_above(stack + USER_STACK_SIZE), PERM_R | PERM_W | PERM_U),
    ).push(fresh_area(page_of(trap), page_above(trap + PAGE_SIZE), PERM_R | PERM_W))
}

/// Whether the user stack and the page of the trap frame of thread `tid`
/// can be mapped into `v`: the thread fits, and the pages are free.
pub open spec fn thread_mappable(v: MemorySetView, base: int, tid: int) -> bool {
    let stack = ustack_bottom(base, tid);
    let trap = trap_cx_bottom(tid);
    &&& thread_fits(base, tid)
    &&& !v.overlaps(page_of(stack), page_above(stack + USER_STACK_SIZE))
    &&& !v.overlaps(page_of(trap), page_above(trap + PAGE_SIZE))
    &&& page_above(stack + USER_STACK_SIZE) <= page_of(trap)
}

/// The address space `v` without the user stack and without the page of
/// the trap frame of thread `tid`, as far as they are mapped in full.
pub open spec fn without_thread(v: MemorySetView, base: int, tid: int) -> MemorySetView {
    if !thread_fits(base, tid) {
        v
    } else {
        let stack = ustack_bottom(base, tid);
        let trap = trap_cx_bottom(tid);
        let (s1, e1) = (page_of(stack), page_above(stack + USER_STACK_SIZE));
        let (s2, e2) = (page_of(trap), page_above(trap + PAGE_SIZE));
        let w = if s1 < e1 && v.all_mapped(s1, e1) {
            v.carve(s1, e1)
        } else {
            v
        };
        if s2 < e2 && w.all_mapped(s2, e2) {
            w.carve(s2, e2)
        } else {
            w
        }
    }
}

impl ProcessControlBlockInner {
    /// Maps the user stack and the page of the trap frame of thread `tid`.
    /// Returns false, changing nothing, if they cannot be mapped.
    pub fn alloc_user_res(&mut self, base: usize, tid: usize) -> (ok: bool)
        requires
            old(self).memory_set.wf(),
            tid < MAX_THREADS,
        ensures
            final(self).memory_set.wf(),
            ok == thread_mappable(old(self).memory_set@, base as int, tid as int),
            final(self).memory_set@ == (if ok {
                with_thread(old(self).memory_set@, base as int, tid as int)
            } else {
                old(self).memory_set@
            }),
            !ok ==> *final(self) == *old(self),
            final(self).same_but_memory(*old(self)),
    {
        let (stack, trap) = match thread_ranges(base, tid) {
            Some(ranges) => ranges,
            None => {
                return false;
            },
        };
        let (s1, e1) = (floor_page(stack), ceil_page(stack + USER_STACK_SIZE));
        let (s2, e2) = (floor_page(trap), ceil_page(trap + PAGE_SIZE));
        if self.memory_set.overlaps(s1, e1) || self.memory_set.overlaps(s2, e2) || e1 > s2 {
            return false;
        }
        let ghost before = self.memory_set@;
        let stack_mapped = self.memory_set.insert_framed_area(
            stack,
            stack + USER_STACK_SIZE,
            PERM_R | PERM_W | PERM_U,
        );
        proof {
            assert(!self.memory_set@.overlaps(s2 as int, e2 as int)) by {
                if self.memory_set@.overlaps(s2 as int, e2 as int) {
                    let i = choose|i: int|
                        0 <= i < self.memory_set@.areas.len() && (
                        #[trigger] self.memory_set@.areas[i]).meets(s2 as int, e2 as int);
                    if i < before.areas.len() {
                        assert(before.areas[i].meets(s2 as int, e2 as int));
                    }
                }
            }
        }
        let trap_mapped = self.memory_set.insert_framed_area(
            trap,
            trap + PAGE_SIZE,
            PERM_R | PERM_W,
        );
        stack_mapped && trap_mapped
    }

    /// Unmaps the user stack and the page of the trap frame of thread
    /// `tid`, as far as they are mapped in full.
    pub fn dealloc_user_res(&mut self, base: usize, tid: usize)
        requires
            old(self).memory_set.wf(),
            tid < MAX_THREADS,
        ensures
            final(self).memory_set.wf(),
            final(self).memory_set@ == without_thread(old(self).memory_set@, base as int, tid as int),
            final(self).same_but_memory(*old(self)),
    {
        match thread_ranges(base, tid) {
            None => {},
            Some((stack, trap)) => {
                self.memory_set.remove_framed(stack, stack + USER_STACK_SIZE);
                self.memory_set.remove_framed(trap, trap + PAGE_SIZE);
            },
        }
    }
}

/// A ledger with the row of the main thread and no resource.
pub open spec fn fresh_ledger(limit: nat) -> LedgerView {
    LedgerView {
        limit,
        available: Seq::empty(),
        allocation: seq![Seq::empty()],
        need: seq![Seq::empty()],
    }
}

/// The two ledgers of a process with one thread and no resource.
fn fresh_ledgers() -> (ledgers: (ResourceLedger, ResourceLedger))
    ensures
        ledgers.0.wf(),
        ledgers.1.wf(),
        ledgers.0@ == fresh_ledger(1),
        ledgers.1@ == fresh_ledger(usize::MAX as nat),
{
    let mut mutexes = ResourceLedger::new(1);
    mutexes.add_thread();
    let mut semaphores = ResourceLedger::new(usize::MAX);
    semaphores.add_thread();
    proof {
        assert(mutexes@.allocation =~~= fresh_ledger(1).allocation);
        assert(mutexes@.need =~~= fresh_ledger(1).need);
        assert(semaphores@.allocation =~~= fresh_ledger(usize::MAX as nat).allocation);
        assert(semaphores@.need =~~= fresh_ledger(usize::MAX as nat).need);
    }
    (mutexes, semaphores)
}

/// The eight bytes that a machine word takes in memory.
pub open spec fn word_bytes(x: usize) -> Seq<u8> {
    spec_u64_to_le_bytes(x as u64)
}

/// Address of the vector of argument pointers on a stack with top `top`.
pub open spec fn argv_base(top: int, argc: int) -> int {
    top - (argc + 1) * 8
}

/// Address of the `i`-th argument string: the strings lie below the vector
/// of pointers, each below the one before it.
pub open spec fn arg_addr(top: int, args: Seq<Vec<u8>>, i: int) -> int
    decreases i + 1,
{
    if i < 0 {
        argv_base(top, args.len() as int)
    } else {
        arg_addr(top, args, i - 1) - (args[i]@.len() + 1)
    }
}

/// The stack pointer below the arguments, aligned to eight bytes.
pub open spec fn args_sp(top: int, args: Seq<Vec<u8>>) -> int {
    let low = arg_addr(top, args, args.len() - 1);
    low - low % 8
}

/// The address space `v` with the pointer vector's terminator and the first
/// `n` arguments stored on the stack with top `top`: each argument's address
/// in its slot of the vector, and its bytes, closed by a NUL, at that
/// address. Nothing if one of these lies outside the framed pages.
pub open spec fn push_args(v: MemorySetView, top: int, args: Seq<Vec<u8>>, n: int) -> Option<
    MemorySetView,
>
    decreases n,
{
    let base = argv_base(top, args.len() as int);
    if n <= 0 {
        if base >= 0 && v.accessible(top - 8, 8) {
            Some(v.with_bytes(top - 8, word_bytes(0)))
        } else {
            None
        }
    } else {
        match push_args(v, top, args, n - 1) {
            None => None,
            Some(w) => {
                let addr = arg_addr(top, args, n - 1);
                let slot = base + 8 * (n - 1);
                if addr >= 0 && w.accessible(slot, 8) && w.with_bytes(
                    slot,
                    word_bytes(addr as usize),
                ).accessible(addr, (args[n - 1]@.len() + 1) as int) {
                    Some(
                        w.with_bytes(slot, word_bytes(addr as usize)).with_bytes(
                            addr,
                            args[n - 1]@.push(0),
                        ),
                    )
                } else {
                    None
                }
            },
        }
    }
}

/// The address space of a program that starts with arguments `args`.
pub open spec fn exec_space(token: usize, segs: Seq<SegmentView>, args: Seq<Vec<u8>>) -> Option<
    MemorySetView,
> {
    match image_space(token, segs) {
        None => None,
        Some(v) => push_args(
            v,
            user_stack_base(segs) + USER_STACK_SIZE as int,
            args,
            args.len() as int,
        ),
    }
}

/// A zero word is eight zero bytes.
pub proof fn lemma_zero_word()
    ensures
        word_bytes(0) == Seq::new(8, |k: int| 0u8),
{
    vstd::bytes::spec_u64_to_le_bytes_to_open(0);
    assert(0u64 & 0xff == 0 && (0u64 >> 8) & 0xff == 0 && (0u64 >> 16) & 0xff == 0 && (0u64 >> 24)
        & 0xff == 0 && (0u64 >> 32) & 0xff == 0 && (0u64 >> 40) & 0xff == 0 && (0u64 >> 48) & 0xff
        == 0 && (0u64 >> 56) & 0xff == 0) by (bit_vector);
    assert(word_bytes(0) =~= Seq::new(8, |k: int| 0u8));
}

/// A program started without arguments gets exactly the address space of
/// its image: what `exec` builds for a process is what `spawn` builds for
/// a process of the same identifier.
pub proof fn lemma_exec_without_arguments(token: usize, segs: Seq<SegmentView>)
    requires
        image_space(token, segs) is Some,
    ensures
        exec_space(token, segs, Seq::empty()) == image_space(token, segs),
{
    let v = image_space(token, segs)->0;
    lemma_image_space(token, segs);
    lemma_zero_word();
    let top = user_stack_base(segs) + USER_STACK_SIZE as int;
    let i = v.areas.len() - 2;
    let stack = v.areas[i];
    assert forall|k: int| 0 <= k < 8 implies v.is_framed(#[trigger] page_of(top - 8 + k))
        && v.byte_at(top - 8 + k) == 0 by {
        let vpn = page_of(top - 8 + k);
        assert(stack.covers(vpn));
        v.lemma_area_unique(vpn, i);
        v.lemma_byte_at(top - 8 + k);
    }
    assert(v.bytes_at(top - 8, 8) =~= word_bytes(0));
    lemma_with_bytes_same(v, top - 8, word_bytes(0));
}

/// The address space of a program depends on the identifier of its process
/// in its token only: two processes that run the same program have the
/// same areas with the same bytes.
pub proof fn lemma_same_image_same_areas(a: usize, b: usize, segs: Seq<SegmentView>)
    requires
        image_space(a, segs) is Some,
    ensures
        image_space(b, segs) is Some,
        image_space(b, segs)->0.areas == image_space(a, segs)->0.areas,
        exec_space(b, segs, Seq::empty()) is Some,
        exec_space(b, segs, Seq::empty())->0.areas == image_space(a, segs)->0.areas,
{
    let va = MemorySetView { token: a, areas: seq![trampoline_area()] };
    let vb = MemorySetView { token: b, areas: seq![trampoline_area()] };
    assert(va.wf() && vb.wf());
    lemma_segments_any_token(va, vb, segs);
    let la = with_segments(va, segs)->0;
    let lb = with_segments(vb, segs)->0;
    let bottom = image_end(segs) + 1;
    let top = bottom + USER_STACK_SIZE as int / PAGE_SIZE as int;
    let trap = page_of(TRAP_CONTEXT as int);
    lemma_overlaps_by_areas(la, lb, bottom, top);
    lemma_overlaps_by_areas(la, lb, trap, trap + 1);
    lemma_exec_without_arguments(b, segs);
}

/// Stores the arguments on the user stack of `ms`. Returns the stack pointer
/// below them and the address of the pointer vector.
fn store_args(ms: &mut MemorySet, top: usize, args: &Vec<Vec<u8>>) -> (placed: Option<
    (usize, usize),
>)
    requires
        old(ms).wf(),
    ensures
        final(ms).wf(),
        final(ms)@.token == old(ms)@.token,
        match placed {
            Some((sp, base)) => {
                &&& push_args(old(ms)@, top as int, args@, args@.len() as int) == Some(final(ms)@)
                &&& sp == args_sp(top as int, args@)
                &&& base == argv_base(top as int, args@.len() as int)
            },
            None => push_args(old(ms)@, top as int, args@, args@.len() as int) is None,
        },
{
    let argc = args.len();
    if argc >= usize::MAX / 8 || (argc + 1) * 8 > top {
        proof {
            lemma_push_fails_for_good(ms@, top as int, args@, 0);
        }
        return None;
    }
    let base = top - (argc + 1) * 8;
    let zero = u64_to_le_bytes(0);
    if !ms.write_bytes(top - 8, &zero) {
        proof {
            lemma_push_fails_for_good(old(ms)@, top as int, args@, 0);
        }
        return None;
    }
    let mut user_sp = base;
    let mut i: usize = 0;
    while i < argc
        invariant
            old(ms).wf(),
            ms.wf(),
            ms@.token == old(ms)@.token,
            argc == args@.len(),
            i <= argc,
            (argc + 1) * 8 <= top,
            base == argv_base(top as int, argc as int),
            user_sp == arg_addr(top as int, args@, i - 1),
            user_sp <= base,
            push_args(old(ms)@, top as int, args@, i as int) == Some(ms@),
        decreases argc - i,
    {
        let arg = &args[i];
        if arg.len() >= user_sp {
            proof {
                lemma_push_fails_for_good(old(ms)@, top as int, args@, i as int + 1);
            }
            return None;
        }
        let addr = user_sp - (arg.len() + 1);
        let pointer = u64_to_le_bytes(addr as u64);
        if !ms.write_bytes(base + 8 * i, &pointer) {
            proof {
                lemma_push_fails_for_good(old(ms)@, top as int, args@, i as int + 1);
            }
            return None;
        }
        let mut text = copy_bytes(arg);
        text.push(0);
        if !ms.write_bytes(addr, &text) {
            proof {
                lemma_push_fails_for_good(old(ms)@, top as int, args@, i as int + 1);
            }
            return None;
        }
        user_sp = addr;
        i = i + 1;
    }
    let sp = user_sp - user_sp % 8;
    Some((sp, base))
}

/// Once an argument fails to fit, no later argument mends it.
proof fn lemma_push_fails_for_good(v: MemorySetView, top: int, args: Seq<Vec<u8>>, n: int)
    requires
        0 <= n <= args.len(),
        push_args(v, top, args, n) is None,
    ensures
        push_args(v, top, args, args.len() as int) is None,
    decreases args.len() - n,
{
    if n < args.len() {
        lemma_push_fails_for_good(v, top, args, n + 1);
    }
}

/// The trap frame `child` is that of a thread forked from a thread with the
/// trap frame `parent`: the same but for the kernel stack, with 0 as the
/// result of the call.
pub open spec fn forked_frame(child: TrapContext, parent: TrapContext) -> bool {
    &&& child.x@ == parent.x@.update(REG_A0 as int, 0)
    &&& child.sepc == parent.sepc
    &&& child.sstatus == parent.sstatus
    &&& child.kernel_satp == parent.kernel_satp
    &&& child.trap_handler == parent.trap_handler
}

/// A process: its identifier and its state.
pub struct ProcessControlBlock {
    pub pid: usize,
    pub inner: ProcessControlBlockInner,
}

impl ProcessControlBlock {
    /// The identifier can be handed to user code, and the state is well formed.
    pub open spec fn wf(&self) -> bool {
        &&& self.pid <= isize::MAX
        &&& self.inner.wf(self.pid as int)
    }

    /// The state of the process, to read and to change.
    pub fn inner_exclusive_access(&mut self) -> (inner: &mut ProcessControlBlockInner)
        ensures
            *inner == old(self).inner,
            final(self).pid == old(self).pid,
            final(self).inner == *final(inner),
    {
        &mut self.inner
    }

    /// The identifier of the process.
    pub fn getpid(&self) -> (pid: usize)
        ensures
            pid == self.pid,
    {
        self.pid
    }

    /// The trap frame with which the main thread of a program starts.
    pub open spec fn start_frame(
        cx: TrapContext,
        entry: usize,
        sp: usize,
        kernel: KernelContext,
        kernel_sp: usize,
    ) -> bool {
        &&& cx.sepc == entry
        &&& cx.sstatus == 0
        &&& cx.kernel_satp == kernel.kernel_satp
        &&& cx.kernel_sp == kernel_sp
        &&& cx.trap_handler == kernel.trap_handler
        &&& cx.x[REG_SP as int] == sp
    }

    /// A process that runs the program `image`, with its main thread, which
    /// is ready to run. The address space takes the process identifier as
    /// its token. Nothing if the image is malformed.
    pub fn new(pid: usize, image: &ProgramImage, kernel: KernelContext, kernel_sp: usize) -> (made:
        Option<(Self, TaskControlBlock)>)
        requires
            pid <= isize::MAX,
        ensures
            match made {
                Some((process, task)) => {
                    let top = (user_stack_base(segment_views(image.segments@)) + USER_STACK_SIZE) as usize;
                    &&& process.wf()
                    &&& process.pid == pid
                    &&& image_space(pid, segment_views(image.segments@)) == Some(process.inner.memory_set@)
                    &&& process.inner.is_newborn(None, (top - USER_STACK_SIZE) as usize)
                    &&& process.inner.fd_table@ == seq![Some(STDIN), Some(STDOUT), Some(STDOUT)]
                    &&& is_new_thread(task, pid, 0, kernel, kernel_sp)
                    &&& Self::start_frame(task.trap_cx, image.entry, top, kernel, kernel_sp)
                    &&& forall|i: int| 0 <= i < 32 && i != REG_SP ==> task.trap_cx.x[i] == 0
                },
                None => image_space(pid, segment_views(image.segments@)) is None,
            },
    {
        match MemorySet::from_image(pid, image) {
            None => None,
            Some((memory_set, top, entry)) => {
                let mut fd_table: Vec<Option<usize>> = Vec::new();
                fd_table.push(Some(STDIN));
                fd_table.push(Some(STDOUT));
                fd_table.push(Some(STDOUT));
                assert(fd_table@ =~= seq![Some(STDIN), Some(STDOUT), Some(STDOUT)]);
                let inner = ProcessControlBlockInner::newborn(
                    memory_set,
                    None,
                    fd_table,
                    top - USER_STACK_SIZE,
                    Ghost(pid as int),
                );
                let trap_cx = TrapContext::app_init_context(
                    entry,
                    top,
                    kernel.kernel_satp,
                    kernel_sp,
                    kernel.trap_handler,
                );
                let task_cx = TaskContext::goto_trap_return(kernel.trap_return, kernel_sp);
                let task = TaskControlBlock::new(pid, 0, task_cx, trap_cx);
                Some((ProcessControlBlock { pid, inner }, task))
            },
        }
    }

    /// The kernel's own process: an empty address space, no thread, no open file.
    pub fn kernel_process(pid: usize) -> (process: Self)
        requires
            pid <= isize::MAX,
        ensures
            process.wf(),
            process.pid == pid,
            !process.inner.is_zombie,
            process.inner.memory_set@ == (MemorySetView { token: pid, areas: Seq::empty() }),
            process.inner.parent is None,
            process.inner.children@.len() == 0,
            process.inner.fd_table@.len() == 0,
            process.inner.tasks@.len() == 0,
            process.inner.mutex_list@.len() == 0,
            process.inner.semaphore_list@.len() == 0,
            process.inner.condvar_list@.len() == 0,
            process.inner.exit_code == 0,
            process.inner.mutex_ledger@.threads() == 0,
            process.inner.mutex_ledger@.resources() == 0,
            process.inner.semaphore_ledger@.threads() == 0,
            process.inner.semaphore_ledger@.resources() == 0,
            forall|tid: nat| process.inner.task_res_allocator.is_free(tid),
            !process.inner.deadlock_detect,
    {
        let inner = ProcessControlBlockInner {
            is_zombie: false,
            memory_set: MemorySet::new_bare(pid),
            parent: None,
            children: Vec::new(),
            exit_code: 0,
            fd_table: Vec::new(),
            tasks: Vec::new(),
            task_res_allocator: RecycleAllocator::new(),
            mutex_list: Vec::new(),
            semaphore_list: Vec::new(),
            condvar_list: Vec::new(),
            mutex_ledger: ResourceLedger::new(1),
            semaphore_ledger: ResourceLedger::new(usize::MAX),
            deadlock_detect: false,
        };
        ProcessControlBlock { pid, inner }
    }

    /// Forks the process, which has one thread, `parent_task`. Returns the
    /// child `child_pid` and its main thread: the child has a copy of the
    /// parent's address space and of its table of descriptors, and its
    /// thread resumes where the parent's does, on the kernel stack with top
    /// `kernel_sp` and with 0 as the result of the call.
    pub fn fork(
        &mut self,
        parent_task: &TaskControlBlock,
        child_pid: usize,
        kernel: KernelContext,
        kernel_sp: usize,
    ) -> (forked: (Self, TaskControlBlock))
        requires
            old(self).wf(),
            old(self).inner.tasks@.len() == 1,
            old(self).inner.tasks@[0] is Some,
            child_pid <= isize::MAX,
            parent_task.wf(),
        ensures
            final(self).wf(),
            final(self).pid == old(self).pid,
            final(self).inner.children@ == old(self).inner.children@.push(child_pid),
            final(self).inner.same_but_children(old(self).inner),
            ({
                let (child, task) = forked;
                &&& child.wf()
                &&& child.pid == child_pid
                &&& child.inner.memory_set@ == (MemorySetView {
                    token: child_pid,
                    areas: old(self).inner.memory_set@.areas,
                })
                &&& child.inner.fd_table@ == old(self).inner.fd_table@
                &&& child.inner.is_newborn(
                    Some(old(self).pid),
                    old(self).inner.tasks@[0]->0.ustack_base,
                )
                &&& is_new_thread(task, child_pid, 0, kernel, kernel_sp)
                &&& forked_frame(task.trap_cx, parent_task.trap_cx)
            }),
    {
        let memory_set = self.inner.memory_set.from_existed_user(child_pid);
        let n = self.inner.fd_table.len();
        let mut fd_table: Vec<Option<usize>> = Vec::new();
        let mut i: usize = 0;
        while i < n
            invariant
                n == self.inner.fd_table@.len(),
                i <= n,
                fd_table@ == self.inner.fd_table@.take(i as int),
            decreases n - i,
        {
            fd_table.push(self.inner.fd_table[i]);
            assert(self.inner.fd_table@.take(i + 1) =~= self.inner.fd_table@.take(i as int).push(
                self.inner.fd_table@[i as int],
            ));
            i = i + 1;
        }
        assert(self.inner.fd_table@.take(n as int) =~= self.inner.fd_table@);
        let ustack_base = self.inner.get_task(0).ustack_base;
        let inner = ProcessControlBlockInner::newborn(
            memory_set,
            Some(self.pid),
            fd_table,
            ustack_base,
            Ghost(child_pid as int),
        );
        self.inner.children.push(child_pid);
        let mut trap_cx = parent_task.trap_cx;
        trap_cx.kernel_sp = kernel_sp;
        trap_cx.x[REG_A0] = 0;
        let task_cx = TaskContext::goto_trap_return(kernel.trap_return, kernel_sp);
        let task = TaskControlBlock::new(child_pid, 0, task_cx, trap_cx);
        (ProcessControlBlock { pid: child_pid, inner }, task)
    }

    /// Replaces the program of the process, which has one thread, `task`, by
    /// `image` started with the arguments `args`. On success the address
    /// space is that of the image with the arguments on its user stack, the
    /// synchronization resources are gone, and the thread's trap frame
    /// starts the program with the argument count and the address of the
    /// pointer vector in its argument registers. On failure (a malformed
    /// image, or arguments that do not fit the stack) nothing changes.
    pub fn exec(
        &mut self,
        task: &mut TaskControlBlock,
        image: &ProgramImage,
        args: &Vec<Vec<u8>>,
        kernel: KernelContext,
    ) -> (ok: bool)
        requires
            old(self).wf(),
            old(self).inner.tasks@.len() == 1,
            old(self).inner.tasks@[0] is Some,
        ensures
            final(self).wf(),
            final(self).pid == old(self).pid,
            ok == exec_space(old(self).pid, segment_views(image.segments@), args@) is Some,
            !ok ==> *final(self) == *old(self) && *final(task) == *old(task),
            ok ==> {
                let top = user_stack_base(segment_views(image.segments@)) + USER_STACK_SIZE as int;
                &&& Some(final(self).inner.memory_set@) == exec_space(
                    old(self).pid,
                    segment_views(image.segments@),
                    args@,
                )
                &&& final(self).inner.tasks@ == seq![
                    Some(TaskUserRes { tid: 0, ustack_base: (top - USER_STACK_SIZE) as usize }),
                ]
                &&& final(self).inner.has_fresh_sync()
                &&& final(self).inner.same_but_image(old(self).inner)
                &&& Self::start_frame(
                    final(task).trap_cx,
                    image.entry,
                    args_sp(top, args@) as usize,
                    kernel,
                    old(task).trap_cx.kernel_sp,
                )
                &&& final(task).trap_cx.x[REG_A0 as int] == args@.len()
                &&& final(task).trap_cx.x[REG_A1 as int] == argv_base(top, args@.len() as int)
                &&& forall|i: int|
                    0 <= i < 32 && i != REG_SP && i != REG_A0 && i != REG_A1 ==> final(task).trap_cx.x[i]
                        == 0
                &&& final(task).same_but_frame(*old(task))
            },
    {
        let built = MemorySet::from_image(self.pid, image);
        if built.is_none() {
            return false;
        }
        let (mut memory_set, top, entry) = built.unwrap();
        let placed = store_args(&mut memory_set, top, args);
        if placed.is_none() {
            return false;
        }
        let (sp, base) = placed.unwrap();
        self.inner.memory_set = memory_set;
        self.inner.tasks[0] = Some(TaskUserRes { tid: 0, ustack_base: top - USER_STACK_SIZE });
        let (mutex_ledger, semaphore_ledger) = fresh_ledgers();
        self.inner.mutex_ledger = mutex_ledger;
        self.inner.semaphore_ledger = semaphore_ledger;
        self.inner.mutex_list = Vec::new();
        self.inner.semaphore_list = Vec::new();
        self.inner.condvar_list = Vec::new();
        let mut trap_cx = TrapContext::app_init_context(
            entry,
            sp,
            kernel.kernel_satp,
            task.trap_cx.kernel_sp,
            kernel.trap_handler,
        );
        trap_cx.x[REG_A0] = args.len();
        trap_cx.x[REG_A1] = base;
        task.trap_cx = trap_cx;
        assert(self.inner.tasks@ =~= seq![
            Some(TaskUserRes { tid: 0, ustack_base: (top - USER_STACK_SIZE) as usize }),
        ]);
        true
    }
}

impl ProcessControlBlockInner {
    /// `self` and `other` agree in everything but the parent and the children.
    pub open spec fn same_but_family(&self, other: Self) -> bool {
        &&& self.is_zombie == other.is_zombie
        &&& self.memory_set == other.memory_set
        &&& self.exit_code == other.exit_code
        &&& self.fd_table == other.fd_table
        &&& self.tasks == other.tasks
        &&& self.task_res_allocator == other.task_res_allocator
        &&& self.mutex_list == other.mutex_list
        &&& self.semaphore_list == other.semaphore_list
        &&& self.condvar_list == other.condvar_list
        &&& self.mutex_ledger == other.mutex_ledger
        &&& self.semaphore_ledger == other.semaphore_ledger
        &&& self.deadlock_detect == other.deadlock_detect
    }

    /// `self` and `other` agree in everything but the thread slots, the
    /// thread identifiers in use and the address space.
    pub open spec fn same_but_tasks(&self, other: Self) -> bool {
        &&& self.is_zombie == other.is_zombie
        &&& self.parent == other.parent
        &&& self.children == other.children
        &&& self.exit_code == other.exit_code
        &&& self.fd_table == other.fd_table
        &&& self.mutex_list == other.mutex_list
        &&& self.semaphore_list == other.semaphore_list
        &&& self.condvar_list == other.condvar_list
        &&& self.mutex_ledger == other.mutex_ledger
        &&& self.semaphore_ledger == other.semaphore_ledger
        &&& self.deadlock_detect == other.deadlock_detect
    }

    /// `self` and `other` agree in what an exit keeps: the parent, the
    /// synchronization resources and the switch.
    pub open spec fn same_in_exit(&self, other: Self) -> bool {
        &&& self.parent == other.parent
        &&& self.mutex_list == other.mutex_list
        &&& self.semaphore_list == other.semaphore_list
        &&& self.condvar_list == other.condvar_list
        &&& self.deadlock_detect == other.deadlock_detect
    }

    /// `self` and `other` agree in everything but the address space and
    /// the list of children.
    pub open spec fn same_but_reaped(&self, other: Self) -> bool {
        &&& self.is_zombie == other.is_zombie
        &&& self.parent == other.parent
        &&& self.exit_code == other.exit_code
        &&& self.fd_table == other.fd_table
        &&& self.tasks == other.tasks
        &&& self.task_res_allocator == other.task_res_allocator
        &&& self.mutex_list == other.mutex_list
        &&& self.semaphore_list == other.semaphore_list
        &&& self.condvar_list == other.condvar_list
        &&& self.mutex_ledger == other.mutex_ledger
        &&& self.semaphore_ledger == other.semaphore_ledger
        &&& self.deadlock_detect == other.deadlock_detect
    }

    /// `self` and `other` agree in everything but the address space.
    pub open spec fn same_but_memory(&self, other: Self) -> bool {
        &&& self.is_zombie == other.is_zombie
        &&& self.parent == other.parent
        &&& self.children == other.children
        &&& self.exit_code == other.exit_code
        &&& self.fd_table == other.fd_table
        &&& self.tasks == other.tasks
        &&& self.task_res_allocator == other.task_res_allocator
        &&& self.mutex_list == other.mutex_list
        &&& self.semaphore_list == other.semaphore_list
        &&& self.condvar_list == other.condvar_list
        &&& self.mutex_ledger == other.mutex_ledger
        &&& self.semaphore_ledger == other.semaphore_ledger
        &&& self.deadlock_detect == other.deadlock_detect
    }

    /// `self` and `other` agree in what the creation of a thread keeps: the
    /// family, the exit state, the open files, the synchronization
    /// resources and the switch.
    pub open spec fn same_but_thread(&self, other: Self) -> bool {
        &&& self.is_zombie == other.is_zombie
        &&& self.parent == other.parent
        &&& self.children == other.children
        &&& self.exit_code == other.exit_code
        &&& self.fd_table == other.fd_table
        &&& self.mutex_list == other.mutex_list
        &&& self.semaphore_list == other.semaphore_list
        &&& self.condvar_list == other.condvar_list
        &&& self.deadlock_detect == other.deadlock_detect
    }

    /// `self` and `other` agree in everything but the deadlock switch.
    pub open spec fn same_but_detect(&self, other: Self) -> bool {
        &&& self.is_zombie == other.is_zombie
        &&& self.memory_set == other.memory_set
        &&& self.parent == other.parent
        &&& self.children == other.children
        &&& self.exit_code == other.exit_code
        &&& self.fd_table == other.fd_table
        &&& self.tasks == other.tasks
        &&& self.task_res_allocator == other.task_res_allocator
        &&& self.mutex_list == other.mutex_list
        &&& self.semaphore_list == other.semaphore_list
        &&& self.condvar_list == other.condvar_list
        &&& self.mutex_ledger == other.mutex_ledger
        &&& self.semaphore_ledger == other.semaphore_ledger
    }

    /// `self` and `other` agree in everything but the list of children.
    pub open spec fn same_but_children(&self, other: Self) -> bool {
        &&& self.is_zombie == other.is_zombie
        &&& self.memory_set == other.memory_set
        &&& self.parent == other.parent
        &&& self.exit_code == other.exit_code
        &&& self.fd_table == other.fd_table
        &&& self.tasks == other.tasks
        &&& self.task_res_allocator == other.task_res_allocator
        &&& self.mutex_list == other.mutex_list
        &&& self.semaphore_list == other.semaphore_list
        &&& self.condvar_list == other.condvar_list
        &&& self.mutex_ledger == other.mutex_ledger
        &&& self.semaphore_ledger == other.semaphore_ledger
        &&& self.deadlock_detect == other.deadlock_detect
    }

    /// `self` and `other` agree in what a change of program keeps: the
    /// family, the exit state, the open files, the thread identifiers and
    /// the deadlock switch.
    pub open spec fn same_but_image(&self, other: Self) -> bool {
        &&& self.is_zombie == other.is_zombie
        &&& self.parent == other.parent
        &&& self.children == other.children
        &&& self.exit_code == other.exit_code
        &&& self.fd_table == other.fd_table
        &&& self.task_res_allocator == other.task_res_allocator
        &&& self.deadlock_detect == other.deadlock_detect
    }
}

impl TaskControlBlock {
    /// `self` and `other` agree in everything but the trap frame.
    pub open spec fn same_but_frame(&self, other: TaskControlBlock) -> bool {
        &&& self.pid == other.pid
        &&& self.tid == other.tid
        &&& self.task_status == other.task_status
        &&& self.task_cx == other.task_cx
        &&& self.stride == other.stride
        &&& self.priority == other.priority
        &&& self.syscall_times == other.syscall_times
        &&& self.start_time == other.start_time
    }
}

} // verus!
