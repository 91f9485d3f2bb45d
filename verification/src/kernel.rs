//! The kernel's state as a whole, and the moves of the scheduler on it.

use vstd::prelude::*;
use crate::config::{KERNEL_STACK_SIZE, MAX_THREADS, PAGE_SIZE, TRAMPOLINE, USER_STACK_SIZE};
use crate::fs::{FileSystem, FsView};
use crate::mm::{
    image_space, MemorySet, MemorySetView, ProgramImage, segment_views, string_at, user_stack_base,
};
use crate::table::{first_free, free_slot, lemma_free_slot, put, taken};
use crate::task::id::RecycleAllocator;
use crate::task::manager::{dispatched, is_candidate, picks, TaskManager};
use crate::task::process::{
    is_new_thread, KernelContext, ProcessControlBlock, STDIN, STDOUT, without_thread,
};
use crate::task::task::{REG_SP, TaskControlBlock, TaskStatus};

verus! {

/// Identifier of the initial process, which adopts the orphans.
pub const INITPROC: usize = 0;

/// A thread that sleeps until the clock reaches `expire_ms`.
pub struct TimerCondVar {
    pub expire_ms: usize,
    pub task: TaskControlBlock,
}

/// The state of the kernel.
///
/// Control blocks of threads are plain values: the running thread sits in
/// `current`, the runnable ones in the ready queue, sleepers in `timers`,
/// and threads blocked on a primitive in that primitive's queue, inside
/// their process.
pub struct Kernel {
    pub context: KernelContext,
    /// The time in microseconds, as of the last tick.
    pub now_us: usize,
    pub fs: FileSystem,
    /// The processes, by identifier.
    pub processes: Vec<Option<ProcessControlBlock>>,
    pub pid_allocator: RecycleAllocator,
    pub task_manager: TaskManager,
    /// The running thread, if any.
    pub current: Option<TaskControlBlock>,
    /// The sleepers, ordered by the time at which they wake.
    pub timers: Vec<TimerCondVar>,
}

/// Process `pid` exists.
pub open spec fn live(procs: Seq<Option<ProcessControlBlock>>, pid: int) -> bool {
    0 <= pid < procs.len() && procs[pid] is Some
}

/// Thread `t` may run: it is well formed, and it is a thread of a process
/// that exists and has not exited.
pub open spec fn runnable(procs: Seq<Option<ProcessControlBlock>>, t: TaskControlBlock) -> bool {
    &&& t.wf()
    &&& live(procs, t.pid as int)
    &&& !procs[t.pid as int]->0.inner.is_zombie
    &&& t.tid < procs[t.pid as int]->0.inner.tasks@.len()
}

/// Every thread of `q` may run.
pub open spec fn all_runnable(
    procs: Seq<Option<ProcessControlBlock>>,
    q: Seq<TaskControlBlock>,
) -> bool {
    forall|i: int| 0 <= i < q.len() ==> runnable(procs, #[trigger] q[i])
}

/// The sleeping threads.
pub open spec fn sleepers(timers: Seq<TimerCondVar>) -> Seq<TaskControlBlock> {
    timers.map_values(|t: TimerCondVar| t.task)
}

/// The sleepers are ordered by the time at which they wake.
pub open spec fn timers_sorted(timers: Seq<TimerCondVar>) -> bool {
    forall|i: int, j: int|
        0 <= i <= j < timers.len() ==> (#[trigger] timers[i]).expire_ms <= (
        #[trigger] timers[j]).expire_ms
}

/// `after` is `before` with `timer` put behind the sleepers that wake no
/// later than it and before those that wake later.
pub open spec fn timer_added(
    before: Seq<TimerCondVar>,
    after: Seq<TimerCondVar>,
    timer: TimerCondVar,
) -> bool {
    exists|at: int|
        0 <= at <= before.len() && after == before.insert(at, timer) && (forall|i: int|
            0 <= i < at ==> (#[trigger] before[i]).expire_ms <= timer.expire_ms) && (forall|i: int|
            at <= i < before.len() ==> (#[trigger] before[i]).expire_ms > timer.expire_ms)
}

/// Whatever could run with the processes `a` can run with the processes `b`:
/// a process of `a` that has not exited is there in `b`, has not exited, and
/// has lost no thread slot.
pub open spec fn keeps_running(
    a: Seq<Option<ProcessControlBlock>>,
    b: Seq<Option<ProcessControlBlock>>,
) -> bool {
    forall|pid: int|
        live(a, pid) && !(#[trigger] a[pid])->0.inner.is_zombie ==> live(b, pid)
            && !b[pid]->0.inner.is_zombie && b[pid]->0.inner.tasks@.len()
            >= a[pid]->0.inner.tasks@.len()
}

/// Threads that could run still can when no process has exited or lost a thread slot.
pub proof fn lemma_keeps_running(
    a: Seq<Option<ProcessControlBlock>>,
    b: Seq<Option<ProcessControlBlock>>,
    q: Seq<TaskControlBlock>,
)
    requires
        keeps_running(a, b),
        all_runnable(a, q),
    ensures
        all_runnable(b, q),
{
    assert forall|i: int| 0 <= i < q.len() implies runnable(b, #[trigger] q[i]) by {
        assert(runnable(a, q[i]));
        assert(live(a, q[i].pid as int) && !a[q[i].pid as int]->0.inner.is_zombie);
    }
}

/// The thread `t` as it starts to run at time `now`.
pub open spec fn started(t: TaskControlBlock, now: usize) -> TaskControlBlock {
    TaskControlBlock {
        task_status: TaskStatus::Running,
        start_time: if t.start_time == 0 {
            now
        } else {
            t.start_time
        },
        ..t
    }
}

/// The thread `t` made ready.
pub open spec fn readied(t: TaskControlBlock) -> TaskControlBlock {
    TaskControlBlock { task_status: TaskStatus::Ready, ..t }
}

/// The thread `t` blocked.
pub open spec fn blocked(t: TaskControlBlock) -> TaskControlBlock {
    TaskControlBlock { task_status: TaskStatus::Blocked, ..t }
}

/// The scheduler's move from the ready queue `before`: where no thread of
/// the queue is ready the processor idles and the queue stays as it is;
/// otherwise the thread that the stride policy picks leaves the queue,
/// advances its stride and runs.
pub open spec fn scheduled(
    before: Seq<TaskControlBlock>,
    after: Seq<TaskControlBlock>,
    current: Option<TaskControlBlock>,
    now: usize,
) -> bool {
    if forall|j: int| !is_candidate(before, j) {
        current is None && after == before
    } else {
        exists|i: int|
            picks(before, i) && after == before.remove(i) && current == Some(
                started(dispatched(before[i]), now),
            )
    }
}

/// Address of the top of the kernel stack of thread `tid` of process
/// `pid`: the stacks lie below the trampoline, one guard page apart, those
/// of one process next to each other.
pub open spec fn thread_stack_top(pid: int, tid: int) -> int {
    TRAMPOLINE - (pid * MAX_THREADS + tid) * (KERNEL_STACK_SIZE + PAGE_SIZE)
}

/// Address of the top of the kernel stack of the main thread of process `pid`.
pub open spec fn kernel_stack_top(pid: int) -> int {
    thread_stack_top(pid, 0)
}

/// Address of the top of the kernel stack of thread `tid` of process
/// `pid`, if the thread is one of those a process can have and the stack
/// lies in the address space.
pub fn kernel_stack_position(pid: usize, tid: usize) -> (top: Option<usize>)
    ensures
        match top {
            Some(t) => tid < MAX_THREADS && t == thread_stack_top(pid as int, tid as int) && t
                >= KERNEL_STACK_SIZE,
            None => tid >= MAX_THREADS || thread_stack_top(pid as int, tid as int)
                < KERNEL_STACK_SIZE,
        },
{
    let room = (TRAMPOLINE - KERNEL_STACK_SIZE) / (KERNEL_STACK_SIZE + PAGE_SIZE);
    assert(room * 12288 <= TRAMPOLINE - KERNEL_STACK_SIZE < (room + 1) * 12288);
    if tid >= MAX_THREADS || pid > room / MAX_THREADS {
        assert(tid < MAX_THREADS ==> pid * 16 + tid > room) by {
            assert(16 * (room / 16) + 16 > room);
        }
        assert(tid < MAX_THREADS ==> (pid * 16 + tid) * 12288 >= (room + 1) * 12288);
        return None;
    }
    let slot = pid * MAX_THREADS + tid;
    if slot > room {
        None
    } else {
        Some(TRAMPOLINE - slot * (KERNEL_STACK_SIZE + PAGE_SIZE))
    }
}

impl Kernel {
    /// Every process is well formed and sits at the index of its
    /// identifier; the identifiers in use are those of the processes; and
    /// every thread that runs, is ready or sleeps may run.
    pub open spec fn wf(&self) -> bool {
        &&& self.fs.wf()
        &&& forall|pid: int|
            live(self.processes@, pid) ==> (#[trigger] self.processes@[pid])->0.wf()
                && self.processes@[pid]->0.pid == pid
        &&& self.pid_allocator.wf()
        &&& forall|pid: nat|
            !(#[trigger] self.pid_allocator.is_free(pid)) <==> live(self.processes@, pid as int)
        &&& self.task_manager.wf()
        &&& all_runnable(self.processes@, self.task_manager@)
        &&& all_runnable(self.processes@, sleepers(self.timers@))
        &&& timers_sorted(self.timers@)
        &&& match self.current {
            Some(t) => runnable(self.processes@, t),
            None => true,
        }
    }

    /// The process of the running thread.
    pub open spec fn cur_proc(&self) -> ProcessControlBlock {
        self.processes@[self.current->0.pid as int]->0
    }

    /// `self` and `old` agree in everything but the processes, the ready
    /// queue and the running thread.
    pub open spec fn same_devices(&self, old: Kernel) -> bool {
        &&& self.context == old.context
        &&& self.now_us == old.now_us
        &&& self.fs@ == old.fs@
        &&& self.pid_allocator == old.pid_allocator
        &&& self.timers == old.timers
    }

    /// `self` and `old` are in the same state.
    pub open spec fn same_state(&self, old: Kernel) -> bool {
        &&& self.same_devices(old)
        &&& self.processes@ == old.processes@
        &&& self.task_manager == old.task_manager
        &&& self.current == old.current
    }

    /// `self` and `old` hold the same processes but for process `pid`, which
    /// both hold.
    pub open spec fn same_but_process(&self, old: Kernel, pid: int) -> bool {
        &&& self.processes@.len() == old.processes@.len()
        &&& live(old.processes@, pid)
        &&& live(self.processes@, pid)
        &&& self.processes@[pid]->0.pid == old.processes@[pid]->0.pid
        &&& forall|j: int|
            0 <= j < old.processes@.len() && j != pid ==> self.processes@[j] == old.processes@[j]
    }

    /// A kernel without any process, at time zero.
    pub fn new(context: KernelContext) -> (k: Self)
        ensures
            k.wf(),
            k.context == context,
            k.now_us == 0,
            k.processes@.len() == 0,
            k.task_manager@.len() == 0,
            k.timers@.len() == 0,
            k.current is None,
            forall|pid: nat| k.pid_allocator.is_free(pid),
    {
        Kernel {
            context,
            now_us: 0,
            fs: FileSystem::new(),
            processes: Vec::new(),
            pid_allocator: RecycleAllocator::new(),
            task_manager: TaskManager::new(),
            current: None,
            timers: Vec::new(),
        }
    }

    /// Puts a thread that may run at the tail of the ready queue.
    pub fn add_task(&mut self, task: TaskControlBlock)
        requires
            old(self).wf(),
            runnable(old(self).processes@, task),
        ensures
            final(self).wf(),
            final(self).task_manager@ == old(self).task_manager@.push(task),
            final(self).processes == old(self).processes,
            final(self).current == old(self).current,
            final(self).same_devices(*old(self)),
    {
        self.task_manager.add(task);
    }

    /// Makes a woken thread ready and puts it at the tail of the ready queue.
    pub fn wakeup_task(&mut self, task: TaskControlBlock)
        requires
            old(self).wf(),
            runnable(old(self).processes@, task),
        ensures
            final(self).wf(),
            final(self).task_manager@ == old(self).task_manager@.push(readied(task)),
            final(self).processes == old(self).processes,
            final(self).current == old(self).current,
            final(self).same_devices(*old(self)),
    {
        let mut task = task;
        task.task_status = TaskStatus::Ready;
        self.task_manager.add(task);
    }

    /// Lets the scheduler choose the next thread to run; the processor is
    /// free when this is called.
    pub fn schedule(&mut self)
        requires
            old(self).wf(),
            old(self).current is None,
        ensures
            final(self).wf(),
            scheduled(
                old(self).task_manager@,
                final(self).task_manager@,
                final(self).current,
                old(self).now_us,
            ),
            final(self).processes == old(self).processes,
            final(self).same_devices(*old(self)),
    {
        let ghost before = self.task_manager@;
        match self.task_manager.fetch() {
            None => {},
            Some(task) => {
                let mut task = task;
                task.task_status = TaskStatus::Running;
                if task.start_time == 0 {
                    task.start_time = self.now_us;
                }
                proof {
                    let i = choose|i: int|
                        picks(before, i) && task == started(dispatched(before[i]), self.now_us)
                            && self.task_manager@ == before.remove(i);
                    assert(is_candidate(before, i));
                    assert(runnable(self.processes@, before[i]));
                    assert forall|j: int| 0 <= j < self.task_manager@.len() implies runnable(
                        self.processes@,
                        #[trigger] self.task_manager@[j],
                    ) by {
                        if j < i {
                            assert(self.task_manager@[j] == before[j]);
                        } else {
                            assert(self.task_manager@[j] == before[j + 1]);
                        }
                    }
                }
                self.current = Some(task);
            },
        }
    }

    /// The running thread gives the processor up but stays ready: it goes
    /// to the tail of the ready queue, and the scheduler chooses.
    pub fn suspend_current_and_run_next(&mut self)
        requires
            old(self).wf(),
            old(self).current is Some,
        ensures
            final(self).wf(),
            scheduled(
                old(self).task_manager@.push(readied(old(self).current->0)),
                final(self).task_manager@,
                final(self).current,
                old(self).now_us,
            ),
            final(self).processes == old(self).processes,
            final(self).same_devices(*old(self)),
    {
        let task = self.current.take().unwrap();
        self.wakeup_task(task);
        self.schedule();
    }

    /// Takes the running thread off the processor, marked as blocked, to
    /// be put into the queue it waits in.
    pub fn take_current_blocked(&mut self) -> (task: TaskControlBlock)
        requires
            old(self).wf(),
            old(self).current is Some,
        ensures
            final(self).wf(),
            task == blocked(old(self).current->0),
            runnable(final(self).processes@, task),
            final(self).current is None,
            final(self).task_manager == old(self).task_manager,
            final(self).processes == old(self).processes,
            final(self).same_devices(*old(self)),
    {
        let mut task = self.current.take().unwrap();
        task.task_status = TaskStatus::Blocked;
        task
    }

    /// The token of the running thread's address space.
    pub fn current_user_token(&self) -> (token: usize)
        requires
            self.wf(),
            self.current is Some,
        ensures
            token == self.cur_proc().inner.memory_set@.token,
    {
        let pid = self.current.as_ref().unwrap().pid;
        self.processes[pid].as_ref().unwrap().inner.get_user_token()
    }

    /// Stores `data` at address `ptr` of the running thread's address space
    /// if all of it falls into framed pages; otherwise stores nothing.
    /// Tells whether it stored.
    pub fn write_user(&mut self, ptr: usize, data: &Vec<u8>) -> (ok: bool)
        requires
            old(self).wf(),
            old(self).current is Some,
        ensures
            final(self).wf(),
            ok == old(self).cur_proc().inner.memory_set@.accessible(ptr as int, data@.len() as int),
            !ok ==> *final(self) == *old(self),
            ok ==> {
                &&& final(self).cur_proc().inner.memory_set@ == old(
                    self,
                ).cur_proc().inner.memory_set@.with_bytes(ptr as int, data@)
                &&& final(self).cur_proc().inner.same_but_memory(old(self).cur_proc().inner)
                &&& final(self).same_but_process(*old(self), old(self).current->0.pid as int)
                &&& final(self).same_devices(*old(self))
                &&& final(self).current == old(self).current
                &&& final(self).task_manager == old(self).task_manager
            },
    {
        let pid = self.current.as_ref().unwrap().pid;
        if !self.processes[pid].as_ref().unwrap().inner.memory_set.is_accessible(ptr, data.len()) {
            return false;
        }
        let ok = self.processes[pid].as_mut().unwrap().inner.memory_set.write_bytes(ptr, data);
        proof {
            lemma_keeps_running(old(self).processes@, self.processes@, self.task_manager@);
            lemma_keeps_running(old(self).processes@, self.processes@, sleepers(self.timers@));
        }
        ok
    }

    /// The NUL-terminated string at address `ptr` of the running thread's
    /// address space, if there is one.
    pub fn read_user_str(&self, ptr: usize) -> (string: Option<Vec<u8>>)
        requires
            self.wf(),
            self.current is Some,
        ensures
            match string {
                Some(bytes) => string_at(
                    self.cur_proc().inner.memory_set@,
                    ptr as int,
                ) == Some(bytes@),
                None => string_at(self.cur_proc().inner.memory_set@, ptr as int) is None,
            },
    {
        let pid = self.current.as_ref().unwrap().pid;
        self.processes[pid].as_ref().unwrap().inner.memory_set.translated_str(ptr)
    }

    /// The time in milliseconds.
    pub fn get_time_ms(&self) -> (ms: usize)
        ensures
            ms == self.now_us / 1000,
    {
        self.now_us / 1000
    }

    /// Puts a blocked thread to sleep until the clock reaches `expire_ms`:
    /// it goes behind the sleepers that wake no later than it.
    pub fn add_timer(&mut self, expire_ms: usize, task: TaskControlBlock)
        requires
            old(self).wf(),
            runnable(old(self).processes@, task),
        ensures
            final(self).wf(),
            timer_added(old(self).timers@, final(self).timers@, TimerCondVar { expire_ms, task }),
            final(self).processes == old(self).processes,
            final(self).current == old(self).current,
            final(self).task_manager == old(self).task_manager,
            final(self).context == old(self).context,
            final(self).now_us == old(self).now_us,
            final(self).fs@ == old(self).fs@,
            final(self).pid_allocator == old(self).pid_allocator,
    {
        let n = self.timers.len();
        let mut at: usize = 0;
        while at < n && self.timers[at].expire_ms <= expire_ms
            invariant
                n == self.timers@.len(),
                at <= n,
                forall|i: int| 0 <= i < at ==> self.timers@[i].expire_ms <= expire_ms,
            decreases n - at,
        {
            at = at + 1;
        }
        let ghost before = self.timers@;
        assert forall|i: int| at <= i < n implies before[i].expire_ms > expire_ms by {
            assert(before[at as int].expire_ms <= before[i].expire_ms);
        }
        self.timers.insert(at, TimerCondVar { expire_ms, task });
        proof {
            let after = self.timers@;
            assert(after == before.insert(at as int, TimerCondVar { expire_ms, task }));
            assert forall|i: int| 0 <= i < after.len() implies runnable(
                self.processes@,
                #[trigger] sleepers(after)[i],
            ) by {
                if i < at {
                    assert(sleepers(after)[i] == sleepers(before)[i]);
                } else if i > at {
                    assert(sleepers(after)[i] == sleepers(before)[i - 1]);
                }
            }
            assert forall|i: int, j: int| 0 <= i <= j < after.len() implies (
            #[trigger] after[i]).expire_ms <= (#[trigger] after[j]).expire_ms by {
                let i0 = if i < at {
                    i
                } else {
                    i - 1
                };
                let j0 = if j < at {
                    j
                } else {
                    j - 1
                };
                if i != at && j != at {
                    assert(before[i0].expire_ms <= before[j0].expire_ms);
                } else if i == at && j != at {
                    assert(before[j0].expire_ms > expire_ms);
                } else if j == at && i != at {
                    assert(before[i0].expire_ms <= expire_ms);
                }
            }
        }
    }

    /// Sets the clock and wakes the sleepers whose time has come, in the
    /// order of their waking times: they leave the timers and go, made
    /// ready, to the tail of the ready queue.
    pub fn tick(&mut self, now_us: usize)
        requires
            old(self).wf(),
        ensures
            final(self).wf(),
            final(self).now_us == now_us,
            exists|n: int|
                0 <= n <= old(self).timers@.len() && final(self).timers@ == old(self).timers@.skip(
                    n,
                ) && final(self).task_manager@ == old(self).task_manager@ + sleepers(
                    old(self).timers@.take(n),
                ).map_values(|t: TaskControlBlock| readied(t)) && (forall|i: int|
                    0 <= i < n ==> old(self).timers@[i].expire_ms <= now_us / 1000) && (n < old(
                    self,
                ).timers@.len() ==> old(self).timers@[n].expire_ms > now_us / 1000),
            final(self).processes == old(self).processes,
            final(self).current == old(self).current,
            final(self).context == old(self).context,
            final(self).fs@ == old(self).fs@,
            final(self).pid_allocator == old(self).pid_allocator,
    {
        self.now_us = now_us;
        let now_ms = now_us / 1000;
        let ghost before = self.timers@;
        let ghost queue = self.task_manager@;
        let ghost mut n: int = 0;
        assert(before.skip(0) =~= before);
        assert(queue + sleepers(before.take(0)).map_values(|t: TaskControlBlock| readied(t))
            =~= queue);
        while self.timers.len() > 0 && self.timers[0].expire_ms <= now_ms
            invariant
                self.wf(),
                self.now_us == now_us,
                now_ms == now_us / 1000,
                0 <= n <= before.len(),
                self.timers@ == before.skip(n),
                self.task_manager@ == queue + sleepers(before.take(n)).map_values(
                    |t: TaskControlBlock| readied(t),
                ),
                forall|i: int| 0 <= i < n ==> before[i].expire_ms <= now_ms,
                self.processes == old(self).processes,
                self.current == old(self).current,
                self.context == old(self).context,
                self.fs@ == old(self).fs@,
                self.pid_allocator == old(self).pid_allocator,
            decreases self.timers@.len(),
        {
            let ghost rest = self.timers@;
            let timer = self.timers.remove(0);
            proof {
                assert(timer == before[n]);
                assert(sleepers(rest)[0] == timer.task);
                assert(runnable(self.processes@, timer.task));
                assert(rest.remove(0) =~= before.skip(n + 1));
                assert forall|i: int| 0 <= i < self.timers@.len() implies runnable(
                    self.processes@,
                    #[trigger] sleepers(self.timers@)[i],
                ) by {
                    assert(sleepers(self.timers@)[i] == sleepers(rest)[i + 1]);
                }
                assert forall|i: int, j: int| 0 <= i <= j < self.timers@.len() implies (
                #[trigger] self.timers@[i]).expire_ms <= (#[trigger] self.timers@[j]).expire_ms by {
                    assert(rest[i + 1].expire_ms <= rest[j + 1].expire_ms);
                }
                assert(sleepers(before.take(n + 1)).map_values(|t: TaskControlBlock| readied(t))
                    =~= sleepers(before.take(n)).map_values(|t: TaskControlBlock| readied(t)).push(
                    readied(timer.task),
                ));
            }
            self.wakeup_task(timer.task);
            proof {
                n = n + 1;
            }
        }
    }
}

/// Whatever could run with the processes `a`, and is no thread of process
/// `gone`, can run with the processes `b`.
pub open spec fn keeps_running_but(
    a: Seq<Option<ProcessControlBlock>>,
    b: Seq<Option<ProcessControlBlock>>,
    gone: int,
) -> bool {
    forall|pid: int|
        pid != gone && live(a, pid) && !(#[trigger] a[pid])->0.inner.is_zombie ==> live(b, pid)
            && !b[pid]->0.inner.is_zombie && b[pid]->0.inner.tasks@.len()
            >= a[pid]->0.inner.tasks@.len()
}

/// Threads of other processes than `gone` that could run still can when none of those
/// processes has exited or lost a thread slot.
pub proof fn lemma_keeps_running_but(
    a: Seq<Option<ProcessControlBlock>>,
    b: Seq<Option<ProcessControlBlock>>,
    q: Seq<TaskControlBlock>,
    gone: int,
)
    requires
        keeps_running_but(a, b, gone),
        all_runnable(a, q),
        forall|i: int| 0 <= i < q.len() ==> (#[trigger] q[i]).pid != gone,
    ensures
        all_runnable(b, q),
{
    assert forall|i: int| 0 <= i < q.len() implies runnable(b, #[trigger] q[i]) by {
        assert(runnable(a, q[i]));
        assert(live(a, q[i].pid as int) && !a[q[i].pid as int]->0.inner.is_zombie);
    }
}

/// The file system after the first `n` descriptors of `fds` have been
/// closed, as far as their handles are open.
pub open spec fn closed_all(fs: FsView, fds: Seq<Option<usize>>, n: int) -> FsView
    decreases n,
{
    if n <= 0 {
        fs
    } else {
        let before = closed_all(fs, fds, n - 1);
        match fds[n - 1] {
            Some(h) => if before.is_open(h as int) {
                before.close(h as int)
            } else {
                before
            },
            None => before,
        }
    }
}

/// The file system after each of the first `n` descriptors of `fds` has
/// been counted once more on its open file, as far as that is possible.
pub open spec fn dupped_all(fs: FsView, fds: Seq<Option<usize>>, n: int) -> FsView
    decreases n,
{
    if n <= 0 {
        fs
    } else {
        let before = dupped_all(fs, fds, n - 1);
        match fds[n - 1] {
            Some(h) => if before.is_open(h as int) && (h < 2 || before.open[h as int]->0.refs
                < usize::MAX) {
                before.dup(h as int)
            } else {
                before
            },
            None => before,
        }
    }
}

/// Those of the children `kids` of the exiting process `pid` that exist, in order.
pub open spec fn orphans(
    procs: Seq<Option<ProcessControlBlock>>,
    kids: Seq<usize>,
    pid: int,
) -> Seq<usize>
    decreases kids.len(),
{
    if kids.len() == 0 {
        Seq::empty()
    } else {
        let rest = orphans(procs, kids.drop_last(), pid);
        if kids.last() != pid && live(procs, kids.last() as int) {
            rest.push(kids.last())
        } else {
            rest
        }
    }
}

/// What the exit of the running thread with `exit_code` makes of the kernel
/// `before_k`.
///
/// The thread's slot in its process becomes empty and its identifier free.
/// While other threads of the process live, the thread's user stack and the
/// page of its trap frame are unmapped and nothing else changes. When it
/// was the last thread, the process exits too: it becomes a zombie with
/// this exit code; its ledgers record that no thread holds or waits for
/// anything; its address space and its descriptors are given up; its
/// children that exist are adopted by the initial process (unless it is
/// that process itself); and none of its threads stays in the ready queue
/// or among the sleepers. In both cases the scheduler then chooses.
pub open spec fn exited(before_k: Kernel, after_k: Kernel, exit_code: i32) -> bool {
    let me = before_k.current->0;
    let pid = me.pid as int;
    let before = before_k.processes@[pid]->0.inner;
    let after = after_k.processes@[pid]->0.inner;
    let tasks = before.tasks@.update(me.tid as int, None);
    let last = forall|j: int| 0 <= j < tasks.len() ==> (#[trigger] tasks[j]) is None;
    &&& after_k.context == before_k.context
    &&& after_k.now_us == before_k.now_us
    &&& after_k.pid_allocator == before_k.pid_allocator
    &&& after_k.processes@.len() == before_k.processes@.len()
    &&& forall|p: int| live(after_k.processes@, p) == live(before_k.processes@, p)
    &&& after.tasks@ == tasks
    &&& after.same_in_exit(before)
    &&& forall|j: nat|
        after.task_res_allocator.is_free(j) == (before.task_res_allocator.is_free(j) || j
            == me.tid)
    &&& if !last {
        &&& after.same_but_tasks(before)
        &&& after.memory_set@ == (match before.tasks@[me.tid as int] {
            Some(res) => if me.tid < MAX_THREADS {
                without_thread(
                    before.memory_set@,
                    res.ustack_base as int,
                    me.tid as int,
                )
            } else {
                before.memory_set@
            },
            None => before.memory_set@,
        })
        &&& forall|p: int|
            0 <= p < before_k.processes@.len() && p != pid ==> after_k.processes@[p]
                == before_k.processes@[p]
        &&& after_k.fs@ == before_k.fs@
        &&& after_k.timers == before_k.timers
        &&& scheduled(
            before_k.task_manager@,
            after_k.task_manager@,
            after_k.current,
            before_k.now_us,
        )
    } else {
        let kids = orphans(before_k.processes@, before.children@, pid);
        let adopt = pid != INITPROC && live(before_k.processes@, INITPROC as int);
        &&& after.is_zombie
        &&& after.exit_code == exit_code
        &&& after.mutex_ledger@ == before.mutex_ledger@.all_idle()
        &&& after.semaphore_ledger@ == before.semaphore_ledger@.all_idle()
        &&& pid == INITPROC ==> after.children@ == before.children@
        &&& after.memory_set@ == (MemorySetView {
            token: pid as usize,
            areas: Seq::empty(),
        })
        &&& after.fd_table@.len() == 0
        &&& after_k.fs@ == closed_all(
            before_k.fs@,
            before.fd_table@,
            before.fd_table@.len() as int,
        )
        &&& pid != INITPROC ==> after.children@.len() == 0
        &&& pid != INITPROC ==> forall|x: int|
            0 <= x < before.children@.len() && before.children@[x] != pid && live(
                before_k.processes@,
                before.children@[x] as int,
            ) ==> after_k.processes@[(#[trigger] before.children@[x]) as int]->0.inner.parent
                == Some(INITPROC)
        &&& adopt ==> after_k.processes@[INITPROC as int]->0.inner.children@
            == before_k.processes@[INITPROC as int]->0.inner.children@ + kids
        &&& forall|p: int|
            live(before_k.processes@, p) && p != pid ==> (
            #[trigger] after_k.processes@[p])->0.inner.same_but_family(
                before_k.processes@[p]->0.inner,
            )
        &&& after_k.timers@ == before_k.timers@.filter(|t: TimerCondVar| t.task.pid != pid)
        &&& scheduled(
            before_k.task_manager@.filter(|t: TaskControlBlock| t.pid != pid),
            after_k.task_manager@,
            after_k.current,
            before_k.now_us,
        )
    }
}

/// The orphans among `kids` and one more child.
proof fn lemma_orphans_push(
    procs: Seq<Option<ProcessControlBlock>>,
    kids: Seq<usize>,
    c: usize,
    pid: int,
)
    ensures
        orphans(procs, kids.push(c), pid) == (if c != pid && live(procs, c as int) {
            orphans(procs, kids, pid).push(c)
        } else {
            orphans(procs, kids, pid)
        }),
        orphans(procs, Seq::empty(), pid) == Seq::<usize>::empty(),
{
    assert(kids.push(c).drop_last() =~= kids);
}

impl Kernel {
    /// The identifier that the next new process gets.
    pub open spec fn next_pid(&self) -> int {
        free_slot(self.processes@)
    }

    /// Whether a process can be created: its identifier can be handed to
    /// user code, and its kernel stack lies in the address space.
    pub open spec fn can_create(&self) -> bool {
        self.next_pid() <= isize::MAX && kernel_stack_top(self.next_pid()) >= KERNEL_STACK_SIZE
    }

    /// The identifier and the kernel stack of the next new process, if one
    /// can be created.
    pub fn reserve(&self) -> (slot: Option<(usize, usize)>)
        requires
            self.wf(),
        ensures
            match slot {
                Some((pid, kernel_sp)) => self.can_create() && pid == self.next_pid() && kernel_sp
                    == kernel_stack_top(pid as int),
                None => !self.can_create(),
            },
    {
        let pid = first_free(&self.processes);
        if pid > isize::MAX as usize {
            return None;
        }
        match kernel_stack_position(pid, 0) {
            None => None,
            Some(kernel_sp) => Some((pid, kernel_sp)),
        }
    }

    /// Takes a new process, which has the identifier that was reserved for
    /// it, into the table, and its main thread into the ready queue.
    pub fn install(&mut self, process: ProcessControlBlock, task: TaskControlBlock)
        requires
            old(self).wf(),
            process.wf(),
            process.pid == old(self).next_pid(),
            !process.inner.is_zombie,
            task.wf(),
            task.pid == process.pid,
            task.tid < process.inner.tasks@.len(),
        ensures
            final(self).wf(),
            final(self).processes@ == put(old(self).processes@, process.pid as int, process),
            final(self).task_manager@ == old(self).task_manager@.push(task),
            final(self).current == old(self).current,
            final(self).context == old(self).context,
            final(self).now_us == old(self).now_us,
            final(self).fs@ == old(self).fs@,
            final(self).timers == old(self).timers,
    {
        let pid = process.pid;
        proof {
            lemma_free_slot(self.processes@);
            assert(self.pid_allocator.is_free(pid as nat));
        }
        let id = self.pid_allocator.alloc_id();
        proof {
            if id < pid {
                assert(live(old(self).processes@, id as int));
                assert(!old(self).pid_allocator.is_free(id as nat));
            }
            if pid < id {
                assert(!old(self).pid_allocator.is_free(pid as nat));
            }
        }
        if pid < self.processes.len() {
            self.processes[pid] = Some(process);
        } else {
            self.processes.push(Some(process));
        }
        proof {
            assert forall|p: nat| !(#[trigger] self.pid_allocator.is_free(p)) <==> live(
                self.processes@,
                p as int,
            ) by {
                assert(!old(self).pid_allocator.is_free(p) <==> live(old(self).processes@, p as int));
            }
            assert(keeps_running(old(self).processes@, self.processes@));
            lemma_keeps_running(old(self).processes@, self.processes@, self.task_manager@);
            lemma_keeps_running(old(self).processes@, self.processes@, sleepers(self.timers@));
        }
        self.task_manager.add(task);
    }

    /// Creates a process without a parent that runs the program `image`, as
    /// the initial process is created. Returns its identifier; or -1,
    /// changing nothing, if no process can be created or the image is
    /// malformed.
    pub fn add_initproc(&mut self, image: &ProgramImage) -> (code: isize)
        requires
            old(self).wf(),
        ensures
            final(self).wf(),
            final(self).current == old(self).current,
            final(self).context == old(self).context,
            final(self).now_us == old(self).now_us,
            final(self).fs@ == old(self).fs@,
            final(self).timers == old(self).timers,
            ({
                let pid = old(self).next_pid();
                let segs = segment_views(image.segments@);
                if !old(self).can_create() || image_space(pid as usize, segs) is None {
                    code == -1 && final(self).same_state(*old(self))
                } else {
                    let top = (user_stack_base(segs) + USER_STACK_SIZE) as usize;
                    let process = final(self).processes@[pid]->0;
                    let task = final(self).task_manager@.last();
                    &&& code == pid
                    &&& final(self).processes@ == put(old(self).processes@, pid, process)
                    &&& process.pid == pid
                    &&& Some(process.inner.memory_set@) == image_space(pid as usize, segs)
                    &&& process.inner.is_newborn(
                        None,
                        (top - USER_STACK_SIZE) as usize,
                    )
                    &&& process.inner.fd_table@ == seq![
                        Some(STDIN),
                        Some(STDOUT),
                        Some(STDOUT),
                    ]
                    &&& final(self).task_manager@ == old(self).task_manager@.push(task)
                    &&& is_new_thread(
                        task,
                        pid as usize,
                        0,
                        old(self).context,
                        kernel_stack_top(pid) as usize,
                    )
                    &&& ProcessControlBlock::start_frame(
                        task.trap_cx,
                        image.entry,
                        top,
                        old(self).context,
                        kernel_stack_top(pid) as usize,
                    )
                    &&& forall|i: int|
                        0 <= i < 32 && i != REG_SP ==> task.trap_cx.x[i] == 0
                }
            }),
    {
        let (pid, kernel_sp) = match self.reserve() {
            Some(slot) => slot,
            None => {
                return -1;
            },
        };
        match ProcessControlBlock::new(pid, image, self.context, kernel_sp) {
            None => -1,
            Some((process, task)) => {
                proof {
                    lemma_free_slot(self.processes@);
                }
                self.install(process, task);
                pid as isize
            },
        }
    }

    /// Counts one more call of system call `id` for the running thread.
    pub fn record_syscall(&mut self, id: usize)
        requires
            old(self).wf(),
            old(self).current is Some,
        ensures
            final(self).wf(),
            final(self).current is Some,
            final(self).current->0.syscall_times@ == (if id < 500 {
                old(self).current->0.syscall_times@.update(
                    id as int,
                    if old(self).current->0.syscall_times[id as int] < u32::MAX {
                        (old(self).current->0.syscall_times[id as int] + 1) as u32
                    } else {
                        u32::MAX
                    },
                )
            } else {
                old(self).current->0.syscall_times@
            }),
            final(self).current->0.same_but_histogram(old(self).current->0),
            final(self).processes == old(self).processes,
            final(self).task_manager == old(self).task_manager,
            final(self).same_devices(*old(self)),
    {
        let mut task = self.current.take().unwrap();
        task.record_syscall(id);
        self.current = Some(task);
    }

    /// Takes the sleepers of process `pid` out of the timers.
    fn remove_timers(&mut self, pid: usize)
        ensures
            final(self).timers@ == old(self).timers@.filter(|t: TimerCondVar| t.task.pid != pid),
            forall|i: int|
                0 <= i < final(self).timers@.len() ==> (#[trigger] final(self).timers@[i]).task.pid
                    != pid && old(self).timers@.contains(final(self).timers@[i]),
            timers_sorted(old(self).timers@) ==> timers_sorted(final(self).timers@),
            final(self).processes == old(self).processes,
            final(self).task_manager == old(self).task_manager,
            final(self).current == old(self).current,
            final(self).context == old(self).context,
            final(self).now_us == old(self).now_us,
            final(self).fs@ == old(self).fs@,
            final(self).pid_allocator == old(self).pid_allocator,
    {
        let ghost keep = |t: TimerCondVar| t.task.pid != pid;
        let ghost before = self.timers@;
        let mut rest: Vec<TimerCondVar> = Vec::new();
        std::mem::swap(&mut self.timers, &mut rest);
        let ghost mut done: int = 0;
        let ghost mut from: Seq<int> = Seq::empty();
        assert(before.skip(0) =~= before);
        assert(before.take(0).filter(keep) =~= Seq::<TimerCondVar>::empty()) by {
            assert(before.take(0) =~= Seq::<TimerCondVar>::empty());
        }
        while rest.len() > 0
            invariant
                keep == |t: TimerCondVar| t.task.pid != pid,
                0 <= done <= before.len(),
                rest@ == before.skip(done),
                self.timers@ == before.take(done).filter(keep),
                from.len() == self.timers@.len(),
                forall|i: int|
                    0 <= i < from.len() ==> 0 <= #[trigger] from[i] < done && self.timers@[i]
                        == before[from[i]] && before[from[i]].task.pid != pid,
                forall|i: int, j: int| 0 <= i < j < from.len() ==> from[i] < from[j],
                self.processes == old(self).processes,
                self.task_manager == old(self).task_manager,
                self.current == old(self).current,
                self.context == old(self).context,
                self.now_us == old(self).now_us,
                self.fs@ == old(self).fs@,
                self.pid_allocator == old(self).pid_allocator,
            decreases rest.len(),
        {
            let timer = rest.remove(0);
            proof {
                assert(timer == before[done]);
                assert(before.skip(done).remove(0) =~= before.skip(done + 1));
                assert(before.take(done + 1) =~= before.take(done).push(timer));
                Seq::lemma_filter_push(before.take(done), timer, keep);
            }
            if timer.task.pid != pid {
                self.timers.push(timer);
                proof {
                    from = from.push(done);
                }
            }
            proof {
                done = done + 1;
            }
        }
        proof {
            assert(before.take(before.len() as int) =~= before);
            assert forall|i: int| 0 <= i < self.timers@.len() implies (
            #[trigger] self.timers@[i]).task.pid != pid && before.contains(self.timers@[i]) by {
                assert(self.timers@[i] == before[from[i]]);
            }
            if timers_sorted(before) {
                assert forall|i: int, j: int| 0 <= i <= j < self.timers@.len() implies (
                #[trigger] self.timers@[i]).expire_ms <= (#[trigger] self.timers@[j]).expire_ms by {
                    if i < j {
                        assert(from[i] < from[j]);
                    }
                    assert(before[from[i]].expire_ms <= before[from[j]].expire_ms);
                }
            }
        }
    }

    /// Counts the descriptors of a table that has been copied.
    pub fn dup_all(&mut self, fds: &Vec<Option<usize>>)
        requires
            old(self).fs.wf(),
        ensures
            final(self).fs.wf(),
            final(self).fs@ == dupped_all(old(self).fs@, fds@, fds@.len() as int),
            final(self).processes == old(self).processes,
            final(self).task_manager == old(self).task_manager,
            final(self).current == old(self).current,
            final(self).context == old(self).context,
            final(self).now_us == old(self).now_us,
            final(self).timers == old(self).timers,
            final(self).pid_allocator == old(self).pid_allocator,
    {
        let n = fds.len();
        let mut i: usize = 0;
        while i < n
            invariant
                n == fds@.len(),
                i <= n,
                self.fs.wf(),
                self.fs@ == dupped_all(old(self).fs@, fds@, i as int),
                self.processes == old(self).processes,
                self.task_manager == old(self).task_manager,
                self.current == old(self).current,
                self.context == old(self).context,
                self.now_us == old(self).now_us,
                self.timers == old(self).timers,
                self.pid_allocator == old(self).pid_allocator,
            decreases n - i,
        {
            match fds[i] {
                Some(h) => {
                    if self.fs.open_file_at(h).is_some() {
                        self.fs.dup(h);
                    }
                },
                None => {},
            }
            i = i + 1;
        }
    }

    /// Closes the descriptors of a table that is going away.
    fn close_all(&mut self, fds: &Vec<Option<usize>>)
        requires
            old(self).fs.wf(),
        ensures
            final(self).fs.wf(),
            final(self).fs@ == closed_all(old(self).fs@, fds@, fds@.len() as int),
            final(self).processes == old(self).processes,
            final(self).task_manager == old(self).task_manager,
            final(self).current == old(self).current,
            final(self).context == old(self).context,
            final(self).now_us == old(self).now_us,
            final(self).timers == old(self).timers,
            final(self).pid_allocator == old(self).pid_allocator,
    {
        let n = fds.len();
        let mut i: usize = 0;
        while i < n
            invariant
                n == fds@.len(),
                i <= n,
                self.fs.wf(),
                self.fs@ == closed_all(old(self).fs@, fds@, i as int),
                self.processes == old(self).processes,
                self.task_manager == old(self).task_manager,
                self.current == old(self).current,
                self.context == old(self).context,
                self.now_us == old(self).now_us,
                self.timers == old(self).timers,
                self.pid_allocator == old(self).pid_allocator,
            decreases n - i,
        {
            match fds[i] {
                Some(h) => {
                    if self.fs.open_file_at(h).is_some() {
                        self.fs.close(h);
                    }
                },
                None => {},
            }
            i = i + 1;
        }
    }

    /// The running thread exits with `exit_code`, and the scheduler
    /// chooses. A process whose last thread exits becomes a zombie and
    /// stays until its parent waits for it.
    pub fn exit_current_and_run_next(&mut self, exit_code: i32)
        requires
            old(self).wf(),
            old(self).current is Some,
        ensures
            final(self).wf(),
            exited(*old(self), *final(self), exit_code),
    {
        let task = self.current.take().unwrap();
        let pid = task.pid;
        let tid = task.tid;
        let inner = &mut self.processes[pid].as_mut().unwrap().inner;
        let ghost before = *inner;
        match inner.tasks[tid] {
            Some(res) => {
                inner.tasks[tid] = None;
                assert(!inner.task_res_allocator.is_free(tid as nat)) by {
                    assert(taken(before.tasks@, tid as int));
                }
                inner.task_res_allocator.dealloc_id(tid);
                if tid < MAX_THREADS {
                    inner.dealloc_user_res(res.ustack_base, tid);
                }
            },
            None => {
                assert(inner.task_res_allocator.is_free(tid as nat)) by {
                    assert(!taken(before.tasks@, tid as int));
                }
            },
        }
        assert(inner.tasks@ =~= before.tasks@.update(tid as int, None));
        assert(inner.wf(pid as int)) by {
            assert forall|t: nat|
                !(#[trigger] inner.task_res_allocator.is_free(t)) <==> taken(
                    inner.tasks@,
                    t as int,
                ) by {
                assert(!before.task_res_allocator.is_free(t) <==> taken(before.tasks@, t as int));
            }
        }
        let n = inner.tasks.len();
        let mut alive = false;
        let mut j: usize = 0;
        while j < n
            invariant
                n == inner.tasks@.len(),
                j <= n,
                alive <==> exists|i: int| 0 <= i < j && (#[trigger] inner.tasks@[i]) is Some,
            decreases n - j,
        {
            if inner.tasks[j].is_some() {
                alive = true;
            }
            j = j + 1;
        }
        if alive {
            proof {
                lemma_keeps_running(old(self).processes@, self.processes@, self.task_manager@);
                lemma_keeps_running(old(self).processes@, self.processes@, sleepers(self.timers@));
            }
            self.schedule();
            return ;
        }
        inner.is_zombie = true;
        inner.exit_code = exit_code;
        inner.mutex_ledger.clear_threads();
        inner.semaphore_ledger.clear_threads();
        inner.memory_set = MemorySet::new_bare(pid);
        let mut fds: Vec<Option<usize>> = Vec::new();
        std::mem::swap(&mut inner.fd_table, &mut fds);
        let mut kids: Vec<usize> = Vec::new();
        if pid != INITPROC {
            std::mem::swap(&mut inner.children, &mut kids);
        }
        let ghost zombie = self.processes@;
        assert(keeps_running_but(old(self).processes@, zombie, pid as int));
        self.close_all(&fds);
        let total = self.processes.len();
        let adopt = pid != INITPROC && INITPROC < total && self.processes[INITPROC].is_some();
        let count = kids.len();
        let mut i: usize = 0;
        proof {
            assert(kids@.take(0) =~= Seq::<usize>::empty());
            lemma_orphans_push(old(self).processes@, Seq::empty(), 0, pid as int);
        }
        while i < count
            invariant
                count == kids@.len(),
                i <= count,
                total == self.processes@.len(),
                total == old(self).processes@.len(),
                zombie[INITPROC as int] == old(self).processes@[INITPROC as int] || pid == INITPROC
                    || !live(zombie, INITPROC as int),
                kids@ == (if pid != INITPROC {
                    old(self).processes@[pid as int]->0.inner.children@
                } else {
                    Seq::<usize>::empty()
                }),
                self.processes@[pid as int]->0.inner.parent == zombie[pid as int]->0.inner.parent,
                count > 0 ==> pid != INITPROC,
                pid < total,
                zombie.len() == total,
                live(zombie, pid as int),
                forall|p: int| live(zombie, p) == live(old(self).processes@, p),
                adopt == (pid != INITPROC && live(old(self).processes@, INITPROC as int)),
                forall|p: int| live(self.processes@, p) == live(old(self).processes@, p),
                forall|p: int|
                    live(self.processes@, p) ==> (#[trigger] self.processes@[p])->0.wf()
                        && self.processes@[p]->0.pid == p,
                forall|p: int|
                    live(zombie, p) ==> (#[trigger] self.processes@[p])->0.inner.same_but_family(
                        zombie[p]->0.inner,
                    ),
                self.processes@[pid as int]->0.inner.children@ == zombie[pid as int]->0.inner.children@,
                forall|x: int|
                    0 <= x < i && kids@[x] != pid && live(old(self).processes@, kids@[x] as int)
                        ==> self.processes@[(#[trigger] kids@[x]) as int]->0.inner.parent == Some(
                        INITPROC,
                    ),
                adopt ==> self.processes@[INITPROC as int]->0.inner.children@
                    == zombie[INITPROC as int]->0.inner.children@ + orphans(
                    old(self).processes@,
                    kids@.take(i as int),
                    pid as int,
                ),
                self.task_manager == old(self).task_manager,
                self.timers == old(self).timers,
                self.current is None,
                self.context == old(self).context,
                self.now_us == old(self).now_us,
                self.pid_allocator == old(self).pid_allocator,
                self.fs@ == closed_all(old(self).fs@, fds@, fds@.len() as int),
                self.fs.wf(),
            decreases count - i,
        {
            let c = kids[i];
            proof {
                assert(kids@.take(i + 1) =~= kids@.take(i as int).push(c));
                lemma_orphans_push(old(self).processes@, kids@.take(i as int), c, pid as int);
            }
            if c != pid && c < total && self.processes[c].is_some() {
                self.processes[c].as_mut().unwrap().inner.parent = Some(INITPROC);
                if adopt {
                    self.processes[INITPROC].as_mut().unwrap().inner.children.push(c);
                }
            }
            i = i + 1;
        }
        proof {
            assert(kids@.take(count as int) =~= kids@);
            assert(keeps_running_but(old(self).processes@, self.processes@, pid as int)) by {
                assert forall|p: int|
                    p != pid && live(old(self).processes@, p) && !(
                    #[trigger] old(self).processes@[p])->0.inner.is_zombie implies live(
                    self.processes@,
                    p,
                ) && !self.processes@[p]->0.inner.is_zombie
                    && self.processes@[p]->0.inner.tasks@.len()
                    >= old(self).processes@[p]->0.inner.tasks@.len() by {
                    assert(live(zombie, p));
                    assert(self.processes@[p]->0.inner.same_but_family(zombie[p]->0.inner));
                }
            }
        }
        let ghost settled = self.processes@;
        self.task_manager.remove_process(pid);
        self.remove_timers(pid);
        proof {
            let q = self.task_manager@;
            assert(all_runnable(old(self).processes@, q)) by {
                assert forall|x: int| 0 <= x < q.len() implies runnable(
                    old(self).processes@,
                    #[trigger] q[x],
                ) by {
                    assert(old(self).task_manager@.contains(q[x]));
                    let y = choose|y: int|
                        0 <= y < old(self).task_manager@.len() && old(self).task_manager@[y]
                            == q[x];
                    assert(runnable(old(self).processes@, old(self).task_manager@[y]));
                }
            }
            lemma_keeps_running_but(old(self).processes@, settled, q, pid as int);
            let s = sleepers(self.timers@);
            assert(all_runnable(old(self).processes@, s)) by {
                assert forall|x: int| 0 <= x < s.len() implies runnable(
                    old(self).processes@,
                    #[trigger] s[x],
                ) by {
                    assert(old(self).timers@.contains(self.timers@[x]));
                    let y = choose|y: int|
                        0 <= y < old(self).timers@.len() && old(self).timers@[y]
                            == self.timers@[x];
                    assert(sleepers(old(self).timers@)[y] == s[x]);
                    assert(runnable(old(self).processes@, sleepers(old(self).timers@)[y]));
                }
            }
            assert forall|x: int| 0 <= x < s.len() implies (#[trigger] s[x]).pid != pid by {
                assert(self.timers@[x].task.pid != pid);
            }
            lemma_keeps_running_but(old(self).processes@, settled, s, pid as int);
        }
        self.schedule();
    }
}

} // verus!
