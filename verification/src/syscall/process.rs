//! System calls on processes, the address space, the clock and the scheduler.

use vstd::prelude::*;
use crate::config::{PAGE_SIZE, PRIORITY_MIN, USER_STACK_SIZE};
use crate::kernel::{
    dupped_all, exited, keeps_running, Kernel, kernel_stack_top, lemma_keeps_running, live,
    readied, scheduled, sleepers,
};
use crate::loader::{parse_elf, program_of};
use crate::mm::{
    ceil_page, floor_page, fresh_area, image_space, insert_allowed, MemorySetView, page_above,
    page_of, PERM_U, ProgramImage, segment_views, SegmentView, string_at, user_stack_base,
};
use crate::table::{lemma_free_slot, lemma_same_free_slot, put};
use crate::task::process::{
    args_sp, argv_base, exec_space, forked_frame, is_new_thread, ProcessControlBlock, STDIN,
    STDOUT, TaskUserRes,
};
use crate::task::task::{REG_A0, REG_A1, REG_SP, TaskControlBlock, TaskStatus};
use vstd::bytes::{spec_u32_to_le_bytes, spec_u64_to_le_bytes, u32_to_le_bytes, u64_to_le_bytes};

verus! {

/// A point in time: seconds, and the microseconds past them.
#[derive(Debug, Clone, Copy, PartialEq, Eq, Structural)]
pub struct TimeVal {
    pub sec: usize,
    pub usec: usize,
}

/// What `task_info` reports of the running thread.
#[derive(Clone, Copy)]
pub struct TaskInfo {
    pub status: TaskStatus,
    /// How often the thread made each system call.
    pub syscall_times: [u32; 500],
    /// Milliseconds since the thread first ran.
    pub time: usize,
}

/// The time `us` microseconds after the start of the clock.
pub open spec fn time_val(us: usize) -> TimeVal {
    TimeVal { sec: us / 1_000_000, usec: us % 1_000_000 }
}

/// The 16 bytes of a `TimeVal` in memory: both fields as 64-bit numbers,
/// low byte first.
pub open spec fn time_val_bytes(t: TimeVal) -> Seq<u8> {
    spec_u64_to_le_bytes(t.sec as u64) + spec_u64_to_le_bytes(t.usec as u64)
}

/// The number that stands for a status in memory.
pub open spec fn status_code(status: TaskStatus) -> u8 {
    match status {
        TaskStatus::UnInit => 0,
        TaskStatus::Ready => 1,
        TaskStatus::Running => 2,
        TaskStatus::Blocked => 3,
        TaskStatus::Exited => 4,
    }
}

/// The bytes of the first `n` counters of a histogram, each as a 32-bit
/// number, low byte first.
pub open spec fn histogram_bytes(times: Seq<u32>, n: int) -> Seq<u8>
    decreases n,
{
    if n <= 0 {
        Seq::empty()
    } else {
        histogram_bytes(times, n - 1) + spec_u32_to_le_bytes(times[n - 1])
    }
}

/// The bytes of a `TaskInfo` in memory, fields in order and aligned as in
/// C: the status in one byte, three bytes of padding, the 500 counters,
/// four bytes of padding, and the time as a 64-bit number.
pub open spec fn task_info_bytes(info: TaskInfo) -> Seq<u8> {
    seq![status_code(info.status), 0u8, 0u8, 0u8] + histogram_bytes(info.syscall_times@, 500)
        + seq![0u8, 0u8, 0u8, 0u8] + spec_u64_to_le_bytes(info.time as u64)
}

/// The bytes of a `TimeVal` in memory.
pub fn encode_time_val(t: &TimeVal) -> (bytes: Vec<u8>)
    ensures
        bytes@ == time_val_bytes(*t),
{
    let mut out = u64_to_le_bytes(t.sec as u64);
    let mut usec = u64_to_le_bytes(t.usec as u64);
    out.append(&mut usec);
    out
}

/// The bytes of a `TaskInfo` in memory.
pub fn encode_task_info(info: &TaskInfo) -> (bytes: Vec<u8>)
    ensures
        bytes@ == task_info_bytes(*info),
{
    let code: u8 = match info.status {
        TaskStatus::UnInit => 0,
        TaskStatus::Ready => 1,
        TaskStatus::Running => 2,
        TaskStatus::Blocked => 3,
        TaskStatus::Exited => 4,
    };
    let mut out: Vec<u8> = Vec::new();
    out.push(code);
    out.push(0);
    out.push(0);
    out.push(0);
    let ghost head = out@;
    assert(head =~= seq![status_code(info.status), 0u8, 0u8, 0u8]);
    let mut i: usize = 0;
    assert(head + histogram_bytes(info.syscall_times@, 0) =~= head);
    while i < 500
        invariant
            i <= 500,
            out@ == head + histogram_bytes(info.syscall_times@, i as int),
        decreases 500 - i,
    {
        let mut word = u32_to_le_bytes(info.syscall_times[i]);
        out.append(&mut word);
        assert(out@ =~= head + histogram_bytes(info.syscall_times@, i as int + 1));
        i = i + 1;
    }
    out.push(0);
    out.push(0);
    out.push(0);
    out.push(0);
    let mut time = u64_to_le_bytes(info.time as u64);
    out.append(&mut time);
    assert(out@ =~= task_info_bytes(*info));
    out
}

/// The running thread exits with `exit_code`, and the scheduler chooses.
pub fn sys_exit(k: &mut Kernel, exit_code: i32)
    requires
        old(k).wf(),
        old(k).current is Some,
    ensures
        final(k).wf(),
        exited(*old(k), *final(k), exit_code),
{
    k.exit_current_and_run_next(exit_code);
}

/// The running thread gives the processor up: it goes, ready, to the tail
/// of the ready queue, and the scheduler chooses. Returns 0.
pub fn sys_yield(k: &mut Kernel) -> (code: isize)
    requires
        old(k).wf(),
        old(k).current is Some,
    ensures
        final(k).wf(),
        code == 0,
        scheduled(
            old(k).task_manager@.push(readied(old(k).current->0)),
            final(k).task_manager@,
            final(k).current,
            old(k).now_us,
        ),
        final(k).processes == old(k).processes,
        final(k).same_devices(*old(k)),
{
    k.suspend_current_and_run_next();
    0
}

/// The identifier of the running thread's process.
pub fn sys_getpid(k: &Kernel) -> (code: isize)
    requires
        k.wf(),
        k.current is Some,
    ensures
        code == k.current->0.pid,
{
    k.current.as_ref().unwrap().pid as isize
}

/// Sets the priority of the running thread to `prio` and returns it; a
/// priority below the minimum gives -1 and changes nothing.
pub fn sys_set_priority(k: &mut Kernel, prio: isize) -> (code: isize)
    requires
        old(k).wf(),
        old(k).current is Some,
    ensures
        final(k).wf(),
        code == (if prio >= PRIORITY_MIN {
            prio
        } else {
            -1isize
        }),
        final(k).current == (if prio >= PRIORITY_MIN {
            Some(TaskControlBlock { priority: prio, ..old(k).current->0 })
        } else {
            old(k).current
        }),
        final(k).processes == old(k).processes,
        final(k).task_manager == old(k).task_manager,
        final(k).same_devices(*old(k)),
{
    if prio >= PRIORITY_MIN {
        let mut task = k.current.take().unwrap();
        task.set_priority(prio);
        k.current = Some(task);
        prio
    } else {
        -1
    }
}

/// Stores the time at address `ts` of the caller's address space, as a
/// `TimeVal`. Returns 0, or -1, changing nothing, if the 16 bytes at `ts`
/// do not lie in framed pages.
pub fn sys_get_time(k: &mut Kernel, ts: usize, _tz: usize) -> (code: isize)
    requires
        old(k).wf(),
        old(k).current is Some,
    ensures
        final(k).wf(),
        ({
            let mem = old(k).cur_proc().inner.memory_set@;
            if mem.accessible(ts as int, 16) {
                &&& code == 0
                &&& final(k).cur_proc().inner.memory_set@ == mem.with_bytes(
                    ts as int,
                    time_val_bytes(time_val(old(k).now_us)),
                )
                &&& final(k).cur_proc().inner.same_but_memory(old(k).cur_proc().inner)
                &&& final(k).same_but_process(*old(k), old(k).current->0.pid as int)
                &&& final(k).same_devices(*old(k))
                &&& final(k).current == old(k).current
                &&& final(k).task_manager == old(k).task_manager
            } else {
                code == -1 && *final(k) == *old(k)
            }
        }),
{
    let us = k.now_us;
    let t = TimeVal { sec: us / 1_000_000, usec: us % 1_000_000 };
    let bytes = encode_time_val(&t);
    proof {
        vstd::bytes::lemma_auto_spec_u64_to_from_le_bytes();
    }
    if k.write_user(ts, &bytes) {
        0
    } else {
        -1
    }
}

/// What `task_info` reports of thread `t` at time `now_us`.
pub open spec fn task_info_of(t: TaskControlBlock, now_us: usize) -> TaskInfo {
    TaskInfo {
        status: t.task_status,
        syscall_times: t.syscall_times,
        time: if now_us >= t.start_time {
            ((now_us - t.start_time) / 1000) as usize
        } else {
            0
        },
    }
}

/// Stores the running thread's status, its histogram of system calls and
/// the milliseconds since its first run at address `ti` of its address
/// space, as a `TaskInfo`. Returns 0, or -1, changing nothing, if the 2016
/// bytes at `ti` do not lie in framed pages.
pub fn sys_task_info(k: &mut Kernel, ti: usize) -> (code: isize)
    requires
        old(k).wf(),
        old(k).current is Some,
    ensures
        final(k).wf(),
        ({
            let mem = old(k).cur_proc().inner.memory_set@;
            let bytes = task_info_bytes(task_info_of(old(k).current->0, old(k).now_us));
            if mem.accessible(ti as int, bytes.len() as int) {
                &&& code == 0
                &&& final(k).cur_proc().inner.memory_set@ == mem.with_bytes(ti as int, bytes)
                &&& final(k).cur_proc().inner.same_but_memory(old(k).cur_proc().inner)
                &&& final(k).same_but_process(*old(k), old(k).current->0.pid as int)
                &&& final(k).same_devices(*old(k))
                &&& final(k).current == old(k).current
                &&& final(k).task_manager == old(k).task_manager
            } else {
                code == -1 && *final(k) == *old(k)
            }
        }),
{
    let info = {
        let task = k.current.as_ref().unwrap();
        TaskInfo {
            status: task.task_status,
            syscall_times: task.syscall_times,
            time: k.now_us.saturating_sub(task.start_time) / 1000,
        }
    };
    let bytes = encode_task_info(&info);
    assert(info.syscall_times == old(k).current->0.syscall_times);
    assert(info == task_info_of(old(k).current->0, old(k).now_us));
    if k.write_user(ti, &bytes) {
        0
    } else {
        -1
    }
}

/// The page permissions that the `port` of `mmap` stands for: user access,
/// and read, write and execute as bits 0, 1 and 2 of `port` say.
pub open spec fn mmap_perm(port: usize) -> u8 {
    PERM_U | ((port as u8) << 1)
}

/// Whether `mmap` accepts its arguments: the start is page-aligned, the
/// port names a permission and nothing else, and the range ends inside the
/// address space.
pub open spec fn mmap_args_ok(start: usize, len: usize, port: usize) -> bool {
    start % PAGE_SIZE == 0 && 1 <= port <= 7 && start + len <= usize::MAX
}

/// Maps the pages of the `len` bytes from `start` on to fresh zeroed frames
/// in the caller's address space. Returns 0; or -1, changing nothing, if
/// the arguments are not accepted, one of the pages is mapped already, or
/// the range cannot be backed.
pub fn sys_mmap(k: &mut Kernel, start: usize, len: usize, port: usize) -> (code: isize)
    requires
        old(k).wf(),
        old(k).current is Some,
    ensures
        final(k).wf(),
        ({
            let mem = old(k).cur_proc().inner.memory_set@;
            let s = page_of(start as int);
            let e = page_above(start + len);
            if mmap_args_ok(start, len, port) && insert_allowed(mem, s, e) {
                &&& code == 0
                &&& final(k).cur_proc().inner.memory_set@ == (if s < e {
                    mem.push(fresh_area(s, e, mmap_perm(port)))
                } else {
                    mem
                })
                &&& final(k).cur_proc().inner.same_but_memory(old(k).cur_proc().inner)
                &&& final(k).same_but_process(*old(k), old(k).current->0.pid as int)
                &&& final(k).same_devices(*old(k))
                &&& final(k).current == old(k).current
                &&& final(k).task_manager == old(k).task_manager
            } else {
                code == -1 && *final(k) == *old(k)
            }
        }),
{
    if start % PAGE_SIZE != 0 || port == 0 || port > 7 || len > usize::MAX - start {
        return -1;
    }
    let pid = k.current.as_ref().unwrap().pid;
    let s = floor_page(start);
    let e = ceil_page(start + len);
    {
        let mem = &k.processes[pid].as_ref().unwrap().inner.memory_set;
        if s < e && (mem.overlaps(s, e) || e - s > (isize::MAX as usize) / PAGE_SIZE) {
            return -1;
        }
    }
    let perm = PERM_U | ((port as u8) << 1);
    let ok = k.processes[pid].as_mut().unwrap().inner.memory_set.insert_framed_area(
        start,
        start + len,
        perm,
    );
    assert(ok);
    proof {
        lemma_keeps_running(old(k).processes@, k.processes@, k.task_manager@);
        lemma_keeps_running(old(k).processes@, k.processes@, sleepers(k.timers@));
    }
    0
}

/// Unmaps the pages of the `len` bytes from `start` on from the caller's
/// address space. Returns 0; or -1, changing nothing, if the start is not
/// page-aligned, the range leaves the address space, or one of the pages
/// is not mapped.
pub fn sys_munmap(k: &mut Kernel, start: usize, len: usize) -> (code: isize)
    requires
        old(k).wf(),
        old(k).current is Some,
    ensures
        final(k).wf(),
        ({
            let mem = old(k).cur_proc().inner.memory_set@;
            let s = page_of(start as int);
            let e = page_above(start + len);
            if start % PAGE_SIZE == 0 && start + len <= usize::MAX && mem.all_mapped(s, e) {
                &&& code == 0
                &&& final(k).cur_proc().inner.memory_set@ == (if s < e {
                    mem.carve(s, e)
                } else {
                    mem
                })
                &&& final(k).cur_proc().inner.same_but_memory(old(k).cur_proc().inner)
                &&& final(k).same_but_process(*old(k), old(k).current->0.pid as int)
                &&& final(k).same_devices(*old(k))
                &&& final(k).current == old(k).current
                &&& final(k).task_manager == old(k).task_manager
            } else {
                code == -1 && *final(k) == *old(k)
            }
        }),
{
    if start % PAGE_SIZE != 0 || len > usize::MAX - start {
        return -1;
    }
    let pid = k.current.as_ref().unwrap().pid;
    let s = floor_page(start);
    let e = ceil_page(start + len);
    if !k.processes[pid].as_ref().unwrap().inner.memory_set.all_mapped(s, e) {
        return -1;
    }
    let ok = k.processes[pid].as_mut().unwrap().inner.memory_set.remove_framed(start, start + len);
    assert(ok);
    proof {
        lemma_keeps_running(old(k).processes@, k.processes@, k.task_manager@);
        lemma_keeps_running(old(k).processes@, k.processes@, sleepers(k.timers@));
    }
    0
}

/// The program in the file whose name is the string at address `path` of
/// the caller's address space: its entry point and its segments. Nothing
/// if there is no such string, no such file, or the file holds no program.
pub open spec fn program_at(k: Kernel, path: usize) -> Option<(usize, Seq<SegmentView>)> {
    match string_at(k.cur_proc().inner.memory_set@, path as int) {
        None => None,
        Some(name) => match k.fs@.find(name) {
            None => None,
            Some(ino) => program_of(k.fs@.datas[ino as int]),
        },
    }
}

/// The segments of a program, if there is one.
pub open spec fn segments_in(prog: Option<(usize, Seq<SegmentView>)>) -> Seq<SegmentView> {
    match prog {
        Some((_, segs)) => segs,
        None => Seq::empty(),
    }
}

/// Reads the program in the file named at `path`.
pub fn load_program(k: &Kernel, path: usize) -> (image: Option<ProgramImage>)
    requires
        k.wf(),
        k.current is Some,
    ensures
        match image {
            Some(img) => program_at(*k, path) == Some((img.entry, segment_views(img.segments@))),
            None => program_at(*k, path) is None,
        },
{
    let name = match k.read_user_str(path) {
        Some(name) => name,
        None => {
            return None;
        },
    };
    let ino = match k.fs.find(&name) {
        Some(ino) => ino,
        None => {
            return None;
        },
    };
    let bytes = k.fs.read_all(ino);
    parse_elf(&bytes)
}

/// Forks the caller's process, which must have one thread.
///
/// Returns -1, changing nothing, if the process has more threads or no new
/// process can be created. Otherwise the child gets the next free
/// identifier, a copy of the parent's address space and of its table of
/// descriptors, whose open files count one descriptor more each; it joins
/// the parent's children; and its main thread, which resumes where the
/// caller does but sees 0 as the result, goes to the tail of the ready
/// queue. The caller goes on and gets the child's identifier.
pub fn sys_fork(k: &mut Kernel) -> (code: isize)
    requires
        old(k).wf(),
        old(k).current is Some,
    ensures
        final(k).wf(),
        final(k).context == old(k).context,
        final(k).now_us == old(k).now_us,
        final(k).timers == old(k).timers,
        final(k).current == old(k).current,
        ({
            let me = old(k).current->0;
            let parent = old(k).cur_proc().inner;
            let child_pid = old(k).next_pid();
            if parent.tasks@.len() != 1 || parent.tasks@[0] is None || !old(k).can_create() {
                code == -1 && final(k).same_state(*old(k))
            } else {
                let after = final(k).processes@[me.pid as int]->0.inner;
                let child = final(k).processes@[child_pid]->0;
                let task = final(k).task_manager@.last();
                &&& code == child_pid
                &&& final(k).processes@.len() == put(old(k).processes@, child_pid, child).len()
                &&& forall|p: int|
                    0 <= p < old(k).processes@.len() && p != me.pid && p != child_pid ==> final(k).processes@[p] == old(k).processes@[p]
                &&& live(final(k).processes@, me.pid as int)
                &&& after.children@ == parent.children@.push(child_pid as usize)
                &&& after.same_but_children(parent)
                &&& live(final(k).processes@, child_pid)
                &&& child.pid == child_pid
                &&& child.inner.memory_set@ == (MemorySetView {
                    token: child_pid as usize,
                    areas: parent.memory_set@.areas,
                })
                &&& child.inner.fd_table@ == parent.fd_table@
                &&& child.inner.is_newborn(Some(me.pid), parent.tasks@[0]->0.ustack_base)
                &&& final(k).fs@ == dupped_all(
                    old(k).fs@,
                    parent.fd_table@,
                    parent.fd_table@.len() as int,
                )
                &&& final(k).task_manager@ == old(k).task_manager@.push(task)
                &&& is_new_thread(
                    task,
                    child_pid as usize,
                    0,
                    old(k).context,
                    kernel_stack_top(child_pid) as usize,
                )
                &&& forked_frame(task.trap_cx, me.trap_cx)
            }
        }),
{
    let pid = k.current.as_ref().unwrap().pid;
    {
        let inner = &k.processes[pid].as_ref().unwrap().inner;
        if inner.thread_count() != 1 || inner.tasks[0].is_none() {
            return -1;
        }
    }
    let (child_pid, kernel_sp) = match k.reserve() {
        Some(slot) => slot,
        None => {
            return -1;
        },
    };
    let context = k.context;
    let (child, task) = k.processes[pid].as_mut().unwrap().fork(
        k.current.as_ref().unwrap(),
        child_pid,
        context,
        kernel_sp,
    );
    proof {
        lemma_keeps_running(old(k).processes@, k.processes@, k.task_manager@);
        lemma_keeps_running(old(k).processes@, k.processes@, sleepers(k.timers@));
        lemma_free_slot(old(k).processes@);
        lemma_same_free_slot(old(k).processes@, k.processes@);
    }
    k.dup_all(&child.inner.fd_table);
    k.install(child, task);
    child_pid as isize
}

/// Replaces the program of the caller's process, which must have one
/// thread, by the program in the file named at `path`, started without
/// arguments.
///
/// Returns -1, changing nothing, if the process has more threads, the file
/// holds no program, or the program's image is malformed. Otherwise the
/// address space is that of the image, the synchronization resources are
/// gone, and the caller's trap frame starts the program; the call returns 0.
pub fn sys_exec(k: &mut Kernel, path: usize) -> (code: isize)
    requires
        old(k).wf(),
        old(k).current is Some,
    ensures
        final(k).wf(),
        final(k).same_devices(*old(k)),
        final(k).task_manager == old(k).task_manager,
        ({
            let me = old(k).current->0;
            let before = old(k).cur_proc().inner;
            let prog = program_at(*old(k), path);
            let none = Seq::<Vec<u8>>::empty();
            if before.tasks@.len() != 1 || before.tasks@[0] is None || prog is None || exec_space(
                me.pid,
                segments_in(prog),
                none,
            ) is None {
                code == -1 && final(k).same_state(*old(k))
            } else {
                let (entry, segs) = prog->0;
                let top = user_stack_base(segs) + USER_STACK_SIZE as int;
                let after = final(k).processes@[me.pid as int]->0.inner;
                let task = final(k).current->0;
                &&& code == 0
                &&& final(k).same_but_process(*old(k), me.pid as int)
                &&& Some(after.memory_set@) == exec_space(me.pid, segs, none)
                &&& after.tasks@ == seq![
                    Some(TaskUserRes { tid: 0, ustack_base: (top - USER_STACK_SIZE) as usize }),
                ]
                &&& after.has_fresh_sync()
                &&& after.same_but_image(before)
                &&& final(k).current is Some
                &&& ProcessControlBlock::start_frame(
                    task.trap_cx,
                    entry,
                    args_sp(top, none) as usize,
                    old(k).context,
                    me.trap_cx.kernel_sp,
                )
                &&& task.trap_cx.x[REG_A0 as int] == 0
                &&& task.trap_cx.x[REG_A1 as int] == argv_base(top, 0)
                &&& forall|i: int|
                    0 <= i < 32 && i != REG_SP && i != REG_A0 && i != REG_A1 ==> task.trap_cx.x[i]
                        == 0
                &&& task.same_but_frame(me)
            }
        }),
{
    let pid = k.current.as_ref().unwrap().pid;
    {
        let inner = &k.processes[pid].as_ref().unwrap().inner;
        if inner.thread_count() != 1 || inner.tasks[0].is_none() {
            return -1;
        }
    }
    let image = match load_program(k, path) {
        Some(image) => image,
        None => {
            return -1;
        },
    };
    let args: Vec<Vec<u8>> = Vec::new();
    let context = k.context;
    let mut task = k.current.take().unwrap();
    let ok = k.processes[pid].as_mut().unwrap().exec(&mut task, &image, &args, context);
    k.current = Some(task);
    proof {
        assert(k.processes@ =~= old(k).processes@.update(pid as int, k.processes@[pid as int]));
        lemma_keeps_running(old(k).processes@, k.processes@, k.task_manager@);
        lemma_keeps_running(old(k).processes@, k.processes@, sleepers(k.timers@));
    }
    if ok {
        0
    } else {
        assert(k.processes@ =~= old(k).processes@);
        -1
    }
}

/// Creates a child of the caller's process that runs the program in the
/// file named at `path`; the parent's address space is not copied.
///
/// Returns -1, changing nothing, if the file holds no program, no new
/// process can be created, or the program's image is malformed. Otherwise
/// the child gets the next free identifier, the address space of the
/// image, the console on its first three descriptors; it joins the
/// caller's children; and its main thread, ready to start the program,
/// goes to the tail of the ready queue. The call returns the child's
/// identifier.
pub fn sys_spawn(k: &mut Kernel, path: usize) -> (code: isize)
    requires
        old(k).wf(),
        old(k).current is Some,
    ensures
        final(k).wf(),
        final(k).context == old(k).context,
        final(k).now_us == old(k).now_us,
        final(k).fs@ == old(k).fs@,
        final(k).timers == old(k).timers,
        final(k).current == old(k).current,
        ({
            let me = old(k).current->0;
            let parent = old(k).cur_proc().inner;
            let child_pid = old(k).next_pid();
            let prog = program_at(*old(k), path);
            if prog is None || !old(k).can_create() || image_space(child_pid as usize, segments_in(prog))
                is None {
                code == -1 && final(k).same_state(*old(k))
            } else {
                let (entry, segs) = prog->0;
                let top = (user_stack_base(segs) + USER_STACK_SIZE) as usize;
                let after = final(k).processes@[me.pid as int]->0.inner;
                let child = final(k).processes@[child_pid]->0;
                let task = final(k).task_manager@.last();
                &&& code == child_pid
                &&& final(k).processes@.len() == put(old(k).processes@, child_pid, child).len()
                &&& forall|p: int|
                    0 <= p < old(k).processes@.len() && p != me.pid && p != child_pid ==> final(k).processes@[p] == old(k).processes@[p]
                &&& live(final(k).processes@, me.pid as int)
                &&& after.children@ == parent.children@.push(child_pid as usize)
                &&& after.same_but_children(parent)
                &&& live(final(k).processes@, child_pid)
                &&& child.pid == child_pid
                &&& Some(child.inner.memory_set@) == image_space(child_pid as usize, segs)
                &&& child.inner.fd_table@ == seq![Some(STDIN), Some(STDOUT), Some(STDOUT)]
                &&& child.inner.is_newborn(Some(me.pid), (top - USER_STACK_SIZE) as usize)
                &&& final(k).task_manager@ == old(k).task_manager@.push(task)
                &&& is_new_thread(
                    task,
                    child_pid as usize,
                    0,
                    old(k).context,
                    kernel_stack_top(child_pid) as usize,
                )
                &&& ProcessControlBlock::start_frame(
                    task.trap_cx,
                    entry,
                    top,
                    old(k).context,
                    kernel_stack_top(child_pid) as usize,
                )
                &&& forall|i: int| 0 <= i < 32 && i != REG_SP ==> task.trap_cx.x[i] == 0
            }
        }),
{
    let pid = k.current.as_ref().unwrap().pid;
    let image = match load_program(k, path) {
        Some(image) => image,
        None => {
            return -1;
        },
    };
    let (child_pid, kernel_sp) = match k.reserve() {
        Some(slot) => slot,
        None => {
            return -1;
        },
    };
    let (child, task) = match ProcessControlBlock::new(child_pid, &image, k.context, kernel_sp) {
        Some(made) => made,
        None => {
            return -1;
        },
    };
    let mut child = child;
    child.inner.parent = Some(pid);
    k.install(child, task);
    let ghost installed = k.processes@;
    k.processes[pid].as_mut().unwrap().inner.children.push(child_pid);
    proof {
        lemma_free_slot(old(k).processes@);
        lemma_keeps_running(installed, k.processes@, k.task_manager@);
        lemma_keeps_running(installed, k.processes@, sleepers(k.timers@));
    }
    child_pid as isize
}

/// Process `c` exists and is a child of process `me`.
pub open spec fn is_child(procs: Seq<Option<ProcessControlBlock>>, me: int, c: int) -> bool {
    c != me && live(procs, c) && procs[c]->0.inner.parent == Some(me as usize)
}

/// Entry `j` of the list `kids` is a child of `me` that `waitpid(want)`
/// waits for: any child if `want` is -1, else the child `want`.
pub open spec fn awaited(
    procs: Seq<Option<ProcessControlBlock>>,
    kids: Seq<usize>,
    me: int,
    want: int,
    j: int,
) -> bool {
    0 <= j < kids.len() && is_child(procs, me, kids[j] as int) && (want == -1 || want == kids[j])
}

/// Entry `j` of the list `kids` is an awaited child that has exited.
pub open spec fn reapable(
    procs: Seq<Option<ProcessControlBlock>>,
    kids: Seq<usize>,
    me: int,
    want: int,
    j: int,
) -> bool {
    awaited(procs, kids, me, want, j) && procs[kids[j] as int]->0.inner.is_zombie
}

/// The 32 bits of an exit code.
pub open spec fn code_bits(code: i32) -> u32 {
    if code >= 0 {
        code as u32
    } else {
        (code + 0x1_0000_0000) as u32
    }
}

/// The caller waits for a child: any child if `pid` is -1, else the child `pid`.
///
/// Returns -1 if the caller has no such child, and -2 if it has but none
/// of them has exited; neither changes anything. Otherwise the first such
/// child in the list of children that has exited is reaped: its exit code
/// is stored, as four bytes, at address `exit_code_ptr` of the caller's
/// address space, the child leaves the list and the table of processes,
/// its identifier becomes free, and the call returns that identifier. If
/// the four bytes do not lie in framed pages the call returns -1 and
/// changes nothing.
pub fn sys_waitpid(k: &mut Kernel, pid: isize, exit_code_ptr: usize) -> (code: isize)
    requires
        old(k).wf(),
        old(k).current is Some,
    ensures
        final(k).wf(),
        final(k).context == old(k).context,
        final(k).now_us == old(k).now_us,
        final(k).fs@ == old(k).fs@,
        final(k).timers == old(k).timers,
        final(k).current == old(k).current,
        final(k).task_manager == old(k).task_manager,
        ({
            let me = old(k).current->0.pid as int;
            let procs = old(k).processes@;
            let before = old(k).cur_proc().inner;
            let kids = before.children@;
            if forall|j: int| !awaited(procs, kids, me, pid as int, j) {
                code == -1 && final(k).same_state(*old(k))
            } else if forall|j: int| !reapable(procs, kids, me, pid as int, j) {
                code == -2 && final(k).same_state(*old(k))
            } else if !before.memory_set@.accessible(exit_code_ptr as int, 4) {
                code == -1 && final(k).same_state(*old(k))
            } else {
                exists|j: int|
                    {
                        let c = kids[j] as int;
                        let after = final(k).processes@[me]->0.inner;
                        &&& #[trigger] reapable(procs, kids, me, pid as int, j)
                        &&& forall|i: int| 0 <= i < j ==> !reapable(procs, kids, me, pid as int, i)
                        &&& code == c
                        &&& final(k).processes@.len() == procs.len()
                        &&& final(k).processes@[c] is None
                        &&& forall|p: int|
                            0 <= p < procs.len() && p != me && p != c ==> final(k).processes@[p]
                                == procs[p]
                        &&& live(final(k).processes@, me)
                        &&& after.children@ == kids.remove(j)
                        &&& after.memory_set@ == before.memory_set@.with_bytes(
                            exit_code_ptr as int,
                            spec_u32_to_le_bytes(code_bits(procs[c]->0.inner.exit_code)),
                        )
                        &&& after.same_but_reaped(before)
                        &&& forall|p: nat|
                            final(k).pid_allocator.is_free(p) == (old(k).pid_allocator.is_free(p)
                                || p == c)
                    }
            }
        }),
{
    let me = k.current.as_ref().unwrap().pid;
    let ghost procs = k.processes@;
    let ghost kids = k.processes@[me as int]->0.inner.children@;
    let mut found: bool = false;
    let mut zombie: Option<usize> = None;
    {
        let inner = &k.processes[me].as_ref().unwrap().inner;
        let n = inner.children.len();
        let total = k.processes.len();
        let mut j: usize = 0;
        while j < n && zombie.is_none()
            invariant
                n == kids.len(),
                kids == inner.children@,
                procs == k.processes@,
                total == procs.len(),
                j <= n,
                found <==> exists|i: int| 0 <= i < j && awaited(procs, kids, me as int, pid as int, i),
                match zombie {
                    Some(z) => z < j && reapable(procs, kids, me as int, pid as int, z as int)
                        && forall|i: int|
                        0 <= i < z ==> !reapable(procs, kids, me as int, pid as int, i),
                    None => forall|i: int|
                        0 <= i < j ==> !reapable(procs, kids, me as int, pid as int, i),
                },
            decreases n - j + (if zombie is None { 1int } else { 0int }),
        {
            let c = inner.children[j];
            if c != me && c < total && (pid == -1 || (pid >= 0 && pid as usize == c)) {
                match &k.processes[c] {
                    Some(child) => {
                        if child.inner.parent == Some(me) {
                            assert(awaited(procs, kids, me as int, pid as int, j as int));
                            found = true;
                            if child.inner.is_zombie {
                                zombie = Some(j);
                            }
                        }
                    },
                    None => {},
                }
            }
            j = j + 1;
        }
        if !found {
            return -1;
        }
    }
    let j = match zombie {
        Some(j) => j,
        None => {
            return -2;
        },
    };
    let c = k.processes[me].as_ref().unwrap().inner.children[j];
    let exit_code = k.processes[c].as_ref().unwrap().inner.exit_code;
    let bits: u32 = if exit_code >= 0 {
        exit_code as u32
    } else {
        ((exit_code as i64) + 0x1_0000_0000) as u32
    };
    let bytes = u32_to_le_bytes(bits);
    proof {
        vstd::bytes::lemma_auto_spec_u32_to_from_le_bytes();
    }
    if !k.write_user(exit_code_ptr, &bytes) {
        return -1;
    }
    let ghost written = k.processes@;
    k.processes[me].as_mut().unwrap().inner.children.remove(j);
    k.processes[c] = None;
    k.pid_allocator.dealloc_id(c);
    proof {
        assert(keeps_running(old(k).processes@, k.processes@)) by {
            assert forall|p: int|
                live(old(k).processes@, p) && !(#[trigger] old(k).processes@[p])->0.inner.is_zombie implies live(
                k.processes@,
                p,
            ) && !k.processes@[p]->0.inner.is_zombie && k.processes@[p]->0.inner.tasks@.len()
                >= old(k).processes@[p]->0.inner.tasks@.len() by {
                if p != me && p != c {
                    assert(k.processes@[p] == written[p]);
                }
            }
        }
        lemma_keeps_running(old(k).processes@, k.processes@, k.task_manager@);
        lemma_keeps_running(old(k).processes@, k.processes@, sleepers(k.timers@));
        assert(reapable(procs, kids, me as int, pid as int, j as int));
    }
    c as isize
}

} // verus!
