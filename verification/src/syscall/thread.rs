//! System calls on threads.

use vstd::prelude::*;
use crate::config::{KERNEL_STACK_SIZE, MAX_THREADS, PAGE_SIZE, USER_STACK_SIZE};
use crate::kernel::{Kernel, kernel_stack_position, lemma_keeps_running, sleepers, thread_stack_top};
use crate::sync::banker::LedgerView;
use crate::table::{first_free, free_slot, lemma_free_slot, put, taken};
use crate::task::process::{
    is_new_thread, ProcessControlBlock, TaskUserRes, thread_mappable, ustack_bottom, with_thread,
};
use crate::task::task::{REG_A0, REG_SP, TaskContext, TaskControlBlock, TrapContext};

verus! {

/// The ledger with a row for thread `tid` that holds and waits for
/// nothing: a new row, or the row of an earlier thread started over.
pub open spec fn with_row(v: LedgerView, tid: int) -> LedgerView {
    if tid < v.threads() {
        v.reset_thread(tid)
    } else {
        v.add_thread()
    }
}

/// The identifier of the running thread within its process.
pub fn sys_gettid(k: &Kernel) -> (code: isize)
    requires
        k.wf(),
        k.current is Some,
    ensures
        code == k.current->0.tid,
{
    k.current.as_ref().unwrap().tid as isize
}

/// Creates a thread in the caller's process that starts at `entry` with
/// `arg` as its argument.
///
/// Returns -1, changing nothing, if the process has all the threads it can
/// have, or the new thread's kernel stack, user stack or trap frame finds
/// no room. Otherwise the thread gets the smallest free thread identifier
/// and the slot at that index; its user stack and the page of its trap
/// frame are mapped; both ledgers get a row for it; and the thread, ready
/// to start, goes to the tail of the ready queue. The call returns the
/// thread's identifier.
pub fn sys_thread_create(k: &mut Kernel, entry: usize, arg: usize) -> (code: isize)
    requires
        old(k).wf(),
        old(k).current is Some,
    ensures
        final(k).wf(),
        final(k).same_devices(*old(k)),
        final(k).current == old(k).current,
        ({
            let me = old(k).current->0;
            let before = old(k).cur_proc().inner;
            let tid = free_slot(before.tasks@);
            let base = before.tasks@[me.tid as int]->0.ustack_base;
            if before.tasks@[me.tid as int] is None || tid >= MAX_THREADS || thread_stack_top(
                me.pid as int,
                tid,
            ) < KERNEL_STACK_SIZE || !thread_mappable(before.memory_set@, base as int, tid) {
                code == -1 && final(k).same_state(*old(k))
            } else {
                let after = final(k).cur_proc().inner;
                let task = final(k).task_manager@.last();
                let top = (ustack_bottom(base as int, tid) + USER_STACK_SIZE) as usize;
                &&& code == tid
                &&& final(k).same_but_process(*old(k), me.pid as int)
                &&& after.tasks@ == put(
                    before.tasks@,
                    tid,
                    TaskUserRes { tid: tid as usize, ustack_base: base },
                )
                &&& forall|j: nat|
                    after.task_res_allocator.is_free(j) == (before.task_res_allocator.is_free(j)
                        && j != tid)
                &&& after.memory_set@ == with_thread(before.memory_set@, base as int, tid)
                &&& after.mutex_ledger@ == with_row(before.mutex_ledger@, tid)
                &&& after.semaphore_ledger@ == with_row(before.semaphore_ledger@, tid)
                &&& after.same_but_thread(before)
                &&& final(k).task_manager@ == old(k).task_manager@.push(task)
                &&& is_new_thread(
                    task,
                    me.pid,
                    tid as usize,
                    old(k).context,
                    thread_stack_top(me.pid as int, tid) as usize,
                )
                &&& ProcessControlBlock::start_frame(
                    task.trap_cx,
                    entry,
                    top,
                    old(k).context,
                    thread_stack_top(me.pid as int, tid) as usize,
                )
                &&& task.trap_cx.x[REG_A0 as int] == arg
                &&& forall|i: int|
                    0 <= i < 32 && i != REG_SP && i != REG_A0 ==> task.trap_cx.x[i] == 0
            }
        }),
{
    let pid = k.current.as_ref().unwrap().pid;
    let my_tid = k.current.as_ref().unwrap().tid;
    let base = match k.processes[pid].as_ref().unwrap().inner.tasks[my_tid] {
        Some(res) => res.ustack_base,
        None => {
            return -1;
        },
    };
    let tid = first_free(&k.processes[pid].as_ref().unwrap().inner.tasks);
    if tid >= MAX_THREADS {
        return -1;
    }
    let kernel_sp = match kernel_stack_position(pid, tid) {
        Some(sp) => sp,
        None => {
            return -1;
        },
    };
    let context = k.context;
    let inner = &mut k.processes[pid].as_mut().unwrap().inner;
    let ghost before = *inner;
    if !inner.alloc_user_res(base, tid) {
        assert(k.processes@ =~= old(k).processes@);
        return -1;
    }
    proof {
        lemma_free_slot(before.tasks@);
        assert(before.task_res_allocator.is_free(tid as nat)) by {
            assert(!taken(before.tasks@, tid as int));
        }
    }
    let id = inner.alloc_tid();
    proof {
        if id < tid {
            assert(taken(before.tasks@, id as int));
            assert(!before.task_res_allocator.is_free(id as nat));
        }
    }
    let res = TaskUserRes { tid, ustack_base: base };
    if tid < inner.tasks.len() {
        inner.tasks[tid] = Some(res);
        inner.mutex_ledger.reset_thread(tid);
        inner.semaphore_ledger.reset_thread(tid);
    } else {
        inner.tasks.push(Some(res));
        inner.mutex_ledger.add_thread();
        inner.semaphore_ledger.add_thread();
    }
    proof {
        assert(inner.tasks@ =~= put(before.tasks@, tid as int, res));
        assert forall|t: nat|
            !(#[trigger] inner.task_res_allocator.is_free(t)) <==> taken(
                inner.tasks@,
                t as int,
            ) by {
            assert(!before.task_res_allocator.is_free(t) <==> taken(
                before.tasks@,
                t as int,
            ));
        }
        assert(inner.wf(pid as int));
        lemma_keeps_running(old(k).processes@, k.processes@, k.task_manager@);
        lemma_keeps_running(old(k).processes@, k.processes@, sleepers(k.timers@));
    }
    let top = base + tid * (PAGE_SIZE + USER_STACK_SIZE) + USER_STACK_SIZE;
    let mut trap_cx = TrapContext::app_init_context(
        entry,
        top,
        context.kernel_satp,
        kernel_sp,
        context.trap_handler,
    );
    trap_cx.x[REG_A0] = arg;
    let task_cx = TaskContext::goto_trap_return(context.trap_return, kernel_sp);
    let task = TaskControlBlock::new(pid, tid, task_cx, trap_cx);
    k.add_task(task);
    tid as isize
}

} // verus!
