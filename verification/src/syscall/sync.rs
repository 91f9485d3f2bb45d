//! System calls on mutexes, semaphores, condition variables and the clock.

use vstd::prelude::*;
use crate::config::DEADLOCK;
use crate::kernel::{
    blocked, Kernel, lemma_keeps_running, readied, scheduled, sleepers, timer_added, TimerCondVar,
};
use crate::sync::banker::{
    LedgerView, lemma_acquire_keeps_totals, lemma_demand_keeps_totals,
    lemma_hand_over_keeps_totals, lemma_release_keeps_totals,
};
use crate::sync::condvar::Condvar;
use crate::sync::mutex::{LockOutcome, Mutex};
use crate::sync::semaphore::Semaphore;
use crate::table::{first_free, free_slot, lemma_free_slot, taken};
use crate::task::process::ProcessControlBlockInner;
use crate::task::task::{TaskControlBlock, TaskStatus};

verus! {

/// What a call returns when the caller has yielded and must ask again.
pub const NOT_YET: isize = -2;

/// The ledger after thread `t` has asked for resource `r`: a free unit is
/// taken at once, otherwise the demand is recorded.
pub open spec fn asked(v: LedgerView, t: int, r: int) -> LedgerView {
    if v.available[r] > 0 {
        v.acquire(t, r)
    } else {
        v.request(t, r)
    }
}

/// Whether the request of thread `t` for resource `r` is refused: no unit
/// is free, detection is on, and with the demand recorded no order lets
/// every thread finish.
pub open spec fn refused(v: LedgerView, t: int, r: int, detect: bool) -> bool {
    v.available[r] == 0 && detect && !v.request(t, r).is_safe()
}

/// The ledger after thread `t` has given resource `r` up: the unit goes to
/// the thread `next` that is woken, or back to the free ones when nobody waits.
pub open spec fn given_up(v: LedgerView, t: int, r: int, next: int) -> LedgerView {
    if next < 0 {
        v.release(t, r)
    } else {
        v.hand_over(t, next, r)
    }
}

/// Asking for a resource moves at most one free unit to the asking thread:
/// while the units of the resource fit the ledger's limit, every total
/// stays as it was.
pub proof fn lemma_asked_keeps_totals(v: LedgerView, t: int, r: int, q: int)
    requires
        v.wf(),
        0 <= t < v.threads(),
        0 <= r < v.resources(),
        0 <= q < v.resources(),
        v.total(r) <= v.limit,
    ensures
        asked(v, t, r).wf(),
        asked(v, t, r).total(q) == v.total(q),
{
    if v.available[r] > 0 {
        lemma_acquire_keeps_totals(v, t, r, q);
    } else {
        lemma_demand_keeps_totals(v, t, r, q);
    }
}

/// A holder that gives its resource up keeps every total as it was, whether
/// the unit goes back to the free ones or to the thread that is woken; a
/// woken thread then holds the resource and waits for it no longer.
pub proof fn lemma_given_up_keeps_totals(v: LedgerView, t: int, r: int, next: int, q: int)
    requires
        v.wf(),
        0 <= t < v.threads(),
        next < v.threads(),
        0 <= r < v.resources(),
        0 <= q < v.resources(),
        v.allocation[t][r] > 0,
        v.total(r) <= v.limit,
    ensures
        given_up(v, t, r, next).wf(),
        given_up(v, t, r, next).total(q) == v.total(q),
        next >= 0 ==> given_up(v, t, r, next).allocation[next][r] > 0 && given_up(
            v,
            t,
            r,
            next,
        ).need[next][r] == 0 && given_up(v, t, r, next).available == v.available,
        next >= 0 && next != t ==> given_up(v, t, r, next).allocation[next][r]
            == v.allocation[next][r] + 1 && given_up(v, t, r, next).allocation[t][r]
            == v.allocation[t][r] - 1,
        next < 0 ==> given_up(v, t, r, next).available[r] == v.available[r] + 1 && given_up(
            v,
            t,
            r,
            next,
        ).allocation[t][r] == v.allocation[t][r] - 1,
{
    if next < 0 {
        lemma_release_keeps_totals(v, t, r, q);
    } else {
        lemma_hand_over_keeps_totals(v, t, next, r, q);
    }
}

/// Creates a mutex in the running thread's process, in the first free slot
/// of the list; the bookkeeping starts the mutex with one free unit.
/// Returns the mutex's identifier, or -1 if identifiers have run out.
pub fn sys_mutex_create(k: &mut Kernel, blocking: bool) -> (code: isize)
    requires
        old(k).wf(),
        old(k).current is Some,
    ensures
        final(k).wf(),
        final(k).current == old(k).current,
        final(k).task_manager == old(k).task_manager,
        final(k).same_devices(*old(k)),
        final(k).same_but_process(*old(k), old(k).current->0.pid as int),
        ({
            let before = old(k).cur_proc().inner;
            let after = final(k).cur_proc().inner;
            let id = free_slot(before.mutex_list@);
            if id > isize::MAX {
                code == -1 && after == before
            } else {
                &&& code == id
                &&& after.mutex_list@.len() == (if id < before.mutex_list@.len() {
                    before.mutex_list@.len()
                } else {
                    before.mutex_list@.len() + 1
                })
                &&& forall|j: int|
                    0 <= j < before.mutex_list@.len() && j != id ==> after.mutex_list@[j]
                        == before.mutex_list@[j]
                &&& taken(after.mutex_list@, id)
                &&& !after.mutex_list@[id]->0.locked()
                &&& after.mutex_list@[id]->0.waiters().len() == 0
                &&& after.mutex_list@[id]->0.is_blocking() == blocking
                &&& after.mutex_ledger@ == (if id < before.mutex_list@.len() {
                    before.mutex_ledger@.reset_resource(id, 1)
                } else {
                    before.mutex_ledger@.add_resource(1)
                })
                &&& after.same_but_sync(before)
                &&& after.semaphore_list == before.semaphore_list
                &&& after.semaphore_ledger == before.semaphore_ledger
                &&& after.condvar_list == before.condvar_list
            }
        }),
{
    let pid = k.current.as_ref().unwrap().pid;
    let id = first_free(&k.processes[pid].as_ref().unwrap().inner.mutex_list);
    if id > isize::MAX as usize {
        return -1;
    }
    let inner = &mut k.processes[pid].as_mut().unwrap().inner;
    proof {
        lemma_free_slot(inner.mutex_list@);
    }
    let mutex = Mutex::new(blocking);
    if id < inner.mutex_list.len() {
        inner.mutex_list[id] = Some(mutex);
        inner.mutex_ledger.reset_resource(id, 1);
    } else {
        inner.mutex_list.push(Some(mutex));
        inner.mutex_ledger.add_resource(1);
    }
    proof {
        lemma_keeps_running(old(k).processes@, k.processes@, k.task_manager@);
        lemma_keeps_running(old(k).processes@, k.processes@, sleepers(k.timers@));
    }
    id as isize
}

/// Process state `after` differs from `before` at most in mutex `id` and
/// in the bookkeeping of the mutexes.
pub open spec fn only_mutex_changed(
    before: ProcessControlBlockInner,
    after: ProcessControlBlockInner,
    id: int,
) -> bool {
    &&& after.same_but_sync(before)
    &&& after.semaphore_list == before.semaphore_list
    &&& after.semaphore_ledger == before.semaphore_ledger
    &&& after.condvar_list == before.condvar_list
    &&& after.mutex_list@.len() == before.mutex_list@.len()
    &&& forall|j: int|
        0 <= j < before.mutex_list@.len() && j != id ==> after.mutex_list@[j]
            == before.mutex_list@[j]
}

/// Process state `after` differs from `before` at most in semaphore `id`
/// and in the bookkeeping of the semaphores.
pub open spec fn only_semaphore_changed(
    before: ProcessControlBlockInner,
    after: ProcessControlBlockInner,
    id: int,
) -> bool {
    &&& after.same_but_sync(before)
    &&& after.mutex_list == before.mutex_list
    &&& after.mutex_ledger == before.mutex_ledger
    &&& after.condvar_list == before.condvar_list
    &&& after.semaphore_list@.len() == before.semaphore_list@.len()
    &&& forall|j: int|
        0 <= j < before.semaphore_list@.len() && j != id ==> after.semaphore_list@[j]
            == before.semaphore_list@[j]
}

/// The identifier of the thread that waits longest in `q`, or -1.
pub open spec fn next_in(q: Seq<TaskControlBlock>) -> int {
    if q.len() == 0 {
        -1
    } else {
        q[0].tid as int
    }
}

/// The running thread asks for mutex `mutex_id`.
///
/// An unknown identifier gives -1 and changes nothing. Otherwise the
/// bookkeeping takes a free unit for the caller or records its demand; if
/// detection is on and the demand makes the state unsafe, the demand is
/// withdrawn and the call returns the deadlock sentinel without touching the
/// mutex. Else the caller takes the mutex and goes on (0), or, the mutex
/// being held, sleeps in its queue while another thread runs (0), or, the
/// mutex keeping no queue, yields to be asked again (-2).
pub fn sys_mutex_lock(k: &mut Kernel, mutex_id: usize) -> (code: isize)
    requires
        old(k).wf(),
        old(k).current is Some,
    ensures
        final(k).wf(),
        final(k).same_devices(*old(k)),
        final(k).same_but_process(*old(k), old(k).current->0.pid as int),
        ({
            let me = old(k).current->0;
            let before = old(k).cur_proc().inner;
            let after = final(k).processes@[me.pid as int]->0.inner;
            let id = mutex_id as int;
            let v = before.mutex_ledger@;
            if !taken(before.mutex_list@, id) {
                code == -1 && *final(k) == *old(k)
            } else if refused(v, me.tid as int, id, before.deadlock_detect) {
                &&& code == DEADLOCK
                &&& only_mutex_changed(before, after, id)
                &&& after.mutex_list == before.mutex_list
                &&& after.mutex_ledger@ == v.request(me.tid as int, id).withdraw(me.tid as int, id)
                &&& final(k).current == old(k).current
                &&& final(k).task_manager == old(k).task_manager
            } else {
                let m = before.mutex_list@[id]->0;
                let m2 = after.mutex_list@[id]->0;
                &&& only_mutex_changed(before, after, id)
                &&& after.mutex_ledger@ == asked(v, me.tid as int, id)
                &&& taken(after.mutex_list@, id)
                &&& m2.is_blocking() == m.is_blocking()
                &&& m2.locked()
                &&& if !m.locked() {
                    &&& code == 0
                    &&& m2.waiters() == m.waiters()
                    &&& final(k).current == old(k).current
                    &&& final(k).task_manager == old(k).task_manager
                } else if m.is_blocking() {
                    &&& code == 0
                    &&& m2.waiters() == m.waiters().push(blocked(me))
                    &&& scheduled(
                        old(k).task_manager@,
                        final(k).task_manager@,
                        final(k).current,
                        old(k).now_us,
                    )
                } else {
                    &&& code == NOT_YET
                    &&& m2 == m
                    &&& scheduled(
                        old(k).task_manager@.push(readied(me)),
                        final(k).task_manager@,
                        final(k).current,
                        old(k).now_us,
                    )
                }
            }
        }),
{
    let pid = k.current.as_ref().unwrap().pid;
    let tid = k.current.as_ref().unwrap().tid;
    {
        let inner = &k.processes[pid].as_ref().unwrap().inner;
        if mutex_id >= inner.mutex_list.len() || inner.mutex_list[mutex_id].is_none() {
            return -1;
        }
    }
    let inner = &mut k.processes[pid].as_mut().unwrap().inner;
    if inner.mutex_ledger.available(mutex_id) > 0 {
        inner.mutex_ledger.acquire(tid, mutex_id);
    } else {
        inner.mutex_ledger.request(tid, mutex_id);
        if inner.deadlock_detect {
            let res = inner.check_deadlock_mutex();
            if res != 0 {
                inner.mutex_ledger.withdraw(tid, mutex_id);
                proof {
                    lemma_keeps_running(old(k).processes@, k.processes@, k.task_manager@);
                    lemma_keeps_running(
                        old(k).processes@,
                        k.processes@,
                        sleepers(k.timers@),
                    );
                }
                return res;
            }
        }
    }
    let locked = inner.mutex_list[mutex_id].as_ref().unwrap().is_locked();
    let blocking = inner.mutex_list[mutex_id].as_ref().unwrap().blocks();
    proof {
        lemma_keeps_running(old(k).processes@, k.processes@, k.task_manager@);
        lemma_keeps_running(old(k).processes@, k.processes@, sleepers(k.timers@));
    }
    if locked && !blocking {
        k.suspend_current_and_run_next();
        return NOT_YET;
    }
    let mut task = k.current.take().unwrap();
    if locked {
        task.task_status = TaskStatus::Blocked;
    }
    let ghost mid = k.processes@;
    let outcome = k.processes[pid].as_mut().unwrap().inner.mutex_list[mutex_id].as_mut().unwrap().lock(
        task,
    );
    proof {
        lemma_keeps_running(mid, k.processes@, k.task_manager@);
        lemma_keeps_running(mid, k.processes@, sleepers(k.timers@));
    }
    match outcome {
        LockOutcome::Acquired(t) => {
            k.current = Some(t);
        },
        LockOutcome::Busy(t) => {
            k.current = Some(t);
        },
        LockOutcome::Blocked => {
            k.schedule();
        },
    }
    0
}

/// The running thread gives mutex `mutex_id` up.
///
/// An unknown identifier or a mutex that is not held gives -1 and changes
/// nothing. Otherwise the bookkeeping moves the caller's unit to the thread
/// that waits longest, or back to the free ones when nobody waits; that
/// thread, now the holder, is made ready, or the mutex becomes free. The
/// call returns 0 and the caller goes on.
pub fn sys_mutex_unlock(k: &mut Kernel, mutex_id: usize) -> (code: isize)
    requires
        old(k).wf(),
        old(k).current is Some,
    ensures
        final(k).wf(),
        final(k).same_devices(*old(k)),
        final(k).same_but_process(*old(k), old(k).current->0.pid as int),
        final(k).current == old(k).current,
        ({
            let me = old(k).current->0;
            let before = old(k).cur_proc().inner;
            let after = final(k).cur_proc().inner;
            let id = mutex_id as int;
            if !taken(before.mutex_list@, id) || !before.mutex_list@[id]->0.locked() {
                code == -1 && *final(k) == *old(k)
            } else {
                let m = before.mutex_list@[id]->0;
                let m2 = after.mutex_list@[id]->0;
                &&& code == 0
                &&& only_mutex_changed(before, after, id)
                &&& after.mutex_ledger@ == given_up(
                    before.mutex_ledger@,
                    me.tid as int,
                    id,
                    next_in(m.waiters()),
                )
                &&& taken(after.mutex_list@, id)
                &&& m2.is_blocking() == m.is_blocking()
                &&& if m.waiters().len() > 0 {
                    &&& m2.locked()
                    &&& m2.waiters() == m.waiters().skip(1)
                    &&& final(k).task_manager@ == old(k).task_manager@.push(readied(m.waiters()[0]))
                } else {
                    &&& !m2.locked()
                    &&& m2.waiters() == m.waiters()
                    &&& final(k).task_manager == old(k).task_manager
                }
            }
        }),
{
    let pid = k.current.as_ref().unwrap().pid;
    let tid = k.current.as_ref().unwrap().tid;
    {
        let inner = &k.processes[pid].as_ref().unwrap().inner;
        if mutex_id >= inner.mutex_list.len() || inner.mutex_list[mutex_id].is_none() {
            return -1;
        }
        if !inner.mutex_list[mutex_id].as_ref().unwrap().is_locked() {
            return -1;
        }
    }
    let inner = &mut k.processes[pid].as_mut().unwrap().inner;
    let next = inner.mutex_list[mutex_id].as_ref().unwrap().get_next_queue_id();
    if next == -1 {
        inner.mutex_ledger.release(tid, mutex_id);
    } else {
        assert(inner.mutex_list@[mutex_id as int]->0.waiters()[0].tid < inner.tasks@.len());
        inner.mutex_ledger.hand_over(tid, next as usize, mutex_id);
    }
    let woken = inner.mutex_list[mutex_id].as_mut().unwrap().unlock();
    proof {
        lemma_keeps_running(old(k).processes@, k.processes@, k.task_manager@);
        lemma_keeps_running(old(k).processes@, k.processes@, sleepers(k.timers@));
    }
    match woken {
        Some(task) => {
            assert(old(k).cur_proc().inner.mutex_list@[mutex_id as int]->0.waiters()[0].pid == pid);
            k.wakeup_task(task);
        },
        None => {},
    }
    0
}

/// Creates a semaphore with `res_count` units in the running thread's
/// process, in the first free slot of the list; the bookkeeping starts it
/// with all units free. Returns the semaphore's identifier, or -1 if the
/// count does not fit the semaphore or identifiers have run out.
pub fn sys_semaphore_create(k: &mut Kernel, res_count: usize) -> (code: isize)
    requires
        old(k).wf(),
        old(k).current is Some,
    ensures
        final(k).wf(),
        final(k).current == old(k).current,
        final(k).task_manager == old(k).task_manager,
        final(k).same_devices(*old(k)),
        final(k).same_but_process(*old(k), old(k).current->0.pid as int),
        ({
            let before = old(k).cur_proc().inner;
            let after = final(k).cur_proc().inner;
            let id = free_slot(before.semaphore_list@);
            if id > isize::MAX || res_count > isize::MAX {
                code == -1 && after == before
            } else {
                &&& code == id
                &&& after.semaphore_list@.len() == (if id < before.semaphore_list@.len() {
                    before.semaphore_list@.len()
                } else {
                    before.semaphore_list@.len() + 1
                })
                &&& forall|j: int|
                    0 <= j < before.semaphore_list@.len() && j != id ==> after.semaphore_list@[j]
                        == before.semaphore_list@[j]
                &&& taken(after.semaphore_list@, id)
                &&& after.semaphore_list@[id]->0.count() == res_count
                &&& after.semaphore_list@[id]->0.waiters().len() == 0
                &&& after.semaphore_ledger@ == (if id < before.semaphore_list@.len() {
                    before.semaphore_ledger@.reset_resource(id, res_count as nat)
                } else {
                    before.semaphore_ledger@.add_resource(res_count as nat)
                })
                &&& after.same_but_sync(before)
                &&& after.mutex_list == before.mutex_list
                &&& after.mutex_ledger == before.mutex_ledger
                &&& after.condvar_list == before.condvar_list
            }
        }),
{
    let pid = k.current.as_ref().unwrap().pid;
    let id = first_free(&k.processes[pid].as_ref().unwrap().inner.semaphore_list);
    if id > isize::MAX as usize || res_count > isize::MAX as usize {
        return -1;
    }
    let inner = &mut k.processes[pid].as_mut().unwrap().inner;
    proof {
        lemma_free_slot(inner.semaphore_list@);
    }
    let sem = Semaphore::new(res_count);
    if id < inner.semaphore_list.len() {
        inner.semaphore_list[id] = Some(sem);
        inner.semaphore_ledger.reset_resource(id, res_count);
    } else {
        inner.semaphore_list.push(Some(sem));
        inner.semaphore_ledger.add_resource(res_count);
    }
    proof {
        lemma_keeps_running(old(k).processes@, k.processes@, k.task_manager@);
        lemma_keeps_running(old(k).processes@, k.processes@, sleepers(k.timers@));
    }
    id as isize
}

/// The running thread returns a unit of semaphore `sem_id`.
///
/// An unknown identifier or a count at its limit gives -1 and changes
/// nothing. Otherwise the bookkeeping moves the caller's unit to the thread
/// that waits longest, or back to the free ones when nobody waits; the
/// count goes up by one, and that thread is made ready. The call returns 0
/// and the caller goes on.
pub fn sys_semaphore_up(k: &mut Kernel, sem_id: usize) -> (code: isize)
    requires
        old(k).wf(),
        old(k).current is Some,
    ensures
        final(k).wf(),
        final(k).same_devices(*old(k)),
        final(k).same_but_process(*old(k), old(k).current->0.pid as int),
        final(k).current == old(k).current,
        ({
            let me = old(k).current->0;
            let before = old(k).cur_proc().inner;
            let after = final(k).cur_proc().inner;
            let id = sem_id as int;
            if !taken(before.semaphore_list@, id) || before.semaphore_list@[id]->0.count()
                == isize::MAX {
                code == -1 && *final(k) == *old(k)
            } else {
                let s = before.semaphore_list@[id]->0;
                let s2 = after.semaphore_list@[id]->0;
                &&& code == 0
                &&& only_semaphore_changed(before, after, id)
                &&& after.semaphore_ledger@ == given_up(
                    before.semaphore_ledger@,
                    me.tid as int,
                    id,
                    next_in(s.waiters()),
                )
                &&& taken(after.semaphore_list@, id)
                &&& s2.count() == s.count() + 1
                &&& if s.waiters().len() > 0 {
                    &&& s2.waiters() == s.waiters().skip(1)
                    &&& final(k).task_manager@ == old(k).task_manager@.push(readied(s.waiters()[0]))
                } else {
                    &&& s2.waiters() == s.waiters()
                    &&& final(k).task_manager == old(k).task_manager
                }
            }
        }),
{
    let pid = k.current.as_ref().unwrap().pid;
    let tid = k.current.as_ref().unwrap().tid;
    {
        let inner = &k.processes[pid].as_ref().unwrap().inner;
        if sem_id >= inner.semaphore_list.len() || inner.semaphore_list[sem_id].is_none() {
            return -1;
        }
        if inner.semaphore_list[sem_id].as_ref().unwrap().get_count() == isize::MAX {
            return -1;
        }
    }
    let inner = &mut k.processes[pid].as_mut().unwrap().inner;
    let next = inner.semaphore_list[sem_id].as_ref().unwrap().get_next_queue_id();
    if next == -1 {
        inner.semaphore_ledger.release(tid, sem_id);
    } else {
        assert(inner.semaphore_list@[sem_id as int]->0.waiters()[0].tid < inner.tasks@.len());
        inner.semaphore_ledger.hand_over(tid, next as usize, sem_id);
    }
    let woken = inner.semaphore_list[sem_id].as_mut().unwrap().up();
    proof {
        lemma_keeps_running(old(k).processes@, k.processes@, k.task_manager@);
        lemma_keeps_running(old(k).processes@, k.processes@, sleepers(k.timers@));
    }
    match woken {
        Some(task) => {
            assert(old(k).cur_proc().inner.semaphore_list@[sem_id as int]->0.waiters()[0].pid
                == pid);
            k.wakeup_task(task);
        },
        None => {},
    }
    0
}

/// The running thread takes a unit of semaphore `sem_id`.
///
/// An unknown identifier or a count at its limit gives -1 and changes
/// nothing. Otherwise the bookkeeping takes a free unit for the caller or
/// records its demand; if detection is on and the demand makes the state
/// unsafe, the demand is withdrawn and the call returns the deadlock
/// sentinel without touching the semaphore. Else the count goes down by
/// one, and the caller goes on if a unit was left, or sleeps in the queue
/// while another thread runs. The call then returns 0.
pub fn sys_semaphore_down(k: &mut Kernel, sem_id: usize) -> (code: isize)
    requires
        old(k).wf(),
        old(k).current is Some,
    ensures
        final(k).wf(),
        final(k).same_devices(*old(k)),
        final(k).same_but_process(*old(k), old(k).current->0.pid as int),
        ({
            let me = old(k).current->0;
            let before = old(k).cur_proc().inner;
            let after = final(k).processes@[me.pid as int]->0.inner;
            let id = sem_id as int;
            let v = before.semaphore_ledger@;
            if !taken(before.semaphore_list@, id) || before.semaphore_list@[id]->0.count()
                == isize::MIN {
                code == -1 && *final(k) == *old(k)
            } else if refused(v, me.tid as int, id, before.deadlock_detect) {
                &&& code == DEADLOCK
                &&& only_semaphore_changed(before, after, id)
                &&& after.semaphore_list == before.semaphore_list
                &&& after.semaphore_ledger@ == v.request(me.tid as int, id).withdraw(
                    me.tid as int,
                    id,
                )
                &&& final(k).current == old(k).current
                &&& final(k).task_manager == old(k).task_manager
            } else {
                let s = before.semaphore_list@[id]->0;
                let s2 = after.semaphore_list@[id]->0;
                &&& code == 0
                &&& only_semaphore_changed(before, after, id)
                &&& after.semaphore_ledger@ == asked(v, me.tid as int, id)
                &&& taken(after.semaphore_list@, id)
                &&& s2.count() == s.count() - 1
                &&& if s.count() > 0 {
                    &&& s2.waiters() == s.waiters()
                    &&& final(k).current == old(k).current
                    &&& final(k).task_manager == old(k).task_manager
                } else {
                    &&& s2.waiters() == s.waiters().push(blocked(me))
                    &&& scheduled(
                        old(k).task_manager@,
                        final(k).task_manager@,
                        final(k).current,
                        old(k).now_us,
                    )
                }
            }
        }),
{
    let pid = k.current.as_ref().unwrap().pid;
    let tid = k.current.as_ref().unwrap().tid;
    let count = {
        let inner = &k.processes[pid].as_ref().unwrap().inner;
        if sem_id >= inner.semaphore_list.len() || inner.semaphore_list[sem_id].is_none() {
            return -1;
        }
        let count = inner.semaphore_list[sem_id].as_ref().unwrap().get_count();
        if count == isize::MIN {
            return -1;
        }
        count
    };
    let inner = &mut k.processes[pid].as_mut().unwrap().inner;
    if inner.semaphore_ledger.available(sem_id) > 0 {
        inner.semaphore_ledger.acquire(tid, sem_id);
    } else {
        inner.semaphore_ledger.request(tid, sem_id);
        if inner.deadlock_detect {
            let res = inner.check_deadlock_semaphore();
            if res != 0 {
                inner.semaphore_ledger.withdraw(tid, sem_id);
                proof {
                    lemma_keeps_running(old(k).processes@, k.processes@, k.task_manager@);
                    lemma_keeps_running(
                        old(k).processes@,
                        k.processes@,
                        sleepers(k.timers@),
                    );
                }
                return res;
            }
        }
    }
    proof {
        lemma_keeps_running(old(k).processes@, k.processes@, k.task_manager@);
        lemma_keeps_running(old(k).processes@, k.processes@, sleepers(k.timers@));
    }
    let mut task = k.current.take().unwrap();
    if count <= 0 {
        task.task_status = TaskStatus::Blocked;
    }
    let ghost mid = k.processes@;
    let back = k.processes[pid].as_mut().unwrap().inner.semaphore_list[sem_id].as_mut().unwrap().down(
        task,
    );
    proof {
        lemma_keeps_running(mid, k.processes@, k.task_manager@);
        lemma_keeps_running(mid, k.processes@, sleepers(k.timers@));
    }
    match back {
        Some(t) => {
            k.current = Some(t);
        },
        None => {
            k.schedule();
        },
    }
    0
}

/// Creates a condition variable in the running thread's process, in the
/// first free slot of the list. Returns its identifier, or -1 if
/// identifiers have run out.
pub fn sys_condvar_create(k: &mut Kernel, _arg: usize) -> (code: isize)
    requires
        old(k).wf(),
        old(k).current is Some,
    ensures
        final(k).wf(),
        final(k).current == old(k).current,
        final(k).task_manager == old(k).task_manager,
        final(k).same_devices(*old(k)),
        final(k).same_but_process(*old(k), old(k).current->0.pid as int),
        ({
            let before = old(k).cur_proc().inner;
            let after = final(k).cur_proc().inner;
            let id = free_slot(before.condvar_list@);
            if id > isize::MAX {
                code == -1 && after == before
            } else {
                &&& code == id
                &&& after.condvar_list@.len() == (if id < before.condvar_list@.len() {
                    before.condvar_list@.len()
                } else {
                    before.condvar_list@.len() + 1
                })
                &&& forall|j: int|
                    0 <= j < before.condvar_list@.len() && j != id ==> after.condvar_list@[j]
                        == before.condvar_list@[j]
                &&& taken(after.condvar_list@, id)
                &&& after.condvar_list@[id]->0.waiters().len() == 0
                &&& after.same_but_sync(before)
                &&& after.mutex_list == before.mutex_list
                &&& after.mutex_ledger == before.mutex_ledger
                &&& after.semaphore_list == before.semaphore_list
                &&& after.semaphore_ledger == before.semaphore_ledger
            }
        }),
{
    let pid = k.current.as_ref().unwrap().pid;
    let id = first_free(&k.processes[pid].as_ref().unwrap().inner.condvar_list);
    if id > isize::MAX as usize {
        return -1;
    }
    let inner = &mut k.processes[pid].as_mut().unwrap().inner;
    proof {
        lemma_free_slot(inner.condvar_list@);
    }
    if id < inner.condvar_list.len() {
        inner.condvar_list[id] = Some(Condvar::new());
    } else {
        inner.condvar_list.push(Some(Condvar::new()));
    }
    proof {
        lemma_keeps_running(old(k).processes@, k.processes@, k.task_manager@);
        lemma_keeps_running(old(k).processes@, k.processes@, sleepers(k.timers@));
    }
    id as isize
}

/// Process state `after` differs from `before` at most in condition
/// variable `cv`, in mutex `m` and in the bookkeeping of the mutexes.
pub open spec fn only_condvar_changed(
    before: ProcessControlBlockInner,
    after: ProcessControlBlockInner,
    cv: int,
    m: int,
) -> bool {
    &&& after.same_but_sync(before)
    &&& after.semaphore_list == before.semaphore_list
    &&& after.semaphore_ledger == before.semaphore_ledger
    &&& after.condvar_list@.len() == before.condvar_list@.len()
    &&& forall|j: int|
        0 <= j < before.condvar_list@.len() && j != cv ==> after.condvar_list@[j]
            == before.condvar_list@[j]
    &&& after.mutex_list@.len() == before.mutex_list@.len()
    &&& forall|j: int|
        0 <= j < before.mutex_list@.len() && j != m ==> after.mutex_list@[j]
            == before.mutex_list@[j]
}

/// Wakes the thread that waits longest on condition variable `condvar_id`:
/// it leaves the queue and is made ready. Returns 0, or -1, changing
/// nothing, for an unknown identifier.
pub fn sys_condvar_signal(k: &mut Kernel, condvar_id: usize) -> (code: isize)
    requires
        old(k).wf(),
        old(k).current is Some,
    ensures
        final(k).wf(),
        final(k).same_devices(*old(k)),
        final(k).same_but_process(*old(k), old(k).current->0.pid as int),
        final(k).current == old(k).current,
        ({
            let before = old(k).cur_proc().inner;
            let after = final(k).cur_proc().inner;
            let id = condvar_id as int;
            if !taken(before.condvar_list@, id) {
                code == -1 && *final(k) == *old(k)
            } else {
                let c = before.condvar_list@[id]->0;
                &&& code == 0
                &&& only_condvar_changed(before, after, id, -1)
                &&& after.mutex_ledger == before.mutex_ledger
                &&& taken(after.condvar_list@, id)
                &&& if c.waiters().len() > 0 {
                    &&& after.condvar_list@[id]->0.waiters() == c.waiters().skip(1)
                    &&& final(k).task_manager@ == old(k).task_manager@.push(readied(c.waiters()[0]))
                } else {
                    &&& after.condvar_list@[id]->0.waiters() == c.waiters()
                    &&& final(k).task_manager == old(k).task_manager
                }
            }
        }),
{
    let pid = k.current.as_ref().unwrap().pid;
    {
        let inner = &k.processes[pid].as_ref().unwrap().inner;
        if condvar_id >= inner.condvar_list.len() || inner.condvar_list[condvar_id].is_none() {
            return -1;
        }
    }
    let inner = &mut k.processes[pid].as_mut().unwrap().inner;
    let woken = inner.condvar_list[condvar_id].as_mut().unwrap().signal();
    proof {
        lemma_keeps_running(old(k).processes@, k.processes@, k.task_manager@);
        lemma_keeps_running(old(k).processes@, k.processes@, sleepers(k.timers@));
    }
    match woken {
        Some(task) => {
            assert(old(k).cur_proc().inner.condvar_list@[condvar_id as int]->0.waiters()[0].pid
                == pid);
            k.wakeup_task(task);
        },
        None => {},
    }
    0
}

/// The running thread gives mutex `mutex_id` up and sleeps on condition
/// variable `condvar_id` while another thread runs. As in an unlock, the
/// bookkeeping moves the caller's unit to the thread that waited longest
/// for the mutex, or back to the free ones when nobody waits; that thread,
/// now the holder, is made ready, or the mutex becomes free. Returns 0, or
/// -1, changing nothing, for an unknown identifier or a mutex that is not
/// held.
pub fn sys_condvar_wait(k: &mut Kernel, condvar_id: usize, mutex_id: usize) -> (code: isize)
    requires
        old(k).wf(),
        old(k).current is Some,
    ensures
        final(k).wf(),
        final(k).same_devices(*old(k)),
        final(k).same_but_process(*old(k), old(k).current->0.pid as int),
        ({
            let me = old(k).current->0;
            let before = old(k).cur_proc().inner;
            let after = final(k).processes@[me.pid as int]->0.inner;
            let cv = condvar_id as int;
            let id = mutex_id as int;
            if !taken(before.condvar_list@, cv) || !taken(before.mutex_list@, id)
                || !before.mutex_list@[id]->0.locked() {
                code == -1 && *final(k) == *old(k)
            } else {
                let c = before.condvar_list@[cv]->0;
                let m = before.mutex_list@[id]->0;
                let m2 = after.mutex_list@[id]->0;
                &&& code == 0
                &&& only_condvar_changed(before, after, cv, id)
                &&& after.mutex_ledger@ == given_up(
                    before.mutex_ledger@,
                    me.tid as int,
                    id,
                    next_in(m.waiters()),
                )
                &&& taken(after.condvar_list@, cv)
                &&& taken(after.mutex_list@, id)
                &&& after.condvar_list@[cv]->0.waiters() == c.waiters().push(blocked(me))
                &&& m2.is_blocking() == m.is_blocking()
                &&& if m.waiters().len() > 0 {
                    &&& m2.locked()
                    &&& m2.waiters() == m.waiters().skip(1)
                    &&& scheduled(
                        old(k).task_manager@.push(readied(m.waiters()[0])),
                        final(k).task_manager@,
                        final(k).current,
                        old(k).now_us,
                    )
                } else {
                    &&& !m2.locked()
                    &&& m2.waiters() == m.waiters()
                    &&& scheduled(
                        old(k).task_manager@,
                        final(k).task_manager@,
                        final(k).current,
                        old(k).now_us,
                    )
                }
            }
        }),
{
    let pid = k.current.as_ref().unwrap().pid;
    {
        let inner = &k.processes[pid].as_ref().unwrap().inner;
        if condvar_id >= inner.condvar_list.len() || inner.condvar_list[condvar_id].is_none() {
            return -1;
        }
        if mutex_id >= inner.mutex_list.len() || inner.mutex_list[mutex_id].is_none() {
            return -1;
        }
        if !inner.mutex_list[mutex_id].as_ref().unwrap().is_locked() {
            return -1;
        }
    }
    let task = k.take_current_blocked();
    let tid = task.tid;
    let ghost mid = k.processes@;
    let inner = &mut k.processes[pid].as_mut().unwrap().inner;
    let next = inner.mutex_list[mutex_id].as_ref().unwrap().get_next_queue_id();
    if next == -1 {
        inner.mutex_ledger.release(tid, mutex_id);
    } else {
        assert(inner.mutex_list@[mutex_id as int]->0.waiters()[0].tid < inner.tasks@.len());
        inner.mutex_ledger.hand_over(tid, next as usize, mutex_id);
    }
    let mutex = inner.mutex_list[mutex_id].as_mut().unwrap();
    let condvar = inner.condvar_list[condvar_id].as_mut().unwrap();
    let woken = condvar.wait(mutex, task);
    proof {
        lemma_keeps_running(mid, k.processes@, k.task_manager@);
        lemma_keeps_running(mid, k.processes@, sleepers(k.timers@));
    }
    match woken {
        Some(next) => {
            assert(old(k).cur_proc().inner.mutex_list@[mutex_id as int]->0.waiters()[0].pid == pid);
            k.wakeup_task(next);
        },
        None => {},
    }
    k.schedule();
    0
}

/// Switches deadlock detection in the running thread's process on (1) or
/// off (0) and returns 0; any other argument gives -1 and changes nothing.
pub fn sys_enable_deadlock_detect(k: &mut Kernel, enabled: usize) -> (code: isize)
    requires
        old(k).wf(),
        old(k).current is Some,
    ensures
        final(k).wf(),
        code == (if enabled <= 1 {
            0isize
        } else {
            -1isize
        }),
        enabled > 1 ==> *final(k) == *old(k),
        enabled <= 1 ==> {
            &&& final(k).cur_proc().inner.deadlock_detect == (enabled == 1)
            &&& final(k).cur_proc().inner.same_but_detect(old(k).cur_proc().inner)
            &&& final(k).same_devices(*old(k))
            &&& final(k).same_but_process(*old(k), old(k).current->0.pid as int)
            &&& final(k).current == old(k).current
            &&& final(k).task_manager == old(k).task_manager
        },
{
    if enabled > 1 {
        return -1;
    }
    let pid = k.current.as_ref().unwrap().pid;
    k.processes[pid].as_mut().unwrap().inner.deadlock_detect = enabled == 1;
    proof {
        lemma_keeps_running(old(k).processes@, k.processes@, k.task_manager@);
        lemma_keeps_running(old(k).processes@, k.processes@, sleepers(k.timers@));
    }
    0
}

/// The running thread sleeps for `ms` milliseconds: it joins the sleepers
/// with the waking time `ms` from now (or the largest time there is, if
/// that lies beyond it), and another thread runs. Returns 0.
pub fn sys_sleep(k: &mut Kernel, ms: usize) -> (code: isize)
    requires
        old(k).wf(),
        old(k).current is Some,
    ensures
        final(k).wf(),
        code == 0,
        final(k).processes == old(k).processes,
        final(k).context == old(k).context,
        final(k).now_us == old(k).now_us,
        final(k).fs@ == old(k).fs@,
        final(k).pid_allocator == old(k).pid_allocator,
        ({
            let expire_ms = if old(k).now_us / 1000 + ms <= usize::MAX {
                (old(k).now_us / 1000 + ms) as usize
            } else {
                usize::MAX
            };
            let timer = TimerCondVar {
                expire_ms,
                task: blocked(old(k).current->0),
            };
            timer_added(old(k).timers@, final(k).timers@, timer)
        }),
        scheduled(
            old(k).task_manager@,
            final(k).task_manager@,
            final(k).current,
            old(k).now_us,
        ),
{
    let expire_ms = k.get_time_ms().saturating_add(ms);
    let task = k.take_current_blocked();
    k.add_timer(expire_ms, task);
    k.schedule();
    0
}

} // verus!
