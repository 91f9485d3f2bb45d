use kernel_core::config::DEADLOCK;
use kernel_core::sync::banker::ResourceLedger;
use kernel_core::sync::condvar::Condvar;
use kernel_core::sync::mutex::{LockOutcome, Mutex, MutexBlocking, MutexSpin};
use kernel_core::sync::semaphore::Semaphore;
use kernel_core::task::task::{TaskContext, TaskControlBlock, TrapContext};

fn thread(tid: usize) -> TaskControlBlock {
    TaskControlBlock::new(
        0,
        tid,
        TaskContext::zero_init(),
        TrapContext::app_init_context(0, 0, 0, 0, 0),
    )
}

fn ledger(threads: usize, units: &[usize]) -> ResourceLedger {
    let mut l = ResourceLedger::new(usize::MAX);
    for _ in 0..threads {
        l.add_thread();
    }
    for u in units {
        l.add_resource(*u);
    }
    l
}

fn total(l: &ResourceLedger, r: usize) -> usize {
    let mut sum = l.available(r);
    for t in 0..l.thread_count() {
        sum += l.allocation(t, r);
    }
    sum
}

#[test]
fn deadlock_sentinel_value() {
    assert_eq!(DEADLOCK, -0xDEAD);
    assert_eq!(DEADLOCK, -57005);
}

#[test]
fn empty_ledger_is_safe() {
    let l = ResourceLedger::new(1);
    assert_eq!(l.thread_count(), 0);
    assert_eq!(l.resource_count(), 0);
    assert_eq!(l.limit(), 1);
    assert_eq!(l.check_deadlock(), 0);
}

#[test]
fn banker_refuses_circular_wait() {
    let mut l = ledger(2, &[1, 1]);
    l.acquire(0, 0);
    l.acquire(1, 1);
    l.request(0, 1);
    assert_eq!(l.check_deadlock(), 0);
    l.request(1, 0);
    assert_eq!(l.check_deadlock(), DEADLOCK);
    l.withdraw(1, 0);
    assert_eq!(l.check_deadlock(), 0);
    assert_eq!(l.need(1, 0), 0);
    assert_eq!(l.need(0, 1), 1);
}

#[test]
fn banker_accepts_a_chain_that_can_unwind() {
    // thread 2 holds what 1 needs, 1 holds what 0 needs, 2 needs nothing
    let mut l = ledger(3, &[1, 1]);
    l.acquire(1, 0);
    l.acquire(2, 1);
    l.request(0, 0);
    l.request(1, 1);
    assert_eq!(l.check_deadlock(), 0);
}

#[test]
fn banker_finds_a_thread_that_finishes_late() {
    // only the last thread can finish first; the scan must come back to the others
    let mut l = ledger(3, &[2]);
    l.acquire(0, 0);
    l.acquire(2, 0);
    l.request(0, 0);
    l.request(1, 0);
    assert_eq!(l.available(0), 0);
    assert_eq!(l.check_deadlock(), 0);
    l.request(2, 0);
    assert_eq!(l.check_deadlock(), DEADLOCK);
}

#[test]
fn banker_refuses_when_one_thread_can_never_finish() {
    let mut l = ledger(2, &[1]);
    l.acquire(0, 0);
    l.request(0, 0);
    assert_eq!(l.check_deadlock(), DEADLOCK);
}

#[test]
fn totals_survive_acquire_release_and_hand_over() {
    let mut l = ledger(3, &[2, 5]);
    assert_eq!(total(&l, 0), 2);
    assert_eq!(total(&l, 1), 5);
    l.acquire(0, 0);
    l.acquire(1, 0);
    l.acquire(2, 1);
    assert_eq!(l.available(0), 0);
    assert_eq!(l.allocation(0, 0), 1);
    assert_eq!(l.allocation(1, 0), 1);
    assert_eq!(total(&l, 0), 2);
    assert_eq!(total(&l, 1), 5);
    l.request(2, 0);
    assert_eq!(total(&l, 0), 2);
    l.hand_over(0, 2, 0);
    assert_eq!(l.available(0), 0);
    assert_eq!(l.allocation(0, 0), 0);
    assert_eq!(l.allocation(2, 0), 1);
    assert_eq!(l.need(2, 0), 0);
    assert_eq!(total(&l, 0), 2);
    l.release(1, 0);
    assert_eq!(l.available(0), 1);
    assert_eq!(total(&l, 0), 2);
    l.release(2, 1);
    assert_eq!(l.available(1), 5);
    assert_eq!(total(&l, 1), 5);
}

#[test]
fn release_by_a_thread_that_holds_nothing_adds_a_unit() {
    let mut l = ledger(1, &[0]);
    l.release(0, 0);
    assert_eq!(l.available(0), 1);
    assert_eq!(l.allocation(0, 0), 0);
    assert_eq!(total(&l, 0), 1);
}

#[test]
fn mutex_ledger_counters_stay_binary() {
    let mut l = ResourceLedger::new(1);
    l.add_thread();
    l.add_thread();
    l.add_resource(1);
    l.acquire(0, 0);
    assert_eq!(l.available(0), 0);
    assert_eq!(l.allocation(0, 0), 1);
    l.request(1, 0);
    l.request(1, 0);
    assert_eq!(l.need(1, 0), 1);
    l.release(0, 0);
    l.release(0, 0);
    assert_eq!(l.available(0), 1);
    assert_eq!(l.allocation(0, 0), 0);
    l.acquire(1, 0);
    l.acquire(1, 0);
    assert_eq!(l.allocation(1, 0), 1);
    assert_eq!(l.available(0), 0);
    assert_eq!(l.need(1, 0), 0);
}

#[test]
fn new_rows_and_columns_are_zero() {
    let mut l = ledger(1, &[3]);
    l.acquire(0, 0);
    assert_eq!(l.add_thread(), 1);
    assert_eq!(l.add_resource(7), 1);
    assert_eq!(l.thread_count(), 2);
    assert_eq!(l.resource_count(), 2);
    assert_eq!(l.allocation(1, 0), 0);
    assert_eq!(l.allocation(1, 1), 0);
    assert_eq!(l.allocation(0, 1), 0);
    assert_eq!(l.need(0, 1), 0);
    assert_eq!(l.available(1), 7);
    assert_eq!(l.allocation(0, 0), 1);
    assert_eq!(l.available(0), 2);
}

#[test]
fn reset_resource_and_thread_start_over() {
    let mut l = ledger(2, &[2, 2]);
    l.acquire(0, 0);
    l.acquire(1, 0);
    l.acquire(1, 1);
    l.request(0, 1);
    l.reset_resource(0, 9);
    assert_eq!(l.available(0), 9);
    assert_eq!(l.allocation(0, 0), 0);
    assert_eq!(l.allocation(1, 0), 0);
    assert_eq!(l.allocation(1, 1), 1);
    assert_eq!(l.need(0, 1), 1);
    l.reset_thread(1);
    assert_eq!(l.allocation(1, 1), 0);
    assert_eq!(l.need(0, 1), 1);
    l.reset_thread(0);
    assert_eq!(l.need(0, 1), 0);
}

#[test]
fn clear_threads_leaves_only_the_free_units() {
    let mut l = ledger(2, &[3, 1]);
    l.acquire(0, 0);
    l.acquire(1, 0);
    l.acquire(1, 1);
    l.request(0, 1);
    l.clear_threads();
    for t in 0..2 {
        for r in 0..2 {
            assert_eq!(l.allocation(t, r), 0);
            assert_eq!(l.need(t, r), 0);
        }
    }
    assert_eq!(l.available(0), 1);
    assert_eq!(l.available(1), 0);
    assert_eq!(l.check_deadlock(), 0);
}

#[test]
fn semaphore_counts_and_wakes_in_order() {
    let mut s = Semaphore::new(1);
    assert_eq!(s.get_count(), 1);
    assert_eq!(s.get_next_queue_id(), -1);
    assert_eq!(s.down(thread(0)).unwrap().tid, 0);
    assert_eq!(s.get_count(), 0);
    assert!(s.down(thread(1)).is_none());
    assert!(s.down(thread(2)).is_none());
    assert_eq!(s.get_count(), -2);
    assert_eq!(s.get_next_queue_id(), 1);
    assert_eq!(s.up().unwrap().tid, 1);
    assert_eq!(s.get_count(), -1);
    assert_eq!(s.get_next_queue_id(), 2);
    assert_eq!(s.up().unwrap().tid, 2);
    assert_eq!(s.get_count(), 0);
    assert!(s.up().is_none());
    assert_eq!(s.get_count(), 1);
    assert_eq!(s.get_next_queue_id(), -1);
}

#[test]
fn semaphore_with_no_units_blocks_at_once() {
    let mut s = Semaphore::new(0);
    assert!(s.down(thread(4)).is_none());
    assert_eq!(s.get_next_queue_id(), 4);
    assert_eq!(s.up().unwrap().tid, 4);
    assert_eq!(s.get_count(), 0);
}

#[test]
fn blocking_mutex_hands_over_in_order() {
    let mut m = MutexBlocking::new();
    assert!(!m.is_locked());
    assert_eq!(m.lock(thread(0)).unwrap().tid, 0);
    assert!(m.is_locked());
    assert!(m.lock(thread(1)).is_none());
    assert!(m.lock(thread(2)).is_none());
    assert_eq!(m.get_next_queue_id(), 1);
    assert_eq!(m.unlock().unwrap().tid, 1);
    assert!(m.is_locked());
    assert_eq!(m.unlock().unwrap().tid, 2);
    assert!(m.is_locked());
    assert_eq!(m.get_next_queue_id(), -1);
    assert!(m.unlock().is_none());
    assert!(!m.is_locked());
}

#[test]
fn spin_mutex_reports_busy() {
    let mut m = MutexSpin::new();
    assert!(m.lock());
    assert!(m.is_locked());
    assert!(!m.lock());
    m.unlock();
    assert!(!m.is_locked());
    assert!(m.lock());
}

#[test]
fn mutex_of_either_kind() {
    let mut spin = Mutex::new(false);
    assert!(!spin.blocks());
    assert!(matches!(spin.lock(thread(0)), LockOutcome::Acquired(_)));
    assert!(matches!(spin.lock(thread(1)), LockOutcome::Busy(_)));
    assert_eq!(spin.get_next_queue_id(), -1);
    assert!(spin.unlock().is_none());
    assert!(!spin.is_locked());
    let mut blocking = Mutex::new(true);
    assert!(blocking.blocks());
    assert!(matches!(blocking.lock(thread(0)), LockOutcome::Acquired(_)));
    assert!(matches!(blocking.lock(thread(1)), LockOutcome::Blocked));
    assert_eq!(blocking.get_next_queue_id(), 1);
    assert_eq!(blocking.unlock().unwrap().tid, 1);
    assert!(blocking.is_locked());
}

#[test]
fn condvar_wakes_first_come_first_served() {
    let mut cv = Condvar::new();
    let mut m = Mutex::new(true);
    for tid in 1..=3 {
        assert!(matches!(m.lock(thread(tid)), LockOutcome::Acquired(_)));
        assert!(cv.wait(&mut m, thread(tid)).is_none());
        assert!(!m.is_locked());
    }
    assert_eq!(cv.signal().unwrap().tid, 1);
    assert_eq!(cv.signal().unwrap().tid, 2);
    assert_eq!(cv.signal().unwrap().tid, 3);
    assert!(cv.signal().is_none());
}

#[test]
fn condvar_wait_passes_the_mutex_on() {
    let mut cv = Condvar::new();
    let mut m = Mutex::new(true);
    assert!(matches!(m.lock(thread(0)), LockOutcome::Acquired(_)));
    assert!(matches!(m.lock(thread(1)), LockOutcome::Blocked));
    let woken = cv.wait(&mut m, thread(0));
    assert_eq!(woken.unwrap().tid, 1);
    assert!(m.is_locked());
    assert_eq!(cv.signal().unwrap().tid, 0);
}
