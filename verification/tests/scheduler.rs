use kernel_core::config::{BIG_STRIDE, PRIORITY_INIT};
use kernel_core::task::id::RecycleAllocator;
use kernel_core::task::manager::TaskManager;
use kernel_core::task::task::{TaskContext, TaskControlBlock, TaskStatus, TrapContext};

fn thread(pid: usize, tid: usize) -> TaskControlBlock {
    TaskControlBlock::new(
        pid,
        tid,
        TaskContext::zero_init(),
        TrapContext::app_init_context(0, 0, 0, 0, 0),
    )
}

fn thread_with(tid: usize, stride: usize, priority: isize) -> TaskControlBlock {
    let mut t = thread(0, tid);
    t.stride = stride;
    t.priority = priority;
    t
}

#[test]
fn new_thread_is_ready_with_initial_priority() {
    let t = thread(3, 1);
    assert_eq!(t.pid, 3);
    assert_eq!(t.tid, 1);
    assert!(t.task_status == TaskStatus::Ready);
    assert_eq!(t.stride, 0);
    assert_eq!(t.priority, PRIORITY_INIT);
    assert_eq!(t.start_time, 0);
    assert!(t.syscall_times.iter().all(|n| *n == 0));
}

#[test]
fn fetch_from_empty_queue_is_none() {
    let mut m = TaskManager::new();
    assert!(m.fetch().is_none());
    assert_eq!(m.len(), 0);
}

#[test]
fn fetch_advances_stride_by_big_stride_over_priority() {
    let mut m = TaskManager::new();
    m.add(thread_with(0, 100, 16));
    let t = m.fetch().unwrap();
    assert_eq!(t.stride, 100 + BIG_STRIDE / 16);
    assert_eq!(t.stride, 100 + 65536);
    assert_eq!(m.len(), 0);
}

#[test]
fn fetch_stride_stops_at_the_largest_word() {
    let mut m = TaskManager::new();
    m.add(thread_with(0, usize::MAX - 5, 2));
    let t = m.fetch().unwrap();
    assert_eq!(t.stride, usize::MAX);
}

#[test]
fn fetch_picks_smallest_stride() {
    let mut m = TaskManager::new();
    m.add(thread_with(0, 30, 2));
    m.add(thread_with(1, 10, 2));
    m.add(thread_with(2, 20, 2));
    assert_eq!(m.fetch().unwrap().tid, 1);
    assert_eq!(m.fetch().unwrap().tid, 2);
    assert_eq!(m.fetch().unwrap().tid, 0);
    assert!(m.fetch().is_none());
}

#[test]
fn fetch_breaks_ties_by_queue_order() {
    let mut m = TaskManager::new();
    m.add(thread_with(5, 7, 2));
    m.add(thread_with(6, 7, 2));
    m.add(thread_with(7, 7, 2));
    assert_eq!(m.fetch().unwrap().tid, 5);
    assert_eq!(m.fetch().unwrap().tid, 6);
    assert_eq!(m.fetch().unwrap().tid, 7);
}

#[test]
fn fetch_skips_threads_that_are_not_ready() {
    let mut m = TaskManager::new();
    let mut blocked = thread_with(0, 0, 2);
    blocked.task_status = TaskStatus::Blocked;
    m.add(blocked);
    m.add(thread_with(1, 50, 2));
    assert_eq!(m.fetch().unwrap().tid, 1);
    assert_eq!(m.len(), 1);
}

#[test]
fn fetch_never_takes_a_thread_that_is_not_ready() {
    let mut m = TaskManager::new();
    let mut a = thread_with(0, 9, 2);
    a.task_status = TaskStatus::Blocked;
    let mut b = thread_with(1, 1, 2);
    b.task_status = TaskStatus::Exited;
    m.add(a);
    m.add(b);
    assert!(m.fetch().is_none());
    assert_eq!(m.len(), 2);
    // once a ready thread joins, it is the one taken, and the others stay
    m.add(thread_with(2, 500, 2));
    let t = m.fetch().unwrap();
    assert_eq!(t.tid, 2);
    assert_eq!(t.stride, 500 + 0x80000);
    assert_eq!(m.len(), 2);
    assert!(m.fetch().is_none());
    assert_eq!(m.len(), 2);
}

#[test]
fn large_stride_is_still_chosen_over_larger() {
    let mut m = TaskManager::new();
    m.add(thread_with(0, 0x9000_0000, 2));
    m.add(thread_with(1, 0x8000_0000, 2));
    assert_eq!(m.fetch().unwrap().tid, 1);
}

#[test]
fn stride_fairness_two_to_one() {
    let mut m = TaskManager::new();
    m.add(thread_with(0, 0, 2));
    m.add(thread_with(1, 0, 4));
    let mut runs = [0u32; 2];
    for _ in 0..6000 {
        let t = m.fetch().unwrap();
        runs[t.tid] += 1;
        m.add(t);
    }
    assert_eq!(runs[0] + runs[1], 6000);
    let ratio = runs[1] as f64 / runs[0] as f64;
    assert!(ratio >= 1.9 && ratio <= 2.1, "ratio {}", ratio);
}

#[test]
fn dispatch_keeps_ready_threads_within_one_pass() {
    let mut m = TaskManager::new();
    m.add(thread_with(0, 0, 2));
    m.add(thread_with(1, 0, 3));
    m.add(thread_with(2, 0, 16));
    let mut strides = [0usize; 3];
    for _ in 0..1000 {
        let t = m.fetch().unwrap();
        strides[t.tid] = t.stride;
        m.add(t);
        let lo = *strides.iter().min().unwrap();
        let hi = *strides.iter().max().unwrap();
        assert!(hi - lo <= BIG_STRIDE / 2);
    }
}

#[test]
fn first_dispatch_stays_below_the_bound() {
    let mut m = TaskManager::new();
    m.add(thread_with(0, BIG_STRIDE - 1, 2));
    let t = m.fetch().unwrap();
    assert!(t.stride < BIG_STRIDE + BIG_STRIDE / 2);
    assert_eq!(t.stride, BIG_STRIDE - 1 + BIG_STRIDE / 2);
}

#[test]
fn remove_process_keeps_the_others_in_order() {
    let mut m = TaskManager::new();
    m.add(thread(1, 0));
    m.add(thread(2, 0));
    m.add(thread(1, 1));
    m.add(thread(3, 0));
    m.remove_process(1);
    assert_eq!(m.len(), 2);
    assert_eq!(m.fetch().unwrap().pid, 2);
    assert_eq!(m.fetch().unwrap().pid, 3);
}

#[test]
fn record_syscall_counts_and_ignores_unknown_ids() {
    let mut t = thread(0, 0);
    t.record_syscall(64);
    t.record_syscall(64);
    t.record_syscall(499);
    t.record_syscall(500);
    t.record_syscall(usize::MAX);
    assert_eq!(t.syscall_times[64], 2);
    assert_eq!(t.syscall_times[499], 1);
    assert_eq!(t.syscall_times.iter().map(|n| *n as u64).sum::<u64>(), 3);
    t.syscall_times[7] = u32::MAX;
    t.record_syscall(7);
    assert_eq!(t.syscall_times[7], u32::MAX);
}

#[test]
fn allocator_hands_out_smallest_free_id() {
    let mut a = RecycleAllocator::new();
    assert!(!a.is_exhausted());
    assert_eq!(a.alloc_id(), 0);
    assert_eq!(a.alloc_id(), 1);
    assert_eq!(a.alloc_id(), 2);
    assert_eq!(a.alloc_id(), 3);
    a.dealloc_id(2);
    a.dealloc_id(0);
    assert_eq!(a.alloc_id(), 0);
    assert_eq!(a.alloc_id(), 2);
    assert_eq!(a.alloc_id(), 4);
}

#[test]
fn allocator_alloc_then_dealloc_restores() {
    let mut a = RecycleAllocator::new();
    let x = a.alloc_id();
    let y = a.alloc_id();
    a.dealloc_id(y);
    assert_eq!(a.alloc_id(), y);
    a.dealloc_id(x);
    assert_eq!(a.alloc_id(), x);
}
