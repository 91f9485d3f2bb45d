//! The ready queue and the stride scheduler that picks from it.

use vstd::prelude::*;
use std::collections::VecDeque;
use crate::config::{BIG_STRIDE, PRIORITY_MIN};
use crate::task::task::{TaskControlBlock, TaskStatus};

verus! {

/// The stride a thread advances by when it is dispatched.
pub open spec fn pass_of(priority: int) -> int {
    BIG_STRIDE as int / priority
}

/// A stride advanced by one dispatch; it stops at the largest machine word.
pub open spec fn advanced(stride: nat, priority: int) -> nat {
    if stride + pass_of(priority) <= usize::MAX {
        (stride + pass_of(priority)) as nat
    } else {
        usize::MAX as nat
    }
}

/// The thread `task` after one dispatch: only its stride has moved.
pub open spec fn dispatched(task: TaskControlBlock) -> TaskControlBlock {
    TaskControlBlock {
        stride: advanced(task.stride as nat, task.priority as int) as usize,
        ..task
    }
}

/// Position `i` of queue `q` holds a thread that may be dispatched.
pub open spec fn is_candidate(q: Seq<TaskControlBlock>, i: int) -> bool {
    0 <= i < q.len() && q[i].task_status == TaskStatus::Ready
}

/// Position `i` is the one the scheduler takes from queue `q`: it holds
/// the first among the ready threads of smallest stride.
pub open spec fn picks(q: Seq<TaskControlBlock>, i: int) -> bool {
    &&& is_candidate(q, i)
    &&& forall|j: int| is_candidate(q, j) ==> q[i].stride <= q[j].stride
    &&& forall|j: int| is_candidate(q, j) && j < i ==> q[i].stride < q[j].stride
}

/// The scheduler's choice is unique.
pub proof fn lemma_picks_unique(q: Seq<TaskControlBlock>, i: int, j: int)
    requires
        picks(q, i),
        picks(q, j),
    ensures
        i == j,
{
    if i < j {
        assert(q[j].stride < q[i].stride);
    } else if j < i {
        assert(q[i].stride < q[j].stride);
    }
}

/// One dispatch advances a stride by at most half the stride constant, and
/// by at least one as long as the priority does not exceed that constant.
pub proof fn lemma_pass_bounds(priority: int)
    requires
        priority >= PRIORITY_MIN,
    ensures
        0 <= pass_of(priority) <= BIG_STRIDE / 2,
        priority <= BIG_STRIDE ==> pass_of(priority) >= 1,
{
    assert(0 <= 0x100000int / priority <= 0x100000int / 2) by (nonlinear_arith)
        requires
            priority >= 2,
    ;
    if priority <= BIG_STRIDE {
        assert(0x100000int / priority >= 1) by (nonlinear_arith)
            requires
                2 <= priority <= 0x100000,
        ;
    }
}

/// A thread whose stride is below the stride constant stays, after one
/// dispatch, below that constant plus the largest pass.
pub proof fn lemma_dispatch_bound(task: TaskControlBlock)
    requires
        task.wf(),
        task.stride < BIG_STRIDE,
    ensures
        task.stride <= dispatched(task).stride,
        dispatched(task).stride < BIG_STRIDE + BIG_STRIDE / (PRIORITY_MIN as usize),
        dispatched(task).stride == task.stride + pass_of(task.priority as int),
{
    lemma_pass_bounds(task.priority as int);
}

/// Dispatching never lets the ready threads drift apart: when every ready
/// thread of the queue lies within the largest pass of the smallest stride,
/// the dispatched thread, put back, and all the others still do.
pub proof fn lemma_dispatch_keeps_spread(q: Seq<TaskControlBlock>, i: int, j: int)
    requires
        picks(q, i),
        is_candidate(q, j),
        q[i].wf(),
        forall|k: int| is_candidate(q, k) ==> q[k].stride <= q[i].stride + BIG_STRIDE / 2,
    ensures
        q[i].stride <= dispatched(q[i]).stride <= q[i].stride + BIG_STRIDE / 2,
        q[i].stride <= q[j].stride <= q[i].stride + BIG_STRIDE / 2,
{
    lemma_pass_bounds(q[i].priority as int);
}

/// The queue `q` after one turn: the thread that the scheduler picks is
/// dispatched and put back at the tail. A queue without a ready thread
/// stays as it is.
pub open spec fn turn(q: Seq<TaskControlBlock>) -> Seq<TaskControlBlock> {
    if exists|i: int| picks(q, i) {
        let i = choose|i: int| picks(q, i);
        q.remove(i).push(dispatched(q[i]))
    } else {
        q
    }
}

/// The queue `q` after `n` turns.
pub open spec fn turns(q: Seq<TaskControlBlock>, n: nat) -> Seq<TaskControlBlock>
    decreases n,
{
    if n == 0 {
        q
    } else {
        turn(turns(q, (n - 1) as nat))
    }
}

/// How often the `n` turns from queue `q` on dispatch thread `tid`.
pub open spec fn dispatches(q: Seq<TaskControlBlock>, n: nat, tid: usize) -> nat
    decreases n,
{
    if n == 0 {
        0
    } else {
        let before = turns(q, (n - 1) as nat);
        dispatches(q, (n - 1) as nat, tid) + (if (exists|i: int| picks(before, i))
            && before[choose|i: int| picks(before, i)].tid == tid {
            1nat
        } else {
            0nat
        })
    }
}

/// A turn is what `fetch` and then `add` of the fetched thread make of the queue.
pub proof fn lemma_turn(q: Seq<TaskControlBlock>, i: int)
    requires
        picks(q, i),
    ensures
        turn(q) == q.remove(i).push(dispatched(q[i])),
        (choose|j: int| picks(q, j)) == i,
{
    let j = choose|j: int| picks(q, j);
    lemma_picks_unique(q, i, j);
}

/// The thread `t` with stride `stride`.
pub open spec fn with_stride(t: TaskControlBlock, stride: usize) -> TaskControlBlock {
    TaskControlBlock { stride, ..t }
}

/// Two ready threads `a` and `b` of priorities 2 and 4 that start with the
/// same stride share the processor one to two: of every three turns `a`
/// gets the first and `b` the other two, after which they stand in the
/// queue as before, with the same stride again.
pub proof fn lemma_three_turns(a: TaskControlBlock, b: TaskControlBlock)
    requires
        a.task_status == TaskStatus::Ready,
        b.task_status == TaskStatus::Ready,
        a.priority == 2,
        b.priority == 4,
        a.tid != b.tid,
        a.stride == b.stride,
        a.stride + BIG_STRIDE / 2 <= usize::MAX,
    ensures
        ({
            let q = seq![a, b];
            let next = (a.stride + BIG_STRIDE / 2) as usize;
            &&& turns(q, 3) == seq![with_stride(a, next), with_stride(b, next)]
            &&& dispatches(q, 3, a.tid) == 1
            &&& dispatches(q, 3, b.tid) == 2
        }),
{
    let q0 = seq![a, b];
    let s = a.stride;
    let a1 = with_stride(a, (s + 0x80000) as usize);
    let b1 = with_stride(b, (s + 0x40000) as usize);
    let b2 = with_stride(b, (s + 0x80000) as usize);
    assert(pass_of(2) == 0x80000 && pass_of(4) == 0x40000);
    assert(is_candidate(q0, 0) && is_candidate(q0, 1));
    assert(picks(q0, 0));
    lemma_turn(q0, 0);
    let q1 = seq![b, a1];
    assert(dispatched(a) == a1);
    assert(turn(q0) =~= q1);
    assert(is_candidate(q1, 0) && is_candidate(q1, 1));
    assert(picks(q1, 0));
    lemma_turn(q1, 0);
    let q2 = seq![a1, b1];
    assert(dispatched(b) == b1);
    assert(turn(q1) =~= q2);
    assert(is_candidate(q2, 0) && is_candidate(q2, 1));
    assert(picks(q2, 1));
    lemma_turn(q2, 1);
    let q3 = seq![a1, b2];
    assert(dispatched(b1) == b2);
    assert(turn(q2) =~= q3);
    assert(turns(q0, 0) == q0);
    assert(turns(q0, 1) == q1);
    assert(turns(q0, 2) == q2);
    assert(turns(q0, 3) == q3);
    assert(dispatches(q0, 0, a.tid) == 0 && dispatches(q0, 0, b.tid) == 0);
    assert(dispatches(q0, 1, a.tid) == 1 && dispatches(q0, 1, b.tid) == 0);
    assert(dispatches(q0, 2, a.tid) == 1 && dispatches(q0, 2, b.tid) == 1);
}

/// Turns add up: `n + k` turns are `k` turns after `n` turns.
pub proof fn lemma_turns_add(q: Seq<TaskControlBlock>, n: nat, k: nat, tid: usize)
    ensures
        turns(q, n + k) == turns(turns(q, n), k),
        dispatches(q, n + k, tid) == dispatches(q, n, tid) + dispatches(turns(q, n), k, tid),
    decreases k,
{
    if k > 0 {
        lemma_turns_add(q, n, (k - 1) as nat, tid);
        assert(n + k - 1 == n + (k - 1));
    }
}

/// Stride fairness. Two ready threads `a` and `b` of priorities 2 and 4
/// that start with the same stride are dispatched in the ratio one to two:
/// after `3 * m` turns `a` has run `m` times and `b` twice as often, as
/// long as the strides stay within the machine word.
pub proof fn lemma_stride_fairness(a: TaskControlBlock, b: TaskControlBlock, m: nat)
    requires
        a.task_status == TaskStatus::Ready,
        b.task_status == TaskStatus::Ready,
        a.priority == 2,
        b.priority == 4,
        a.tid != b.tid,
        a.stride == b.stride,
        a.stride + m * (BIG_STRIDE / 2) <= usize::MAX,
    ensures
        ({
            let q = seq![a, b];
            let reached = (a.stride + m * (BIG_STRIDE / 2)) as usize;
            &&& turns(q, 3 * m) == seq![with_stride(a, reached), with_stride(b, reached)]
            &&& dispatches(q, 3 * m, a.tid) == m
            &&& dispatches(q, 3 * m, b.tid) == 2 * m
        }),
    decreases m,
{
    let q = seq![a, b];
    if m == 0 {
        assert(with_stride(a, a.stride) == a && with_stride(b, b.stride) == b);
    } else {
        let k = (m - 1) as nat;
        assert(k * 0x80000 + 0x80000 == m * 0x80000) by (nonlinear_arith)
            requires
                k + 1 == m,
        ;
        lemma_stride_fairness(a, b, k);
        let mid = (a.stride + k * (BIG_STRIDE / 2)) as usize;
        let am = with_stride(a, mid);
        let bm = with_stride(b, mid);
        lemma_three_turns(am, bm);
        lemma_turns_add(q, 3 * k, 3, a.tid);
        lemma_turns_add(q, 3 * k, 3, b.tid);
        assert(3 * k + 3 == 3 * m);
        let reached = (a.stride + m * (BIG_STRIDE / 2)) as usize;
        assert(with_stride(am, reached) == with_stride(a, reached));
        assert(with_stride(bm, reached) == with_stride(b, reached));
    }
}

/// The runnable threads, in the order in which they were added.
pub struct TaskManager {
    ready_queue: VecDeque<TaskControlBlock>,
}

impl View for TaskManager {
    type V = Seq<TaskControlBlock>;

    closed spec fn view(&self) -> Seq<TaskControlBlock> {
        self.ready_queue@
    }
}

impl TaskManager {
    /// Every queued thread has a valid priority.
    pub open spec fn wf(&self) -> bool {
        forall|i: int| 0 <= i < self@.len() ==> (#[trigger] self@[i]).wf()
    }

    /// An empty ready queue.
    pub fn new() -> (m: Self)
        ensures
            m@ == Seq::<TaskControlBlock>::empty(),
            m.wf(),
    {
        TaskManager { ready_queue: VecDeque::new() }
    }

    /// Number of queued threads.
    pub fn len(&self) -> (n: usize)
        ensures
            n == self@.len(),
    {
        self.ready_queue.len()
    }

    /// Adds a thread at the tail of the queue.
    pub fn add(&mut self, task: TaskControlBlock)
        requires
            old(self).wf(),
            task.wf(),
        ensures
            final(self).wf(),
            final(self)@ == old(self)@.push(task),
    {
        self.ready_queue.push_back(task);
    }

    /// Takes the next thread to run out of the queue and advances its
    /// stride. A queue that holds no ready thread stays as it is, and
    /// nothing is returned: a thread that is not ready is never taken.
    pub fn fetch(&mut self) -> (next: Option<TaskControlBlock>)
        requires
            old(self).wf(),
        ensures
            final(self).wf(),
            match next {
                None => (forall|j: int| !is_candidate(old(self)@, j)) && final(self)@ == old(
                    self,
                )@,
                Some(task) => (exists|i: int|
                    picks(old(self)@, i) && task == dispatched(old(self)@[i]) && final(self)@
                        == old(self)@.remove(i)) && final(self)@.push(task) == turn(old(self)@),
            },
    {
        let n = self.ready_queue.len();
        let mut index: usize = 0;
        let mut found: bool = false;
        let mut i: usize = 0;
        while i < n
            invariant
                n == self.ready_queue@.len(),
                i <= n,
                found ==> index < i && is_candidate(self.ready_queue@, index as int),
                !found ==> index == 0,
                found <==> exists|j: int| 0 <= j < i && is_candidate(self.ready_queue@, j),
                forall|j: int|
                    0 <= j < i && is_candidate(self.ready_queue@, j)
                        ==> self.ready_queue@[index as int].stride <= self.ready_queue@[j].stride,
                forall|j: int|
                    0 <= j < index && is_candidate(self.ready_queue@, j)
                        ==> self.ready_queue@[index as int].stride < self.ready_queue@[j].stride,
            decreases n - i,
        {
            if self.ready_queue[i].task_status == TaskStatus::Ready {
                assert(is_candidate(self.ready_queue@, i as int));
                if !found || self.ready_queue[i].stride < self.ready_queue[index].stride {
                    index = i;
                    found = true;
                }
            }
            i = i + 1;
        }
        if !found {
            assert forall|j: int| !is_candidate(self.ready_queue@, j) by {
                if is_candidate(self.ready_queue@, j) {
                    assert(0 <= j < i);
                }
            }
            return None;
        }
        assert(picks(self.ready_queue@, index as int));
        assert(self@[index as int].wf());
        let ghost before = self.ready_queue@;
        let taken = self.ready_queue.remove(index);
        let mut task = taken.unwrap();
        let pass = BIG_STRIDE / (task.priority as usize);
        assert(pass == pass_of(task.priority as int));
        task.stride = task.stride.saturating_add(pass);
        proof {
            lemma_turn(before, index as int);
            assert(task == dispatched(before[index as int]));
            assert forall|k: int| 0 <= k < self@.len() implies (#[trigger] self@[k]).wf() by {
                if k < index {
                    assert(self@[k] == before[k]);
                } else {
                    assert(self@[k] == before[k + 1]);
                }
            }
        }
        Some(task)
    }

    /// Drops every queued thread of process `pid`; the others keep their order.
    pub fn remove_process(&mut self, pid: usize)
        requires
            old(self).wf(),
        ensures
            final(self).wf(),
            final(self)@ == old(self)@.filter(|t: TaskControlBlock| t.pid != pid),
            forall|i: int|
                0 <= i < final(self)@.len() ==> (#[trigger] final(self)@[i]).pid != pid && old(
                    self,
                )@.contains(final(self)@[i]),
    {
        let ghost keep = |t: TaskControlBlock| t.pid != pid;
        let n = self.ready_queue.len();
        let mut kept: VecDeque<TaskControlBlock> = VecDeque::new();
        let mut i: usize = 0;
        let ghost before = self.ready_queue@;
        while i < n
            invariant
                before == old(self)@,
                old(self).wf(),
                keep == |t: TaskControlBlock| t.pid != pid,
                i <= n,
                n == before.len(),
                self.ready_queue@ == before.skip(i as int),
                kept@ == before.take(i as int).filter(keep),
                forall|k: int| 0 <= k < kept@.len() ==> (#[trigger] kept@[k]).wf(),
                forall|k: int|
                    0 <= k < kept@.len() ==> (#[trigger] kept@[k]).pid != pid && before.contains(
                        kept@[k],
                    ),
            decreases n - i,
        {
            let popped = self.ready_queue.pop_front();
            let task = popped.unwrap();
            proof {
                assert(task == before[i as int]);
                assert(old(self)@[i as int].wf());
                assert(before.take(i as int + 1) =~= before.take(i as int).push(task));
                Seq::lemma_filter_push(before.take(i as int), task, keep);
                assert(before.skip(i as int).skip(1) =~= before.skip(i as int + 1));
            }
            if task.pid != pid {
                kept.push_back(task);
            }
            i = i + 1;
        }
        proof {
            assert(before.take(n as int) =~= before);
        }
        self.ready_queue = kept;
    }
}

} // verus!
