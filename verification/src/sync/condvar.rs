//! The condition variable.

use vstd::prelude::*;
use std::collections::VecDeque;
use crate::sync::mutex::{all_wf, Mutex};
use crate::task::task::TaskControlBlock;

verus! {

/// A queue of threads that wait to be signalled.
pub struct Condvar {
    wait_queue: VecDeque<TaskControlBlock>,
}

impl Condvar {
    /// The blocked threads, longest waiting first.
    pub closed spec fn waiters(&self) -> Seq<TaskControlBlock> {
        self.wait_queue@
    }

    /// Every waiting thread is well formed.
    pub open spec fn wf(&self) -> bool {
        all_wf(self.waiters())
    }

    /// A condition variable nobody waits on.
    pub fn new() -> (cv: Self)
        ensures
            cv.wf(),
            cv.waiters() == Seq::<TaskControlBlock>::empty(),
    {
        Condvar { wait_queue: VecDeque::new() }
    }

    /// Wakes the longest waiting thread, if there is one: it leaves the queue
    /// and is returned to be made ready.
    pub fn signal(&mut self) -> (woken: Option<TaskControlBlock>)
        requires
            old(self).wf(),
        ensures
            final(self).wf(),
            match woken {
                Some(task) => old(self).waiters().len() > 0 && task == old(self).waiters()[0]
                    && task.wf() && final(self).waiters() == old(self).waiters().skip(1),
                None => old(self).waiters().len() == 0 && final(self).waiters() == old(
                    self,
                ).waiters(),
            },
    {
        let woken = self.wait_queue.pop_front();
        proof {
            if old(self).waiters().len() > 0 {
                assert(old(self).waiters()[0].wf());
                assert(self.wait_queue@ =~= old(self).waiters().skip(1));
                assert forall|i: int| 0 <= i < self.waiters().len() implies (
                #[trigger] self.waiters()[i]).wf() by {
                    assert(self.waiters()[i] == old(self).waiters()[i + 1]);
                }
            }
        }
        woken
    }

    /// `task` gives up `mutex` and goes to sleep at the tail of the queue.
    /// Returns the thread that the release of the mutex woke, if any. The
    /// sleeper takes the mutex again by itself once it has been signalled.
    pub fn wait(&mut self, mutex: &mut Mutex, task: TaskControlBlock) -> (woken: Option<
        TaskControlBlock,
    >)
        requires
            old(self).wf(),
            old(mutex).wf(),
            old(mutex).locked(),
            task.wf(),
        ensures
            final(self).wf(),
            final(mutex).wf(),
            final(self).waiters() == old(self).waiters().push(task),
            final(mutex).is_blocking() == old(mutex).is_blocking(),
            match woken {
                Some(next) => old(mutex).waiters().len() > 0 && next == old(mutex).waiters()[0]
                    && next.wf() && final(mutex).locked() && final(mutex).waiters() == old(
                    mutex,
                ).waiters().skip(1),
                None => old(mutex).waiters().len() == 0 && !final(mutex).locked()
                    && final(mutex).waiters() == old(mutex).waiters(),
            },
    {
        let woken = mutex.unlock();
        self.wait_queue.push_back(task);
        woken
    }
}

/// Threads leave a condition variable in the order in which they came: after
/// `k` signals on a queue that held at least `k` threads, the woken ones are
/// its first `k`, in order, and the rest still wait.
pub proof fn lemma_signals_are_fifo(q: Seq<TaskControlBlock>, k: nat)
    requires
        k <= q.len(),
    ensures
        signalled(q, k) == q.take(k as int),
        remaining(q, k) == q.skip(k as int),
    decreases k,
{
    if k > 0 {
        lemma_signals_are_fifo(q, (k - 1) as nat);
        assert(q.skip(k - 1).skip(1) =~= q.skip(k as int));
        assert(q.take(k - 1).push(q.skip(k - 1)[0]) =~= q.take(k as int));
    } else {
        assert(q.take(0) =~= Seq::<TaskControlBlock>::empty());
        assert(q.skip(0) =~= q);
    }
}

/// The threads woken by `k` signals in a row on the queue `q`, in the order
/// in which they wake.
pub open spec fn signalled(q: Seq<TaskControlBlock>, k: nat) -> Seq<TaskControlBlock>
    decreases k,
{
    if k == 0 {
        Seq::empty()
    } else {
        signalled(q, (k - 1) as nat).push(remaining(q, (k - 1) as nat)[0])
    }
}

/// The queue that `k` signals in a row leave of `q`.
pub open spec fn remaining(q: Seq<TaskControlBlock>, k: nat) -> Seq<TaskControlBlock>
    decreases k,
{
    if k == 0 {
        q
    } else {
        remaining(q, (k - 1) as nat).skip(1)
    }
}

} // verus!
