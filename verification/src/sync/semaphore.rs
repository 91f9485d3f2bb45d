//! The counting semaphore.

use vstd::prelude::*;
use std::collections::VecDeque;
use crate::sync::mutex::all_wf;
use crate::task::task::TaskControlBlock;

verus! {

/// The state of a semaphore: its count, which is negative by the number of
/// threads that wait, and those threads, longest waiting first.
pub struct SemaphoreInner {
    count: isize,
    wait_queue: VecDeque<TaskControlBlock>,
}

/// A counting semaphore.
pub struct Semaphore {
    inner: SemaphoreInner,
}

impl Semaphore {
    /// The count: units left when positive, waiting threads when negative.
    pub closed spec fn count(&self) -> int {
        self.inner.count as int
    }

    /// The blocked threads, longest waiting first.
    pub closed spec fn waiters(&self) -> Seq<TaskControlBlock> {
        self.inner.wait_queue@
    }

    /// As many threads wait as the count is below zero, and each is well formed.
    pub open spec fn wf(&self) -> bool {
        &&& all_wf(self.waiters())
        &&& self.waiters().len() == (if self.count() < 0 {
            -self.count()
        } else {
            0
        })
    }

    /// A semaphore with `res_count` units and no waiter.
    pub fn new(res_count: usize) -> (sem: Self)
        requires
            res_count <= isize::MAX,
        ensures
            sem.wf(),
            sem.count() == res_count,
            sem.waiters() == Seq::<TaskControlBlock>::empty(),
    {
        Semaphore { inner: SemaphoreInner { count: res_count as isize, wait_queue: VecDeque::new() } }
    }

    /// The current count.
    pub fn get_count(&self) -> (c: isize)
        ensures
            c == self.count(),
    {
        self.inner.count
    }

    /// The identifier of the thread that the next `up` wakes, or -1.
    pub fn get_next_queue_id(&self) -> (tid: isize)
        requires
            self.wf(),
        ensures
            tid == (if self.waiters().len() == 0 {
                -1
            } else {
                self.waiters()[0].tid as int
            }),
    {
        if self.inner.wait_queue.len() < 1 {
            -1
        } else {
            assert(self.waiters()[0].wf());
            self.inner.wait_queue[0].tid as isize
        }
    }

    /// Returns one unit. If threads wait, the longest waiting one leaves the
    /// queue and is returned to be made ready.
    pub fn up(&mut self) -> (woken: Option<TaskControlBlock>)
        requires
            old(self).wf(),
            old(self).count() < isize::MAX,
        ensures
            final(self).wf(),
            final(self).count() == old(self).count() + 1,
            match woken {
                Some(task) => old(self).count() < 0 && task == old(self).waiters()[0]
                    && task.wf() && final(self).waiters() == old(self).waiters().skip(1),
                None => old(self).count() >= 0 && final(self).waiters() == old(self).waiters(),
            },
    {
        self.inner.count = self.inner.count + 1;
        if self.inner.count <= 0 {
            let woken = self.inner.wait_queue.pop_front();
            proof {
                assert(old(self).waiters()[0].wf());
                assert(self.inner.wait_queue@ =~= old(self).waiters().skip(1));
                assert forall|i: int| 0 <= i < self.waiters().len() implies (
                #[trigger] self.waiters()[i]).wf() by {
                    assert(self.waiters()[i] == old(self).waiters()[i + 1]);
                }
            }
            woken
        } else {
            None
        }
    }

    /// `task` takes one unit. With a unit left it comes back to go on
    /// running; otherwise it stays at the tail of the queue.
    pub fn down(&mut self, task: TaskControlBlock) -> (back: Option<TaskControlBlock>)
        requires
            old(self).wf(),
            task.wf(),
            old(self).count() > isize::MIN,
        ensures
            final(self).wf(),
            final(self).count() == old(self).count() - 1,
            back == (if old(self).count() > 0 {
                Some(task)
            } else {
                None
            }),
            final(self).waiters() == (if old(self).count() > 0 {
                old(self).waiters()
            } else {
                old(self).waiters().push(task)
            }),
    {
        self.inner.count = self.inner.count - 1;
        if self.inner.count < 0 {
            self.inner.wait_queue.push_back(task);
            None
        } else {
            Some(task)
        }
    }
}

} // verus!
