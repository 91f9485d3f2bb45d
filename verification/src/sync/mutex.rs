//! Mutexes: one that busy-yields and one that blocks its waiters in a queue.

use vstd::prelude::*;
use std::collections::VecDeque;
use crate::task::task::TaskControlBlock;

verus! {

/// Every thread of the queue is well formed.
pub open spec fn all_wf(q: Seq<TaskControlBlock>) -> bool {
    forall|i: int| 0 <= i < q.len() ==> (#[trigger] q[i]).wf()
}

/// A mutex without a waiter list: who finds it held yields and tries again.
pub struct MutexSpin {
    locked: bool,
}

impl MutexSpin {
    /// Whether the mutex is held.
    pub closed spec fn locked(&self) -> bool {
        self.locked
    }

    /// A free mutex.
    pub fn new() -> (m: Self)
        ensures
            !m.locked(),
    {
        MutexSpin { locked: false }
    }

    /// Whether the mutex is held.
    pub fn is_locked(&self) -> (b: bool)
        ensures
            b == self.locked(),
    {
        self.locked
    }

    /// Takes the mutex if it is free; tells whether it did.
    pub fn lock(&mut self) -> (acquired: bool)
        ensures
            acquired == !old(self).locked(),
            final(self).locked(),
    {
        if self.locked {
            false
        } else {
            self.locked = true;
            true
        }
    }

    /// Frees the mutex.
    pub fn unlock(&mut self)
        ensures
            !final(self).locked(),
    {
        self.locked = false;
    }
}

/// A mutex whose waiters sleep in a queue and are woken first come, first served.
pub struct MutexBlocking {
    locked: bool,
    wait_queue: VecDeque<TaskControlBlock>,
}

impl MutexBlocking {
    /// Whether the mutex is held.
    pub closed spec fn locked(&self) -> bool {
        self.locked
    }

    /// The blocked threads, longest waiting first.
    pub closed spec fn waiters(&self) -> Seq<TaskControlBlock> {
        self.wait_queue@
    }

    /// Threads wait only while the mutex is held, and each of them is well formed.
    pub open spec fn wf(&self) -> bool {
        &&& all_wf(self.waiters())
        &&& self.waiters().len() > 0 ==> self.locked()
    }

    /// A free mutex nobody waits for.
    pub fn new() -> (m: Self)
        ensures
            m.wf(),
            !m.locked(),
            m.waiters() == Seq::<TaskControlBlock>::empty(),
    {
        MutexBlocking { locked: false, wait_queue: VecDeque::new() }
    }

    /// Whether the mutex is held.
    pub fn is_locked(&self) -> (b: bool)
        ensures
            b == self.locked(),
    {
        self.locked
    }

    /// The identifier of the thread that the next unlock wakes, or -1.
    pub fn get_next_queue_id(&self) -> (tid: isize)
        requires
            self.wf(),
        ensures
            tid == (if self.waiters().len() == 0 {
                -1
            } else {
                self.waiters()[0].tid as int
            }),
    {
        if self.wait_queue.len() < 1 {
            -1
        } else {
            assert(self.waiters()[0].wf());
            self.wait_queue[0].tid as isize
        }
    }

    /// `task` asks for the mutex. A free mutex is taken and `task` comes back
    /// to go on running; a held one keeps `task` at the tail of its queue.
    pub fn lock(&mut self, task: TaskControlBlock) -> (back: Option<TaskControlBlock>)
        requires
            old(self).wf(),
            task.wf(),
        ensures
            final(self).wf(),
            final(self).locked(),
            back == (if old(self).locked() {
                None
            } else {
                Some(task)
            }),
            final(self).waiters() == (if old(self).locked() {
                old(self).waiters().push(task)
            } else {
                old(self).waiters()
            }),
    {
        if self.locked {
            self.wait_queue.push_back(task);
            None
        } else {
            self.locked = true;
            Some(task)
        }
    }

    /// Gives the mutex up. The longest waiting thread, if there is one, leaves
    /// the queue as the new holder and is returned to be made ready; with no
    /// waiter the mutex becomes free.
    pub fn unlock(&mut self) -> (woken: Option<TaskControlBlock>)
        requires
            old(self).wf(),
            old(self).locked(),
        ensures
            final(self).wf(),
            match woken {
                Some(task) => old(self).waiters().len() > 0 && task == old(self).waiters()[0]
                    && task.wf() && final(self).locked() && final(self).waiters() == old(
                    self,
                ).waiters().skip(1),
                None => old(self).waiters().len() == 0 && !final(self).locked()
                    && final(self).waiters() == old(self).waiters(),
            },
    {
        let woken = self.wait_queue.pop_front();
        proof {
            if old(self).waiters().len() > 0 {
                assert(old(self).waiters()[0].wf());
                assert(self.wait_queue@ =~= old(self).waiters().skip(1));
                assert forall|i: int| 0 <= i < self.waiters().len() implies (
                #[trigger] self.waiters()[i]).wf() by {
                    assert(self.waiters()[i] == old(self).waiters()[i + 1]);
                }
            }
        }
        if woken.is_none() {
            self.locked = false;
        }
        woken
    }
}

/// What became of a thread that asked for a mutex.
pub enum LockOutcome {
    /// It holds the mutex and goes on running.
    Acquired(TaskControlBlock),
    /// The mutex is held and keeps no queue: the thread yields and asks again.
    Busy(TaskControlBlock),
    /// The mutex is held and the thread now sleeps in its queue.
    Blocked,
}

/// Either kind of mutex.
pub enum Mutex {
    Spin(MutexSpin),
    Blocking(MutexBlocking),
}

impl Mutex {
    /// The mutex, if it keeps a queue, is well formed.
    pub open spec fn wf(&self) -> bool {
        match self {
            Mutex::Spin(_) => true,
            Mutex::Blocking(m) => m.wf(),
        }
    }

    /// Whether the mutex keeps a queue of waiters.
    pub open spec fn is_blocking(&self) -> bool {
        self is Blocking
    }

    /// Whether the mutex is held.
    pub open spec fn locked(&self) -> bool {
        match self {
            Mutex::Spin(m) => m.locked(),
            Mutex::Blocking(m) => m.locked(),
        }
    }

    /// The blocked threads, longest waiting first; a spin mutex has none.
    pub open spec fn waiters(&self) -> Seq<TaskControlBlock> {
        match self {
            Mutex::Spin(_) => Seq::empty(),
            Mutex::Blocking(m) => m.waiters(),
        }
    }

    /// A free mutex of the kind asked for.
    pub fn new(blocking: bool) -> (m: Self)
        ensures
            m.wf(),
            !m.locked(),
            m.waiters() == Seq::<TaskControlBlock>::empty(),
            m.is_blocking() == blocking,
    {
        if blocking {
            Mutex::Blocking(MutexBlocking::new())
        } else {
            Mutex::Spin(MutexSpin::new())
        }
    }

    /// Whether the mutex is held.
    pub fn is_locked(&self) -> (b: bool)
        ensures
            b == self.locked(),
    {
        match self {
            Mutex::Spin(m) => m.is_locked(),
            Mutex::Blocking(m) => m.is_locked(),
        }
    }

    /// Whether the mutex keeps a queue of waiters.
    pub fn blocks(&self) -> (b: bool)
        ensures
            b == self.is_blocking(),
    {
        match self {
            Mutex::Spin(_) => false,
            Mutex::Blocking(_) => true,
        }
    }

    /// The identifier of the thread that the next unlock wakes, or -1.
    pub fn get_next_queue_id(&self) -> (tid: isize)
        requires
            self.wf(),
        ensures
            tid == (if self.waiters().len() == 0 {
                -1
            } else {
                self.waiters()[0].tid as int
            }),
    {
        match self {
            Mutex::Spin(_) => -1,
            Mutex::Blocking(m) => m.get_next_queue_id(),
        }
    }

    /// `task` asks for the mutex.
    pub fn lock(&mut self, task: TaskControlBlock) -> (outcome: LockOutcome)
        requires
            old(self).wf(),
            task.wf(),
        ensures
            final(self).wf(),
            final(self).locked(),
            final(self).is_blocking() == old(self).is_blocking(),
            outcome == (if !old(self).locked() {
                LockOutcome::Acquired(task)
            } else if old(self).is_blocking() {
                LockOutcome::Blocked
            } else {
                LockOutcome::Busy(task)
            }),
            final(self).waiters() == (if old(self).locked() && old(self).is_blocking() {
                old(self).waiters().push(task)
            } else {
                old(self).waiters()
            }),
    {
        match self {
            Mutex::Spin(m) => {
                if m.lock() {
                    LockOutcome::Acquired(task)
                } else {
                    LockOutcome::Busy(task)
                }
            },
            Mutex::Blocking(m) => {
                match m.lock(task) {
                    Some(t) => LockOutcome::Acquired(t),
                    None => LockOutcome::Blocked,
                }
            },
        }
    }

    /// Gives the mutex up; returns the waiter that now holds it, if any.
    pub fn unlock(&mut self) -> (woken: Option<TaskControlBlock>)
        requires
            old(self).wf(),
            old(self).locked(),
        ensures
            final(self).wf(),
            final(self).is_blocking() == old(self).is_blocking(),
            match woken {
                Some(task) => old(self).waiters().len() > 0 && task == old(self).waiters()[0]
                    && task.wf() && final(self).locked() && final(self).waiters() == old(
                    self,
                ).waiters().skip(1),
                None => old(self).waiters().len() == 0 && !final(self).locked()
                    && final(self).waiters() == old(self).waiters(),
            },
    {
        match self {
            Mutex::Spin(m) => {
                m.unlock();
                None
            },
            Mutex::Blocking(m) => m.unlock(),
        }
    }
}

} // verus!
