//! Synchronisation objects owned by a process: spinning and blocking
//! mutexes, counting semaphores and condition variables.
//!
//! A blocking object does not hold its waiters itself: it names one of
//! the kernel's wait queues, and the scheduler moves threads in and
//! out of that queue in arrival order. Waking always takes the front
//! of the queue, which is what makes every wait FIFO.

use vstd::prelude::*;


verus! {

/// A mutex that spins: contention is resolved by yielding and
/// retrying, with no queue and no fairness.
pub struct MutexSpin {
    /// Whether the mutex is held.
    pub locked: bool,
}

impl MutexSpin {
    /// An open mutex.
    pub fn new() -> (r: Self)
        ensures
            !r.locked,
    {
        MutexSpin { locked: false }
    }
}

/// A mutex with a FIFO wait queue: an unlock hands the mutex straight
/// to the queue's front waiter.
pub struct MutexBlocking {
    /// Whether the mutex is held.
    pub locked: bool,
    /// The kernel wait queue holding this mutex's waiters.
    pub queue_sid: usize,
}

impl MutexBlocking {
    /// An open mutex waiting on the given kernel queue.
    pub fn new(queue_sid: usize) -> (r: Self)
        ensures
            !r.locked,
            r.queue_sid == queue_sid,
    {
        MutexBlocking { locked: false, queue_sid }
    }
}

/// One of the two mutex kinds a process can create. The variant set
/// is closed, so the kernel dispatches on the tag rather than through
/// a trait object.
pub enum MutexObj {
    /// A spinning mutex.
    Spin(MutexSpin),
    /// A blocking mutex.
    Blocking(MutexBlocking),
}

/// A counting semaphore with a FIFO wait queue: the count goes
/// negative while threads wait.
pub struct Semaphore {
    /// The counter; `-count` waiters when negative.
    pub count: i64,
    /// The kernel wait queue holding this semaphore's waiters.
    pub queue_sid: usize,
}

impl Semaphore {
    /// A semaphore starting at the given resource count.
    pub fn new(res_count: i64, queue_sid: usize) -> (r: Self)
        ensures
            r.count == res_count,
            r.queue_sid == queue_sid,
    {
        Semaphore { count: res_count, queue_sid }
    }
}

/// A condition variable: only a FIFO wait queue.
pub struct Condvar {
    /// The kernel wait queue holding this variable's waiters.
    pub queue_sid: usize,
}

impl Condvar {
    /// A condition variable waiting on the given kernel queue.
    pub fn new(queue_sid: usize) -> (r: Self)
        ensures
            r.queue_sid == queue_sid,
    {
        Condvar { queue_sid }
    }
}

/// Waits are FIFO: waking removes the front of the queue, so while an
/// earlier waiter is still queued, no wake can pick a later one. If
/// thread `a` queued before thread `b` and both still wait, the front
/// of the queue is never `b`.
pub proof fn lemma_wait_queue_fifo(q: Seq<usize>, i: int, j: int)
    requires
        q.no_duplicates(),
        0 <= i < j < q.len(),
    ensures
        q[0] != q[j],
{
}

} // verus!
