//! The syscall surface over the kernel model: synchronisation,
//! signals, threads and the simple process calls. Each call acts for
//! the running thread of the running process.
//!
//! A call that the hardware would resume later (a blocking lock, a
//! sleep) performs its state transition here and returns the value the
//! resumed thread will eventually see; the surrounding event loop
//! re-dispatches threads through the scheduler.

use vstd::prelude::*;

use crate::kernel::{new_task_record, Kernel};
use crate::process::{FdKind, ProcessControlBlock, ProcessControlBlockInner};
use crate::signal::{check_signal_error, first_user_sig, SignalAction, SignalState, SIGKILL, SIGNAL_DEF, SIGSTOP};
use crate::sync::{Condvar, MutexBlocking, MutexObj, MutexSpin, Semaphore};

verus! {

impl Kernel {
    /// Whether a running thread and its process are at hand.
    pub open spec fn cur_ok(self) -> bool {
        &&& self.current is Some
        &&& (self.current->Some_0 as int) < self.task_count()
        &&& (self.task(self.current->Some_0 as int).pid as int) < self.processes@.len()
        &&& self.processes@[self.task(self.current->Some_0 as int).pid as int] is Some
    }

    /// The running task's index.
    pub open spec fn cur_task(self) -> int {
        self.current->Some_0 as int
    }

    /// The running process's id.
    pub open spec fn cur_pid(self) -> int {
        self.task(self.cur_task()).pid as int
    }

    /// The running process's state.
    pub open spec fn cur_proc(self) -> crate::process::ProcessControlBlockInner {
        self.processes@[self.cur_pid()]->Some_0.inner
    }

    /// Take the running process's block out of the table to work on
    /// it; [`Kernel::put_proc`] puts it back.
    fn take_proc(&mut self, pid: usize) -> (p: ProcessControlBlock)
        requires
            (pid as int) < old(self).processes@.len(),
            old(self).processes@[pid as int] is Some,
        ensures
            Some(p) == old(self).processes@[pid as int],
            final(self).processes@ == old(self).processes@.update(pid as int, None),
            final(self).tasks == old(self).tasks,
            final(self).ready_queue == old(self).ready_queue,
            final(self).current == old(self).current,
            final(self).wait_queues == old(self).wait_queues,
            final(self).timers == old(self).timers,
            final(self).pipes == old(self).pipes,
            final(self).time_ms == old(self).time_ms,
            final(self).kernel_space == old(self).kernel_space,
            final(self).frame_allocator == old(self).frame_allocator,
            final(self).pid_allocator == old(self).pid_allocator,
            final(self).kstack_allocator == old(self).kstack_allocator,
            final(self).strampoline == old(self).strampoline,
            final(self).initproc_pid == old(self).initproc_pid,
    {
        let slot = self.processes[pid].take();
        match slot {
            Some(p) => p,
            None => ProcessControlBlock {
                pid: 0,
                inner: crate::process::ProcessControlBlockInner {
                    is_zombie: false,
                    memory_set: crate::memory_set::MemorySet::new_bare(),
                    base_size: 0,
                    parent: None,
                    children: Vec::new(),
                    exit_code: 0,
                    fd_table: Vec::new(),
                    signals: crate::signal::SignalState::new(),
                    task_res_allocator: crate::id::RecycleAllocator::new(),
                    tasks: Vec::new(),
                    mutex_list: Vec::new(),
                    semaphore_list: Vec::new(),
                    condvar_list: Vec::new(),
                },
            },
        }
    }

    /// Put a process block back into its table slot.
    fn put_proc(&mut self, pid: usize, p: ProcessControlBlock)
        requires
            (pid as int) < old(self).processes@.len(),
        ensures
            final(self).processes@ == old(self).processes@.update(pid as int, Some(p)),
            final(self).tasks == old(self).tasks,
            final(self).ready_queue == old(self).ready_queue,
            final(self).current == old(self).current,
            final(self).wait_queues == old(self).wait_queues,
            final(self).timers == old(self).timers,
            final(self).pipes == old(self).pipes,
            final(self).time_ms == old(self).time_ms,
            final(self).kernel_space == old(self).kernel_space,
            final(self).frame_allocator == old(self).frame_allocator,
            final(self).pid_allocator == old(self).pid_allocator,
            final(self).kstack_allocator == old(self).kstack_allocator,
            final(self).strampoline == old(self).strampoline,
            final(self).initproc_pid == old(self).initproc_pid,
    {
        self.processes[pid] = Some(p);
    }
}


impl Kernel {
    /// Whether the running process holds a mutex under this handle.
    pub open spec fn mutex_handle_ok(self, mutex_id: usize) -> bool {
        (mutex_id as int) < self.cur_proc().mutex_list@.len() && self.cur_proc().mutex_list@[
            mutex_id as int] is Some
    }

    /// Whether the running process holds a semaphore under this
    /// handle.
    pub open spec fn sem_handle_ok(self, sem_id: usize) -> bool {
        (sem_id as int) < self.cur_proc().semaphore_list@.len() && self.cur_proc().semaphore_list@[
            sem_id as int] is Some
    }

    /// Whether the running process holds a condition variable under
    /// this handle.
    pub open spec fn condvar_handle_ok(self, condvar_id: usize) -> bool {
        (condvar_id as int) < self.cur_proc().condvar_list@.len() && self.cur_proc().condvar_list@[
            condvar_id as int] is Some
    }

    /// Check a mutex handle of the running process.
    fn check_mutex_handle(&self, mutex_id: usize) -> (r: bool)
        requires
            self.sched_wf(),
            self.cur_ok(),
        ensures
            r == self.mutex_handle_ok(mutex_id),
    {
        proof {
            assert(self.processes@.len() == self.processes.len());
        }
        let c = match self.current {
            Some(c) => c,
            None => 0,
        };
        let pid = self.tasks[c].pid as usize;
        match &self.processes[pid] {
            Some(p) => mutex_id < p.inner.mutex_list.len() && p.inner.mutex_list[
                mutex_id].is_some(),
            None => false,
        }
    }

    /// Check a semaphore handle of the running process.
    fn check_sem_handle(&self, sem_id: usize) -> (r: bool)
        requires
            self.sched_wf(),
            self.cur_ok(),
        ensures
            r == self.sem_handle_ok(sem_id),
    {
        proof {
            assert(self.processes@.len() == self.processes.len());
        }
        let c = match self.current {
            Some(c) => c,
            None => 0,
        };
        let pid = self.tasks[c].pid as usize;
        match &self.processes[pid] {
            Some(p) => sem_id < p.inner.semaphore_list.len() && p.inner.semaphore_list[
                sem_id].is_some(),
            None => false,
        }
    }

    /// Check a condition-variable handle of the running process.
    fn check_condvar_handle(&self, condvar_id: usize) -> (r: bool)
        requires
            self.sched_wf(),
            self.cur_ok(),
        ensures
            r == self.condvar_handle_ok(condvar_id),
    {
        proof {
            assert(self.processes@.len() == self.processes.len());
        }
        let c = match self.current {
            Some(c) => c,
            None => 0,
        };
        let pid = self.tasks[c].pid as usize;
        match &self.processes[pid] {
            Some(p) => condvar_id < p.inner.condvar_list.len() && p.inner.condvar_list[
                condvar_id].is_some(),
            None => false,
        }
    }
}

/// Find the lowest free slot of an object table, or grow it by one.
/// The returned slot holds the new object.
fn store_in_slot<T>(list: &mut Vec<Option<T>>, obj: T) -> (r: usize)
    ensures
        r < final(list)@.len(),
        final(list)@[r as int] matches Some(o) && o == obj,
        forall|i: int|
            0 <= i < final(list)@.len() && i != r ==> #[trigger] final(list)@[i] == (if i < old(
                list,
            )@.len() {
                old(list)@[i]
            } else {
                None
            }),
        final(list)@.len() == old(list)@.len() || final(list)@.len() == old(list)@.len() + 1,
        forall|i: int| 0 <= i < r ==> (#[trigger] old(list)@[i]) is Some,
{
    let count = list.len();
    let mut i: usize = 0;
    while i < count
        invariant
            count == list@.len(),
            i <= count,
            *list == *old(list),
            forall|j: int| 0 <= j < i ==> (#[trigger] list@[j]) is Some,
        decreases count - i,
    {
        if list[i].is_none() {
            list[i] = Some(obj);
            return i;
        }
        i = i + 1;
    }
    list.push(Some(obj));
    count
}

/// Create a mutex for the running process: spinning, or blocking with
/// a fresh kernel wait queue. Returns its handle.
pub fn sys_mutex_create(k: &mut Kernel, blocking: bool) -> (r: i64)
    requires
        old(k).sched_wf(),
        old(k).cur_ok(),
        old(k).cur_proc().mutex_list@.len() < 0x7fff_ffff,
    ensures
        final(k).sched_wf(),
        final(k).cur_ok(),
        0 <= r < final(k).cur_proc().mutex_list@.len(),
        final(k).cur_proc().mutex_list@[r as int] matches Some(m) && match m {
            MutexObj::Spin(sp) => !blocking && !sp.locked,
            MutexObj::Blocking(b) => blocking && !b.locked && (b.queue_sid as int) < final(k).wait_queues@.len() && final(k).wait_queues@[b.queue_sid as int]@.len() == 0,
        },
        forall|i: int| 0 <= i < r ==> (#[trigger] old(k).cur_proc().mutex_list@[i]) is Some,
        forall|i: int|
            0 <= i < final(k).cur_proc().mutex_list@.len() && i != r
                ==> #[trigger] final(k).cur_proc().mutex_list@[i] == (if i < old(k).cur_proc().mutex_list@.len() {
                old(k).cur_proc().mutex_list@[i]
            } else {
                None
            }),
        final(k).cur_proc().mutex_list@.len() == old(k).cur_proc().mutex_list@.len() || final(k).cur_proc().mutex_list@.len() == old(k).cur_proc().mutex_list@.len() + 1,
        final(k).current == old(k).current,
        final(k).tasks == old(k).tasks,
        final(k).ready_queue == old(k).ready_queue,
{
    proof {
        assert(k.processes@.len() == k.processes.len());
    }
    let c = match k.current {
        Some(c) => c,
        None => 0,
    };
    let pid = k.tasks[c].pid as usize;
    let mutex: MutexObj = if blocking {
        let sid = k.alloc_wait_queue();
        MutexObj::Blocking(MutexBlocking::new(sid))
    } else {
        MutexObj::Spin(MutexSpin::new())
    };
    let ghost pre_take = *k;
    let mut p = k.take_proc(pid);
    let id = store_in_slot(&mut p.inner.mutex_list, mutex);
    k.put_proc(pid, p);
    proof {
        crate::kernel::lemma_sched_wf_unchanged(pre_take, *k);
    }
    id as i64
}

/// Lock a mutex of the running process. A free mutex is taken and the
/// call returns at once; a held blocking mutex queues the caller at
/// the back of the mutex's wait queue and gives up the processor; a
/// held spinning mutex just yields, and the caller retries.
pub fn sys_mutex_lock(k: &mut Kernel, mutex_id: usize) -> (r: i64)
    requires
        old(k).sched_wf(),
        old(k).cur_ok(),
        old(k).mutex_handle_ok(mutex_id) && (old(k).cur_proc().mutex_list@[
            mutex_id as int]->Some_0 matches MutexObj::Blocking(_)) ==> (old(
            k,
        ).cur_proc().mutex_list@[mutex_id as int]->Some_0->Blocking_0.queue_sid as int) < old(
            k,
        ).wait_queues@.len(),
    ensures
        final(k).sched_wf(),
        !old(k).mutex_handle_ok(mutex_id) ==> r == -1 && *final(k) == *old(k),
        old(k).mutex_handle_ok(mutex_id) ==> r == 0,
        old(k).mutex_handle_ok(mutex_id) ==> ({
            let old_m = old(k).cur_proc().mutex_list@[mutex_id as int]->Some_0;
            let pid = old(k).cur_pid();
            let new_m = final(k).processes@[pid]->Some_0.inner.mutex_list@[mutex_id as int];
            match old_m {
                MutexObj::Spin(sp) => {
                    if !sp.locked {
                        new_m == Some(MutexObj::Spin(MutexSpin { locked: true }))
                            && final(k).current == old(k).current
                    } else {
                        new_m == Some(old_m)
                    }
                },
                MutexObj::Blocking(b) => {
                    if !b.locked {
                        new_m == Some(
                            MutexObj::Blocking(MutexBlocking { locked: true, ..b }),
                        ) && final(k).current == old(k).current
                    } else {
                        new_m == Some(old_m) && final(k).wait_queues@[b.queue_sid as int]@
                            == old(k).wait_queues@[b.queue_sid as int]@.push(
                            old(k).current->Some_0,
                        ) && final(k).task(old(k).cur_task()).task_status
                            is Blocked
                    }
                },
            }
        }),
{
    if !k.check_mutex_handle(mutex_id) {
        return -1;
    }
    proof {
        assert(k.processes@.len() == k.processes.len());
    }
    let c = match k.current {
        Some(c) => c,
        None => 0,
    };
    let pid = k.tasks[c].pid as usize;
    proof {
        assert(pid as int == old(k).cur_pid());
    }
    let ghost pre_take = *k;
    let mut p = k.take_proc(pid);
    let entry = p.inner.mutex_list[mutex_id].take();
    proof {
        assert(entry == old(k).cur_proc().mutex_list@[mutex_id as int]);
    }
    let r: i64;
    match entry {
        Some(MutexObj::Spin(sp)) => {
            if !sp.locked {
                p.inner.mutex_list[mutex_id] = Some(MutexObj::Spin(MutexSpin { locked: true }));
                k.put_proc(pid, p);
                proof {
                    crate::kernel::lemma_sched_wf_unchanged(pre_take, *k);
                    assert(k.processes@[pid as int]->Some_0.inner.mutex_list@[mutex_id as int]
                        == Some(MutexObj::Spin(MutexSpin { locked: true })));
                    assert(k.current == old(k).current);
                }
            } else {
                p.inner.mutex_list[mutex_id] = Some(MutexObj::Spin(sp));
                k.put_proc(pid, p);
                proof {
                    crate::kernel::lemma_sched_wf_unchanged(pre_take, *k);
                    assert(k.processes@[pid as int]->Some_0.inner.mutex_list@[mutex_id as int]
                        == Some(MutexObj::Spin(sp)));
                }
                let ghost pre_susp = *k;
                k.suspend_current_and_run_next();
                proof {
                    assert(k.processes == pre_susp.processes);
                }
            }
            r = 0;
        },
        Some(MutexObj::Blocking(b)) => {
            if !b.locked {
                p.inner.mutex_list[mutex_id] = Some(
                    MutexObj::Blocking(MutexBlocking { locked: true, queue_sid: b.queue_sid }),
                );
                k.put_proc(pid, p);
                proof {
                    crate::kernel::lemma_sched_wf_unchanged(pre_take, *k);
                    assert(k.processes@[pid as int]->Some_0.inner.mutex_list@[mutex_id as int]
                        == Some(
                        MutexObj::Blocking(
                            MutexBlocking { locked: true, queue_sid: b.queue_sid },
                        ),
                    ));
                    assert(k.current == old(k).current);
                }
            } else {
                let sid = b.queue_sid;
                p.inner.mutex_list[mutex_id] = Some(MutexObj::Blocking(b));
                k.put_proc(pid, p);
                proof {
                    crate::kernel::lemma_sched_wf_unchanged(pre_take, *k);
                    assert(k.processes@[pid as int]->Some_0.inner.mutex_list@[mutex_id as int]
                        == Some(MutexObj::Blocking(b)));
                }
                let ghost pre_block = *k;
                k.block_current_and_run_next(sid);
                proof {
                    assert(k.processes == pre_block.processes);
                    assert(k.processes@[pid as int]->Some_0.inner.mutex_list@[mutex_id as int]
                        == Some(MutexObj::Blocking(b)));
                    assert(k.wait_queues@[sid as int]@ == old(k).wait_queues@[sid as int]@.push(
                        old(k).current->Some_0,
                    ));
                }
            }
            r = 0;
        },
        None => {
            proof {
                assert(old(k).cur_proc().mutex_list@[mutex_id as int] is Some);
            }
            k.put_proc(pid, p);
            proof {
                crate::kernel::lemma_sched_wf_unchanged(pre_take, *k);
            }
            r = 0;
        },
    }
    r
}

/// Unlock a mutex of the running process. A blocking mutex with
/// waiters hands itself to the front waiter — the one queued longest —
/// which becomes ready; otherwise the mutex is simply freed.
pub fn sys_mutex_unlock(k: &mut Kernel, mutex_id: usize) -> (r: i64)
    requires
        old(k).sched_wf(),
        old(k).cur_ok(),
        old(k).mutex_handle_ok(mutex_id) && (old(k).cur_proc().mutex_list@[
            mutex_id as int]->Some_0 matches MutexObj::Blocking(_)) ==> (old(
            k,
        ).cur_proc().mutex_list@[mutex_id as int]->Some_0->Blocking_0.queue_sid as int) < old(
            k,
        ).wait_queues@.len() && old(k).cur_proc().mutex_list@[
            mutex_id as int]->Some_0->Blocking_0.locked,
    ensures
        final(k).sched_wf(),
        !old(k).mutex_handle_ok(mutex_id) ==> r == -1 && *final(k) == *old(k),
        old(k).mutex_handle_ok(mutex_id) ==> r == 0,
        old(k).mutex_handle_ok(mutex_id) ==> ({
            let old_m = old(k).cur_proc().mutex_list@[mutex_id as int]->Some_0;
            let pid = old(k).cur_pid();
            let new_m = final(k).processes@[pid]->Some_0.inner.mutex_list@[mutex_id as int];
            match old_m {
                MutexObj::Spin(sp) => new_m == Some(
                    MutexObj::Spin(MutexSpin { locked: false }),
                ),
                MutexObj::Blocking(b) => {
                    let q = old(k).wait_queues@[b.queue_sid as int]@;
                    if q.len() > 0 {
                        // ownership passes to the longest waiter
                        &&& new_m == Some(old_m)
                        &&& final(k).wait_queues@[b.queue_sid as int]@ == q.drop_first()
                        &&& final(k).ready_queue@ == old(k).ready_queue@.push(q[0])
                        &&& final(k).task(q[0] as int).task_status is Ready
                    } else {
                        new_m == Some(
                            MutexObj::Blocking(MutexBlocking { locked: false, ..b }),
                        )
                    }
                },
            }
        }),
        final(k).current == old(k).current,
        final(k).cur_ok(),
        final(k).cur_pid() == old(k).cur_pid(),
        final(k).wait_queues@.len() == old(k).wait_queues@.len(),
        final(k).task(old(k).cur_task()) == old(k).task(old(k).cur_task()),
{
    if !k.check_mutex_handle(mutex_id) {
        return -1;
    }
    proof {
        assert(k.processes@.len() == k.processes.len());
    }
    let c = match k.current {
        Some(c) => c,
        None => 0,
    };
    let pid = k.tasks[c].pid as usize;
    proof {
        assert(pid as int == old(k).cur_pid());
    }
    let ghost pre_take = *k;
    let mut p = k.take_proc(pid);
    let entry = p.inner.mutex_list[mutex_id].take();
    proof {
        assert(entry == old(k).cur_proc().mutex_list@[mutex_id as int]);
    }
    match entry {
        Some(MutexObj::Spin(_sp)) => {
            p.inner.mutex_list[mutex_id] = Some(MutexObj::Spin(MutexSpin { locked: false }));
            k.put_proc(pid, p);
            proof {
                crate::kernel::lemma_sched_wf_unchanged(pre_take, *k);
            }
        },
        Some(MutexObj::Blocking(b)) => {
            let sid = b.queue_sid;
            if k.wait_queues[sid].len() > 0 {
                p.inner.mutex_list[mutex_id] = Some(MutexObj::Blocking(b));
                k.put_proc(pid, p);
                proof {
                    crate::kernel::lemma_sched_wf_unchanged(pre_take, *k);
                    reveal(crate::kernel::Kernel::c_queue_entries);
                    reveal(crate::kernel::Kernel::c_blocked);
                    reveal(crate::kernel::Kernel::c_current);
                    assert(k.task(k.wait_queues@[sid as int]@[0] as int).blocked_on@ is Some);
                    assert(k.task(k.wait_queues@[sid as int]@[0] as int).task_status
                        is Blocked);
                    assert(k.task(old(k).cur_task()).task_status is Running);
                    assert(k.wait_queues@[sid as int]@[0] != c);
                }
                k.wake_first_from_queue(sid);
            } else {
                p.inner.mutex_list[mutex_id] = Some(
                    MutexObj::Blocking(MutexBlocking { locked: false, queue_sid: sid }),
                );
                k.put_proc(pid, p);
                proof {
                    crate::kernel::lemma_sched_wf_unchanged(pre_take, *k);
                }
            }
        },
        None => {
            proof {
                assert(old(k).cur_proc().mutex_list@[mutex_id as int] is Some);
            }
            k.put_proc(pid, p);
            proof {
                crate::kernel::lemma_sched_wf_unchanged(pre_take, *k);
            }
        },
    }
    0
}


/// Create a semaphore with the given resource count for the running
/// process. Returns its handle.
pub fn sys_semaphore_create(k: &mut Kernel, res_count: usize) -> (r: i64)
    requires
        old(k).sched_wf(),
        old(k).cur_ok(),
        old(k).cur_proc().semaphore_list@.len() < 0x7fff_ffff,
        res_count < 0x7fff_ffff,
    ensures
        final(k).sched_wf(),
        final(k).cur_ok(),
        0 <= r < final(k).cur_proc().semaphore_list@.len(),
        final(k).cur_proc().semaphore_list@[r as int] matches Some(sm) && sm.count == res_count
            && (sm.queue_sid as int) < final(k).wait_queues@.len() && final(k).wait_queues@[
            sm.queue_sid as int]@.len() == 0,
        forall|i: int| 0 <= i < r ==> (#[trigger] old(k).cur_proc().semaphore_list@[i]) is Some,
        forall|i: int|
            0 <= i < final(k).cur_proc().semaphore_list@.len() && i != r
                ==> #[trigger] final(k).cur_proc().semaphore_list@[i] == (if i < old(k).cur_proc().semaphore_list@.len() {
                old(k).cur_proc().semaphore_list@[i]
            } else {
                None
            }),
        final(k).cur_proc().semaphore_list@.len() == old(k).cur_proc().semaphore_list@.len()
            || final(k).cur_proc().semaphore_list@.len() == old(k).cur_proc().semaphore_list@.len() + 1,
        final(k).current == old(k).current,
        final(k).tasks == old(k).tasks,
        final(k).ready_queue == old(k).ready_queue,
{
    proof {
        assert(k.processes@.len() == k.processes.len());
    }
    let c = match k.current {
        Some(c) => c,
        None => 0,
    };
    let pid = k.tasks[c].pid as usize;
    let sid = k.alloc_wait_queue();
    let sem = Semaphore::new(res_count as i64, sid);
    let ghost pre_take = *k;
    let mut p = k.take_proc(pid);
    let id = store_in_slot(&mut p.inner.semaphore_list, sem);
    k.put_proc(pid, p);
    proof {
        crate::kernel::lemma_sched_wf_unchanged(pre_take, *k);
    }
    id as i64
}

/// Release one unit of a semaphore of the running process: the count
/// rises, and if anyone was waiting, the longest waiter wakes.
pub fn sys_semaphore_up(k: &mut Kernel, sem_id: usize) -> (r: i64)
    requires
        old(k).sched_wf(),
        old(k).cur_ok(),
        old(k).sem_handle_ok(sem_id) ==> (old(k).cur_proc().semaphore_list@[
            sem_id as int]->Some_0.queue_sid as int) < old(k).wait_queues@.len() && old(
            k,
        ).cur_proc().semaphore_list@[sem_id as int]->Some_0.count < 0x7fff_ffff_ffff_ffff,
    ensures
        final(k).sched_wf(),
        !old(k).sem_handle_ok(sem_id) ==> r == -1 && *final(k) == *old(k),
        old(k).sem_handle_ok(sem_id) ==> r == 0,
        old(k).sem_handle_ok(sem_id) ==> ({
            let sm = old(k).cur_proc().semaphore_list@[sem_id as int]->Some_0;
            let pid = old(k).cur_pid();
            let new_sm = final(k).processes@[pid]->Some_0.inner.semaphore_list@[sem_id as int];
            let q = old(k).wait_queues@[sm.queue_sid as int]@;
            &&& new_sm == Some(Semaphore { count: (sm.count + 1) as i64, ..sm })
            &&& (sm.count < 0 && q.len() > 0 ==> final(k).wait_queues@[sm.queue_sid as int]@
                == q.drop_first() && final(k).ready_queue@ == old(k).ready_queue@.push(q[0])
                && final(k).task(q[0] as int).task_status is Ready)
            &&& (!(sm.count < 0 && q.len() > 0) ==> final(k).wait_queues == old(k).wait_queues
                && final(k).ready_queue == old(k).ready_queue)
        }),
        final(k).current == old(k).current,
{
    if !k.check_sem_handle(sem_id) {
        return -1;
    }
    proof {
        assert(k.processes@.len() == k.processes.len());
    }
    let c = match k.current {
        Some(c) => c,
        None => 0,
    };
    let pid = k.tasks[c].pid as usize;
    proof {
        assert(pid as int == old(k).cur_pid());
    }
    let ghost pre_take = *k;
    let mut p = k.take_proc(pid);
    let entry = p.inner.semaphore_list[sem_id].take();
    proof {
        assert(entry == old(k).cur_proc().semaphore_list@[sem_id as int]);
    }
    match entry {
        Some(sm) => {
            let was_negative = sm.count < 0;
            let sid = sm.queue_sid;
            p.inner.semaphore_list[sem_id] = Some(
                Semaphore { count: sm.count + 1, queue_sid: sid },
            );
            k.put_proc(pid, p);
            proof {
                crate::kernel::lemma_sched_wf_unchanged(pre_take, *k);
            }
            if was_negative && k.wait_queues[sid].len() > 0 {
                k.wake_first_from_queue(sid);
            }
        },
        None => {
            proof {
                assert(old(k).cur_proc().semaphore_list@[sem_id as int] is Some);
            }
            k.put_proc(pid, p);
            proof {
                crate::kernel::lemma_sched_wf_unchanged(pre_take, *k);
            }
        },
    }
    0
}

/// Take one unit of a semaphore of the running process: the count
/// falls, and if it falls below zero the caller queues up and gives
/// up the processor.
pub fn sys_semaphore_down(k: &mut Kernel, sem_id: usize) -> (r: i64)
    requires
        old(k).sched_wf(),
        old(k).cur_ok(),
        old(k).sem_handle_ok(sem_id) ==> (old(k).cur_proc().semaphore_list@[
            sem_id as int]->Some_0.queue_sid as int) < old(k).wait_queues@.len() && old(
            k,
        ).cur_proc().semaphore_list@[sem_id as int]->Some_0.count > -0x7fff_ffff_ffff_ffff,
    ensures
        final(k).sched_wf(),
        !old(k).sem_handle_ok(sem_id) ==> r == -1 && *final(k) == *old(k),
        old(k).sem_handle_ok(sem_id) ==> r == 0,
        old(k).sem_handle_ok(sem_id) ==> ({
            let sm = old(k).cur_proc().semaphore_list@[sem_id as int]->Some_0;
            let pid = old(k).cur_pid();
            let new_sm = final(k).processes@[pid]->Some_0.inner.semaphore_list@[sem_id as int];
            &&& new_sm == Some(Semaphore { count: (sm.count - 1) as i64, ..sm })
            &&& (sm.count - 1 < 0 ==> final(k).wait_queues@[sm.queue_sid as int]@ == old(k).wait_queues@[sm.queue_sid as int]@.push(old(k).current->Some_0) && final(k).task(
                old(k).cur_task(),
            ).task_status is Blocked)
            &&& (sm.count - 1 >= 0 ==> final(k).wait_queues == old(k).wait_queues && final(k).current == old(k).current)
        }),
{
    if !k.check_sem_handle(sem_id) {
        return -1;
    }
    proof {
        assert(k.processes@.len() == k.processes.len());
    }
    let c = match k.current {
        Some(c) => c,
        None => 0,
    };
    let pid = k.tasks[c].pid as usize;
    proof {
        assert(pid as int == old(k).cur_pid());
    }
    let ghost pre_take = *k;
    let mut p = k.take_proc(pid);
    let entry = p.inner.semaphore_list[sem_id].take();
    proof {
        assert(entry == old(k).cur_proc().semaphore_list@[sem_id as int]);
    }
    match entry {
        Some(sm) => {
            let new_count = sm.count - 1;
            let sid = sm.queue_sid;
            p.inner.semaphore_list[sem_id] = Some(
                Semaphore { count: new_count, queue_sid: sid },
            );
            k.put_proc(pid, p);
            proof {
                crate::kernel::lemma_sched_wf_unchanged(pre_take, *k);
            }
            if new_count < 0 {
                k.block_current_and_run_next(sid);
            }
        },
        None => {
            proof {
                assert(old(k).cur_proc().semaphore_list@[sem_id as int] is Some);
            }
            k.put_proc(pid, p);
            proof {
                crate::kernel::lemma_sched_wf_unchanged(pre_take, *k);
            }
        },
    }
    0
}

/// Create a condition variable for the running process. Returns its
/// handle.
pub fn sys_condvar_create(k: &mut Kernel) -> (r: i64)
    requires
        old(k).sched_wf(),
        old(k).cur_ok(),
        old(k).cur_proc().condvar_list@.len() < 0x7fff_ffff,
    ensures
        final(k).sched_wf(),
        final(k).cur_ok(),
        0 <= r < final(k).cur_proc().condvar_list@.len(),
        final(k).cur_proc().condvar_list@[r as int] matches Some(cv) && (cv.queue_sid as int)
            < final(k).wait_queues@.len() && final(k).wait_queues@[cv.queue_sid as int]@.len()
            == 0,
        forall|i: int| 0 <= i < r ==> (#[trigger] old(k).cur_proc().condvar_list@[i]) is Some,
        forall|i: int|
            0 <= i < final(k).cur_proc().condvar_list@.len() && i != r
                ==> #[trigger] final(k).cur_proc().condvar_list@[i] == (if i < old(k).cur_proc().condvar_list@.len() {
                old(k).cur_proc().condvar_list@[i]
            } else {
                None
            }),
        final(k).cur_proc().condvar_list@.len() == old(k).cur_proc().condvar_list@.len() || final(k).cur_proc().condvar_list@.len() == old(k).cur_proc().condvar_list@.len() + 1,
        final(k).current == old(k).current,
        final(k).tasks == old(k).tasks,
        final(k).ready_queue == old(k).ready_queue,
{
    proof {
        assert(k.processes@.len() == k.processes.len());
    }
    let c = match k.current {
        Some(c) => c,
        None => 0,
    };
    let pid = k.tasks[c].pid as usize;
    let sid = k.alloc_wait_queue();
    let cv = Condvar::new(sid);
    let ghost pre_take = *k;
    let mut p = k.take_proc(pid);
    let id = store_in_slot(&mut p.inner.condvar_list, cv);
    k.put_proc(pid, p);
    proof {
        crate::kernel::lemma_sched_wf_unchanged(pre_take, *k);
    }
    id as i64
}

/// Wake the longest waiter of a condition variable of the running
/// process, if any.
pub fn sys_condvar_signal(k: &mut Kernel, condvar_id: usize) -> (r: i64)
    requires
        old(k).sched_wf(),
        old(k).cur_ok(),
        old(k).condvar_handle_ok(condvar_id) ==> (old(k).cur_proc().condvar_list@[
            condvar_id as int]->Some_0.queue_sid as int) < old(k).wait_queues@.len(),
    ensures
        final(k).sched_wf(),
        !old(k).condvar_handle_ok(condvar_id) ==> r == -1 && *final(k) == *old(k),
        old(k).condvar_handle_ok(condvar_id) ==> r == 0,
        old(k).condvar_handle_ok(condvar_id) ==> ({
            let cv = old(k).cur_proc().condvar_list@[condvar_id as int]->Some_0;
            let q = old(k).wait_queues@[cv.queue_sid as int]@;
            &&& (q.len() > 0 ==> final(k).wait_queues@[cv.queue_sid as int]@ == q.drop_first()
                && final(k).ready_queue@ == old(k).ready_queue@.push(q[0]) && final(k).task(
                q[0] as int,
            ).task_status is Ready)
            &&& (q.len() == 0 ==> *final(k) == *old(k))
        }),
        final(k).current == old(k).current,
{
    if !k.check_condvar_handle(condvar_id) {
        return -1;
    }
    let c = match k.current {
        Some(c) => c,
        None => 0,
    };
    let sid_opt = {
        proof {
            assert(k.processes@.len() == k.processes.len());
        }
        let pid = k.tasks[c].pid as usize;
        let slot = &k.processes[pid];
        match slot {
            Some(pp) => {
                match &pp.inner.condvar_list[condvar_id] {
                    Some(cv) => Some(cv.queue_sid),
                    None => None,
                }
            },
            None => None,
        }
    };
    match sid_opt {
        Some(sid) => {
            k.wake_first_from_queue(sid);
        },
        None => {
        },
    }
    0
}

/// Wait on a condition variable of the running process while holding
/// the given blocking mutex: the mutex is released — handed to its
/// longest waiter if any — and the caller queues on the variable and
/// gives up the processor. The event loop owes the woken waiter one
/// call of [`sys_condvar_wait_resume`] when it next dispatches it;
/// only after that resumption does the caller hold the mutex again.
pub fn sys_condvar_wait(k: &mut Kernel, condvar_id: usize, mutex_id: usize) -> (r: i64)
    requires
        old(k).sched_wf(),
        old(k).cur_ok(),
        old(k).condvar_handle_ok(condvar_id) ==> (old(k).cur_proc().condvar_list@[
            condvar_id as int]->Some_0.queue_sid as int) < old(k).wait_queues@.len(),
        old(k).condvar_handle_ok(condvar_id) && old(k).mutex_handle_ok(mutex_id) && (old(
            k,
        ).cur_proc().mutex_list@[mutex_id as int]->Some_0 matches MutexObj::Blocking(_)) ==> (old(
            k,
        ).cur_proc().mutex_list@[mutex_id as int]->Some_0->Blocking_0.queue_sid as int) < old(
            k,
        ).wait_queues@.len() && old(k).cur_proc().mutex_list@[
            mutex_id as int]->Some_0->Blocking_0.locked && old(k).cur_proc().mutex_list@[
            mutex_id as int]->Some_0->Blocking_0.queue_sid != old(k).cur_proc().condvar_list@[
            condvar_id as int]->Some_0.queue_sid,
    ensures
        final(k).sched_wf(),
        !(old(k).condvar_handle_ok(condvar_id) && old(k).mutex_handle_ok(mutex_id)) ==> r == -1
            && *final(k) == *old(k),
        old(k).condvar_handle_ok(condvar_id) && old(k).mutex_handle_ok(mutex_id) ==> r == 0,
        old(k).condvar_handle_ok(condvar_id) && old(k).mutex_handle_ok(mutex_id) ==> ({
            let cv = old(k).cur_proc().condvar_list@[condvar_id as int]->Some_0;
            final(k).task(old(k).cur_task()).task_status is Blocked && final(k).task(
                old(k).cur_task(),
            ).blocked_on@ == Some(crate::task::WaitSite::Queue(cv.queue_sid))
        }),
        old(k).condvar_handle_ok(condvar_id) && old(k).mutex_handle_ok(mutex_id) ==> ({
            // the held mutex is released first: handed to its longest
            // waiter if any, freed otherwise
            let old_m = old(k).cur_proc().mutex_list@[mutex_id as int]->Some_0;
            let pid = old(k).cur_pid();
            let new_m = final(k).processes@[pid]->Some_0.inner.mutex_list@[mutex_id as int];
            match old_m {
                MutexObj::Spin(sp) => new_m == Some(MutexObj::Spin(MutexSpin { locked: false })),
                MutexObj::Blocking(b) => {
                    let q = old(k).wait_queues@[b.queue_sid as int]@;
                    if q.len() > 0 {
                        new_m == Some(old_m) && final(k).wait_queues@[b.queue_sid as int]@
                            == q.drop_first()
                    } else {
                        new_m == Some(
                            MutexObj::Blocking(MutexBlocking { locked: false, ..b }),
                        )
                    }
                },
            }
        }),
{
    if !k.check_condvar_handle(condvar_id) {
        return -1;
    }
    if !k.check_mutex_handle(mutex_id) {
        return -1;
    }
    let cv_sid = {
        proof {
            assert(k.processes@.len() == k.processes.len());
        }
        let c = match k.current {
            Some(c) => c,
            None => 0,
        };
        let pid = k.tasks[c].pid as usize;
        let slot = &k.processes[pid];
        match slot {
            Some(pp) => {
                match &pp.inner.condvar_list[condvar_id] {
                    Some(cv) => cv.queue_sid,
                    None => 0,
                }
            },
            None => 0,
        }
    };
    sys_mutex_unlock(k, mutex_id);
    proof {
        assert(k.current == old(k).current);
        assert(k.cur_ok());
        assert(k.cur_pid() == old(k).cur_pid());
    }
    let ghost pre_block = *k;
    k.block_current_and_run_next(cv_sid);
    proof {
        assert(k.processes == pre_block.processes);
        if old(k).cur_proc().mutex_list@[mutex_id as int]->Some_0 is Blocking {
            let b = old(k).cur_proc().mutex_list@[mutex_id as int]->Some_0->Blocking_0;
            assert(cv_sid != b.queue_sid);
            assert(k.wait_queues@[b.queue_sid as int] == pre_block.wait_queues@[
                b.queue_sid as int]);
        }
    }
    0
}


/// Give up the processor voluntarily: the caller goes to the back of
/// the ready queue and the front runs next.
pub fn sys_yield(k: &mut Kernel) -> (r: i64)
    requires
        old(k).sched_wf(),
        old(k).current is Some,
    ensures
        final(k).sched_wf(),
        r == 0,
        final(k).ready_queue@ == old(k).ready_queue@.push(old(k).current->Some_0).drop_first(),
        final(k).current == Some(old(k).ready_queue@.push(old(k).current->Some_0)[0]),
{
    k.suspend_current_and_run_next();
    0
}

/// The running process's id.
pub fn sys_getpid(k: &Kernel) -> (r: i64)
    requires
        k.sched_wf(),
        k.cur_ok(),
        k.cur_pid() < 0x7fff_ffff,
    ensures
        r == k.cur_pid(),
{
    let c = match k.current {
        Some(c) => c,
        None => 0,
    };
    k.tasks[c].pid as i64
}

/// The clock, in milliseconds since boot.
pub fn sys_get_time(k: &Kernel) -> (r: i64)
    requires
        k.time_ms < 0x7fff_ffff_ffff_ffff,
    ensures
        r == k.time_ms,
{
    k.time_ms as i64
}

/// Sleep: the caller enters the timer wheel to wake at now plus the
/// given number of milliseconds, and gives up the processor.
pub fn sys_sleep(k: &mut Kernel, sleep_ms: u64) -> (r: i64)
    requires
        old(k).sched_wf(),
        old(k).current is Some,
        old(k).time_ms + sleep_ms < 0xffff_ffff_ffff_ffff,
    ensures
        final(k).sched_wf(),
        r == 0,
        final(k).in_timers(old(k).current->Some_0),
        final(k).task(old(k).current->Some_0 as int).blocked_on@ == Some(
            crate::task::WaitSite::Timer,
        ),
        exists|i: int|
            0 <= i < final(k).timers@.len() && final(k).timers@[i]
                == (crate::kernel::TimerCondVar {
                expire_ms: (old(k).time_ms + sleep_ms) as u64,
                task: old(k).current->Some_0,
            }),
        final(k).time_ms == old(k).time_ms,
{
    let expire_ms = k.time_ms + sleep_ms;
    k.block_current_on_timer(expire_ms);
    0
}

/// The running thread's id.
pub fn sys_gettid(k: &Kernel) -> (r: i64)
    requires
        k.sched_wf(),
        k.current is Some,
        (k.current->Some_0 as int) < k.task_count(),
        k.task(k.cur_task()).res is Some,
        k.task(k.cur_task()).res->Some_0.tid < 0x7fff_ffff,
    ensures
        r == k.task(k.cur_task()).res->Some_0.tid,
{
    let c = match k.current {
        Some(c) => c,
        None => 0,
    };
    match &k.tasks[c].res {
        Some(res) => res.tid as i64,
        None => -1,
    }
}

/// The second half of [`sys_condvar_wait`], run by the woken waiter
/// when the scheduler next dispatches it: the mutex the waiter
/// released on entering the wait is taken again — at once if it is
/// free, else by queueing on the mutex — before the caller returns to
/// user code. The wait's lock-held-again guarantee holds exactly when
/// the event loop performs this transition for every thread it wakes
/// from a condition variable's queue.
pub fn sys_condvar_wait_resume(k: &mut Kernel, mutex_id: usize) -> (r: i64)
    requires
        old(k).sched_wf(),
        old(k).cur_ok(),
        old(k).mutex_handle_ok(mutex_id) && (old(k).cur_proc().mutex_list@[
            mutex_id as int]->Some_0 matches MutexObj::Blocking(_)) ==> (old(
            k,
        ).cur_proc().mutex_list@[mutex_id as int]->Some_0->Blocking_0.queue_sid as int) < old(
            k,
        ).wait_queues@.len(),
    ensures
        final(k).sched_wf(),
        !old(k).mutex_handle_ok(mutex_id) ==> r == -1 && *final(k) == *old(k),
        old(k).mutex_handle_ok(mutex_id) ==> r == 0,
        old(k).mutex_handle_ok(mutex_id) ==> ({
            let old_m = old(k).cur_proc().mutex_list@[mutex_id as int]->Some_0;
            let pid = old(k).cur_pid();
            let new_m = final(k).processes@[pid]->Some_0.inner.mutex_list@[mutex_id as int];
            match old_m {
                MutexObj::Spin(sp) => {
                    if !sp.locked {
                        new_m == Some(MutexObj::Spin(MutexSpin { locked: true }))
                            && final(k).current == old(k).current
                    } else {
                        new_m == Some(old_m)
                    }
                },
                MutexObj::Blocking(b) => {
                    if !b.locked {
                        new_m == Some(
                            MutexObj::Blocking(MutexBlocking { locked: true, ..b }),
                        ) && final(k).current == old(k).current
                    } else {
                        new_m == Some(old_m) && final(k).wait_queues@[b.queue_sid as int]@
                            == old(k).wait_queues@[b.queue_sid as int]@.push(
                            old(k).current->Some_0,
                        ) && final(k).task(old(k).cur_task()).task_status
                            is Blocked
                    }
                },
            }
        }),
{
    sys_mutex_lock(k, mutex_id)
}

/// Post a signal to a process: bit `signum` of its pending mask.
/// Fails when the process does not exist or has already exited, the
/// signal number is out of range, or the same signal is already
/// pending.
pub fn sys_kill(k: &mut Kernel, pid: usize, signum: u32) -> (r: i64)
    requires
        old(k).sched_wf(),
    ensures
        final(k).sched_wf(),
        final(k).tasks == old(k).tasks,
        final(k).current == old(k).current,
        final(k).ready_queue == old(k).ready_queue,
        final(k).wait_queues == old(k).wait_queues,
        final(k).timers == old(k).timers,
        ({
            let valid = (pid as int) < old(k).processes@.len() && old(k).processes@[pid as int]
                is Some && !old(k).processes@[pid as int]->Some_0.inner.is_zombie && signum < 32
                && !crate::signal::sig_bit(
                old(k).processes@[pid as int]->Some_0.inner.signals.signal_recv,
                signum,
            );
            if valid {
                r == 0 && final(k).processes@[pid as int]->Some_0.inner.signals.signal_recv == (
                old(k).processes@[pid as int]->Some_0.inner.signals.signal_recv | (1u32
                    << signum))
            } else {
                r == -1 && final(k).processes@ == old(k).processes@
            }
        }),
{
    if pid >= k.processes.len() || signum >= 32 {
        return -1;
    }
    if k.processes[pid].is_none() {
        return -1;
    }
    let ghost pre_take = *k;
    let mut p = k.take_proc(pid);
    if p.inner.is_zombie {
        // a finished process takes no more signals
        k.put_proc(pid, p);
        proof {
            crate::kernel::lemma_sched_wf_unchanged(pre_take, *k);
            assert(k.processes@ =~= old(k).processes@);
        }
        return -1;
    }
    let recv = p.inner.signals.signal_recv;
    if (recv >> signum) & 1 == 1 {
        k.put_proc(pid, p);
        proof {
            crate::kernel::lemma_sched_wf_unchanged(pre_take, *k);
            assert(k.processes@ =~= old(k).processes@);
        }
        return -1;
    }
    p.inner.signals.signal_recv = recv | (1u32 << signum);
    k.put_proc(pid, p);
    proof {
        crate::kernel::lemma_sched_wf_unchanged(pre_take, *k);
    }
    0
}

/// Post a signal to the running process itself, as the trap handler
/// does for faults.
pub fn current_add_signal(k: &mut Kernel, signum: u32)
    requires
        old(k).sched_wf(),
        old(k).cur_ok(),
        signum < 32,
    ensures
        final(k).sched_wf(),
        final(k).cur_ok(),
        final(k).cur_pid() == old(k).cur_pid(),
        final(k).cur_proc().signals.signal_recv == (old(k).cur_proc().signals.signal_recv | (
        1u32 << signum)),
        final(k).processes@ == old(k).processes@.update(
            old(k).cur_pid(),
            final(k).processes@[old(k).cur_pid()],
        ),
        final(k).processes@[old(k).cur_pid()] matches Some(p) && p.pid == old(k).processes@[
            old(k).cur_pid()]->Some_0.pid && p.inner == (ProcessControlBlockInner {
            signals: (SignalState {
                signal_recv: (old(k).cur_proc().signals.signal_recv | (1u32 << signum)),
                ..old(k).cur_proc().signals
            }),
            ..old(k).cur_proc()
        }),
        final(k).tasks == old(k).tasks,
        final(k).current == old(k).current,
        final(k).ready_queue == old(k).ready_queue,
        final(k).wait_queues == old(k).wait_queues,
        final(k).timers == old(k).timers,
{
    proof {
        assert(k.processes@.len() == k.processes.len());
    }
    let c = match k.current {
        Some(c) => c,
        None => 0,
    };
    let pid = k.tasks[c].pid as usize;
    proof {
        assert(pid as int == old(k).cur_pid());
    }
    let ghost pre_take = *k;
    let mut p = k.take_proc(pid);
    p.inner.signals.signal_recv = p.inner.signals.signal_recv | (1u32 << signum);
    k.put_proc(pid, p);
    proof {
        crate::kernel::lemma_sched_wf_unchanged(pre_take, *k);
        assert(k.processes@ =~= old(k).processes@.update(
            pid as int,
            k.processes@[pid as int],
        ));
    }
}

/// Replace the running process's signal mask, returning the old one.
pub fn sys_sigprocmask(k: &mut Kernel, mask: u32) -> (r: i64)
    requires
        old(k).sched_wf(),
        old(k).cur_ok(),
    ensures
        final(k).sched_wf(),
        r == old(k).cur_proc().signals.signal_mask,
        final(k).cur_proc().signals.signal_mask == mask,
        final(k).cur_pid() == old(k).cur_pid(),
        final(k).tasks == old(k).tasks,
        final(k).current == old(k).current,
{
    proof {
        assert(k.processes@.len() == k.processes.len());
    }
    let c = match k.current {
        Some(c) => c,
        None => 0,
    };
    let pid = k.tasks[c].pid as usize;
    let ghost pre_take = *k;
    let mut p = k.take_proc(pid);
    let old_mask = p.inner.signals.signal_mask;
    p.inner.signals.signal_mask = mask;
    k.put_proc(pid, p);
    proof {
        crate::kernel::lemma_sched_wf_unchanged(pre_take, *k);
    }
    old_mask as i64
}

/// Install the action for a signal of the running process, returning
/// the previous action. Kill and stop cannot be rebound, and an
/// out-of-range number is rejected.
pub fn sys_sigaction(k: &mut Kernel, signum: u32, action: SignalAction) -> (r: (
    i64,
    SignalAction,
))
    requires
        old(k).sched_wf(),
        old(k).cur_ok(),
        old(k).cur_proc().signals.wf(),
    ensures
        final(k).sched_wf(),
        ({
            let valid = signum < 32 && signum != SIGKILL && signum != SIGSTOP;
            if valid {
                &&& r.0 == 0
                &&& r.1 == old(k).cur_proc().signals.signal_actions@[signum as int]
                &&& final(k).cur_proc().signals.signal_actions@ == old(k).cur_proc().signals.signal_actions@.update(signum as int, action)
                &&& final(k).cur_proc().signals.wf()
            } else {
                r.0 == -1 && final(k).processes == old(k).processes
            }
        }),
        final(k).cur_pid() == old(k).cur_pid(),
        final(k).tasks == old(k).tasks,
        final(k).current == old(k).current,
{
    if signum >= 32 || signum == SIGKILL || signum == SIGSTOP {
        return (-1, SignalAction::new_default());
    }
    proof {
        assert(k.processes@.len() == k.processes.len());
    }
    let c = match k.current {
        Some(c) => c,
        None => 0,
    };
    let pid = k.tasks[c].pid as usize;
    let ghost pre_take = *k;
    let mut p = k.take_proc(pid);
    let prev = p.inner.signals.signal_actions[signum as usize];
    p.inner.signals.signal_actions[signum as usize] = action;
    k.put_proc(pid, p);
    proof {
        crate::kernel::lemma_sched_wf_unchanged(pre_take, *k);
    }
    (0, prev)
}

/// Return from a user signal handler: the running thread's trap
/// context becomes exactly the one saved when the handler was
/// entered, and the process is no longer handling a signal.
pub fn sys_sigreturn(k: &mut Kernel) -> (r: i64)
    requires
        old(k).sched_wf(),
        old(k).cur_ok(),
        old(k).cur_proc().signals.trap_ctx_backup is Some,
    ensures
        final(k).sched_wf(),
        r == 0,
        final(k).task(old(k).cur_task()).trap_cx == old(k).cur_proc().signals.trap_ctx_backup->Some_0,
        final(k).cur_proc().signals.handling_sig == -1,
        final(k).cur_pid() == old(k).cur_pid(),
        final(k).current == old(k).current,
{
    proof {
        assert(k.processes@.len() == k.processes.len());
    }
    let c = match k.current {
        Some(c) => c,
        None => 0,
    };
    let pid = k.tasks[c].pid as usize;
    let ghost pre_take = *k;
    let mut p = k.take_proc(pid);
    p.inner.signals.handling_sig = -1;
    let backup = match p.inner.signals.trap_ctx_backup {
        Some(b) => b,
        None => crate::task::TrapContext::app_init_context(0, 0, 0, 0, 0),
    };
    k.put_proc(pid, p);
    proof {
        crate::kernel::lemma_sched_wf_unchanged(pre_take, *k);
    }
    let ghost pre_cx = *k;
    k.tasks[c].trap_cx = backup;
    proof {
        crate::kernel::lemma_sched_wf_after_benign_update(pre_cx, *k, c);
    }
    0
}

/// The exit code a fatal pending signal of the running process maps
/// to, if one is pending.
pub fn check_signal_error_of_current(k: &Kernel) -> (r: Option<i64>)
    requires
        k.sched_wf(),
        k.cur_ok(),
    ensures
        r == (if crate::signal::sig_bit(k.cur_proc().signals.signal_recv, crate::signal::SIGINT) {
            Some(-2i64)
        } else if crate::signal::sig_bit(
            k.cur_proc().signals.signal_recv,
            crate::signal::SIGILL,
        ) {
            Some(-4i64)
        } else if crate::signal::sig_bit(
            k.cur_proc().signals.signal_recv,
            crate::signal::SIGABRT,
        ) {
            Some(-6i64)
        } else if crate::signal::sig_bit(
            k.cur_proc().signals.signal_recv,
            crate::signal::SIGFPE,
        ) {
            Some(-8i64)
        } else if crate::signal::sig_bit(k.cur_proc().signals.signal_recv, SIGKILL) {
            Some(-9i64)
        } else if crate::signal::sig_bit(
            k.cur_proc().signals.signal_recv,
            crate::signal::SIGSEGV,
        ) {
            Some(-11i64)
        } else {
            None
        }),
{
    proof {
        assert(k.processes@.len() == k.processes.len());
    }
    let c = match k.current {
        Some(c) => c,
        None => 0,
    };
    let pid = k.tasks[c].pid as usize;
    let recv = match &k.processes[pid] {
        Some(p) => p.inner.signals.signal_recv,
        None => 0,
    };
    check_signal_error(recv)
}

/// One pass of the kernel's signal work for the running process:
/// sweep the pending signals, and if the process came out stopped and
/// not killed, yield the processor once so the stop takes effect; the
/// event loop repeats the pass until the process may go on.
pub fn handle_signals(k: &mut Kernel)
    requires
        old(k).sched_wf(),
        old(k).cur_ok(),
        old(k).cur_proc().signals.wf(),
    ensures
        final(k).sched_wf(),
        ({
            let st0 = old(k).cur_proc().signals;
            let cx0 = old(k).task(old(k).cur_task()).trap_cx;
            let pid = old(k).cur_pid();
            let fu = first_user_sig(st0);
            let p = final(k).processes@[pid]->Some_0;
            &&& final(k).processes@[pid] is Some
            &&& p.inner.signals.signal_mask == st0.signal_mask
            &&& p.inner.signals.signal_actions == st0.signal_actions
            &&& p.inner.signals.killed == (st0.killed || st0.eligible(SIGNAL_DEF) || (
            st0.eligible(SIGKILL) && (fu < 0 || fu > SIGKILL)))
            &&& (fu >= 0 && st0.signal_actions@[fu].handler != 0
                ==> p.inner.signals.handling_sig == fu && p.inner.signals.trap_ctx_backup
                == Some(cx0) && final(k).task(old(k).cur_task()).trap_cx.sepc
                == st0.signal_actions@[fu].handler && final(k).task(
                old(k).cur_task(),
            ).trap_cx.x@ == cx0.x@.update(10, fu as u64))
            &&& (!(fu >= 0 && st0.signal_actions@[fu].handler != 0)
                ==> p.inner.signals.handling_sig == st0.handling_sig
                && p.inner.signals.trap_ctx_backup == st0.trap_ctx_backup && final(k).task(
                old(k).cur_task(),
            ).trap_cx == cx0)
            &&& (p.inner.signals.frozen && !p.inner.signals.killed ==> final(k).ready_queue@
                == old(k).ready_queue@.push(old(k).current->Some_0).drop_first() && final(k).current == Some(old(k).ready_queue@.push(old(k).current->Some_0)[0]))
            &&& (!(p.inner.signals.frozen && !p.inner.signals.killed) ==> final(k).current
                == old(k).current && final(k).ready_queue == old(k).ready_queue)
            // the pending mask afterwards: a processed stop or
            // continue bit is cleared, an entered user signal's bit is
            // cleared, the fatal bits and everything else stay
            &&& forall|b: u32|
                b < 32 && b != SIGSTOP && b != crate::signal::SIGCONT && !(fu >= 0 && b == fu)
                    ==> #[trigger] crate::signal::sig_bit(p.inner.signals.signal_recv, b)
                    == crate::signal::sig_bit(st0.signal_recv, b)
            &&& crate::signal::sig_bit(p.inner.signals.signal_recv, SIGSTOP) == (
            crate::signal::sig_bit(st0.signal_recv, SIGSTOP) && !((fu < 0 || fu > SIGSTOP)
                && st0.eligible(SIGSTOP)))
            &&& crate::signal::sig_bit(p.inner.signals.signal_recv, crate::signal::SIGCONT) == (
            crate::signal::sig_bit(st0.signal_recv, crate::signal::SIGCONT) && !((fu < 0 || fu
                > crate::signal::SIGCONT) && st0.eligible(crate::signal::SIGCONT)))
            &&& (fu >= 0 ==> crate::signal::sig_bit(p.inner.signals.signal_recv, fu as u32) == (
            st0.signal_actions@[fu].handler == 0))
        }),
{
    proof {
        assert(k.processes@.len() == k.processes.len());
    }
    let c = match k.current {
        Some(c) => c,
        None => 0,
    };
    let pid = k.tasks[c].pid as usize;
    proof {
        assert(pid as int == old(k).cur_pid());
    }
    let ghost pre_take = *k;
    let mut p = k.take_proc(pid);
    let mut trap_cx = k.tasks[c].get_trap_cx();
    crate::signal::check_pending_signals(&mut p.inner.signals, &mut trap_cx);
    let frozen = p.inner.signals.frozen;
    let killed = p.inner.signals.killed;
    k.put_proc(pid, p);
    proof {
        crate::kernel::lemma_sched_wf_unchanged(pre_take, *k);
    }
    let ghost pre_cx = *k;
    k.tasks[c].trap_cx = trap_cx;
    proof {
        crate::kernel::lemma_sched_wf_after_benign_update(pre_cx, *k, c);
    }
    if frozen && !killed {
        let ghost pre_susp = *k;
        k.suspend_current_and_run_next();
        proof {
            assert(k.processes == pre_susp.processes);
            assert(k.task(c as int).trap_cx == pre_susp.task(c as int).trap_cx);
        }
    }
}


/// Terminal exit of the running thread. The thread records its exit
/// code, gives up its user resources and leaves the scheduler for
/// good. When the exiting thread is the process leader, the whole
/// process is torn down: every one of its threads leaves the ready
/// queue, the wait queues and the timer wheel and loses its user
/// resources; the synchronisation-object tables empty; the thread
/// table shrinks to a single empty slot; the process becomes a zombie
/// holding the exit code; its children are handed to the first
/// process; its file table empties; and every user frame of its
/// address space returns to the frame pool. The front of the ready
/// queue runs next.
#[verifier::rlimit(100)]
#[verifier::spinoff_prover]
pub fn exit_current_and_run_next(k: &mut Kernel, exit_code: i64)
    requires
        old(k).sched_wf(),
        old(k).cur_ok(),
        old(k).cur_proc().memory_set.wf(),
        old(k).frame_allocator.wf(),
        old(k).cur_proc().memory_set.frames_owned_by(old(k).frame_allocator),
        (old(k).initproc_pid as int) < old(k).processes@.len(),
        old(k).processes@[old(k).initproc_pid as int] is Some,
        old(k).initproc_pid != old(k).task(old(k).cur_task()).pid,
        forall|j: int|
            0 <= j < old(k).cur_proc().tasks@.len() && (#[trigger] old(
                k,
            ).cur_proc().tasks@[j]) is Some ==> (old(k).cur_proc().tasks@[j]->Some_0 as int)
                < old(k).task_count(),
    ensures
        final(k).sched_wf(),
        final(k).task(old(k).cur_task()).exit_code == Some(exit_code),
        final(k).task(old(k).cur_task()).res is None,
        old(k).task(old(k).cur_task()).res matches Some(res) && res.tid == 0 ==> {
            let pid = old(k).cur_pid();
            &&& final(k).processes@[pid] matches Some(p)
            &&& p.inner.is_zombie
            &&& p.inner.exit_code == exit_code
            &&& p.inner.memory_set.areas_view().len() == 0
            &&& p.inner.fd_table@.len() == 0
            &&& p.inner.children@.len() == 0
            &&& p.inner.tasks@.len() == 1 && p.inner.tasks@[0] is None
            &&& p.inner.mutex_list@.len() == 0
            &&& p.inner.semaphore_list@.len() == 0
            &&& p.inner.condvar_list@.len() == 0
            &&& forall|q: u64|
                old(k).cur_proc().memory_set.owns_frame(q) ==> !final(k).frame_allocator.allocated(
                    q,
                )
            // orphans go to the first process, behind its own children
            &&& final(k).processes@[old(k).initproc_pid as int] matches Some(ip)
                && ip.inner.children@ == old(k).processes@[
                old(k).initproc_pid as int]->Some_0.inner.children@ + old(
                k,
            ).cur_proc().children@
            // every thread of the process has left the scheduler and
            // its user resources are gone
            &&& forall|j: int|
                0 <= j < old(k).cur_proc().tasks@.len() && (#[trigger] old(
                    k,
                ).cur_proc().tasks@[j]) is Some ==> {
                    let t = old(k).cur_proc().tasks@[j]->Some_0;
                    &&& final(k).task(t as int).res is None
                    &&& final(k).task(t as int).task_status is Blocked
                    &&& !final(k).in_ready(t)
                    &&& !final(k).in_timers(t)
                    &&& forall|s: int| !final(k).in_queue(s, t)
                }
        },
        !(old(k).task(old(k).cur_task()).res matches Some(res) && res.tid == 0) ==> {
            &&& (old(k).ready_queue@.len() > 0 ==> final(k).current == Some(
                old(k).ready_queue@[0],
            ))
            &&& (old(k).ready_queue@.len() == 0 ==> final(k).current is None)
        },
        final(k).current matches Some(nc) ==> old(k).in_ready(nc),
        final(k).current is None ==> final(k).ready_queue@.len() == 0,
{
    proof {
        assert(k.processes@.len() == k.processes.len());
    }
    let c = match k.current {
        Some(c) => c,
        None => 0,
    };
    let pid = k.tasks[c].pid as usize;
    proof {
        assert(pid as int == old(k).cur_pid());
    }
    let was_leader = match &k.tasks[c].res {
        Some(res) => res.tid == 0,
        None => false,
    };
    let parked = k.park_current();
    proof {
        assert(parked == c);
    }
    let ghost pre_mark = *k;
    k.tasks[c].exit_code = Some(exit_code);
    k.tasks[c].res = None;
    proof {
        assert(k.tasks@ =~= pre_mark.tasks@.update(c as int, k.task(c as int)));
        crate::kernel::lemma_sched_wf_after_exit_mark(pre_mark, *k, c);
    }
    let ghost mut post_purge = *k;
    if was_leader {
        // every thread of the process leaves the scheduler and gives
        // up its user resources
        let tcount = match &k.processes[pid] {
            Some(p) => p.inner.tasks.len(),
            None => 0,
        };
        proof {
            assert(tcount == old(k).cur_proc().tasks@.len());
        }
        let mut j: usize = 0;
        while j < tcount
            invariant
                k.sched_wf(),
                k.current is None,
                old(k).cur_ok(),
                tcount == old(k).cur_proc().tasks@.len(),
                j <= tcount,
                (pid as int) == old(k).cur_pid(),
                (pid as int) < k.processes@.len(),
                c < k.task_count(),
                k.processes@ == old(k).processes@,
                k.task_count() == old(k).task_count(),
                forall|j2: int|
                    0 <= j2 < tcount && (#[trigger] old(k).cur_proc().tasks@[j2]) is Some ==> (
                    old(k).cur_proc().tasks@[j2]->Some_0 as int) < k.task_count(),
                forall|j2: int|
                    0 <= j2 < j && (#[trigger] old(k).cur_proc().tasks@[j2]) is Some ==> {
                        let t2 = old(k).cur_proc().tasks@[j2]->Some_0;
                        &&& k.task(t2 as int).res is None
                        &&& k.task(t2 as int).task_status is Blocked
                        &&& !k.in_ready(t2)
                        &&& !k.in_timers(t2)
                        &&& forall|s: int| !k.in_queue(s, t2)
                    },
                k.task(c as int).exit_code == Some(exit_code),
                k.task(c as int).res is None,
                k.task(c as int).task_status is Blocked,
                k.frame_allocator == old(k).frame_allocator,
                k.initproc_pid == old(k).initproc_pid,
                forall|u: usize| #[trigger] k.in_ready(u) ==> old(k).in_ready(u),
            decreases tcount - j,
        {
            let entry = match &k.processes[pid] {
                Some(p) => p.inner.tasks[j],
                None => None,
            };
            proof {
                assert(entry == old(k).cur_proc().tasks@[j as int]);
            }
            if let Some(tt) = entry {
                proof {
                    assert(old(k).cur_proc().tasks@[j as int] is Some);
                    assert((tt as int) < k.task_count());
                }
                let ghost pre_purge = *k;
                k.purge_task(tt);
                let ghost mid = *k;
                k.tasks[tt].res = None;
                proof {
                    assert(k.tasks@ =~= mid.tasks@.update(tt as int, k.task(tt as int)));
                    crate::kernel::lemma_sched_wf_after_benign_update(mid, *k, tt);
                    assert forall|j2: int|
                        0 <= j2 < j + 1 && (#[trigger] old(
                            k,
                        ).cur_proc().tasks@[j2]) is Some implies {
                        let t2 = old(k).cur_proc().tasks@[j2]->Some_0;
                        &&& k.task(t2 as int).res is None
                        &&& k.task(t2 as int).task_status is Blocked
                        &&& !k.in_ready(t2)
                        &&& !k.in_timers(t2)
                        &&& forall|s: int| !k.in_queue(s, t2)
                    } by {
                        let t2 = old(k).cur_proc().tasks@[j2]->Some_0;
                        if t2 != tt {
                            if j2 < j {
                                assert(pre_purge.task(t2 as int).res is None);
                                assert(!pre_purge.in_ready(t2));
                                assert(!pre_purge.in_timers(t2));
                                assert(forall|s: int| !pre_purge.in_queue(s, t2));
                                assert(mid.in_ready(t2) == pre_purge.in_ready(t2));
                                assert(mid.in_timers(t2) == pre_purge.in_timers(t2));
                                assert(!k.in_ready(t2));
                                assert(!k.in_timers(t2));
                                assert forall|s: int| !k.in_queue(s, t2) by {
                                    assert(!pre_purge.in_queue(s, t2));
                                    assert(mid.in_queue(s, t2) == pre_purge.in_queue(s, t2));
                                }
                            } else {
                                assert(j2 == j && t2 == tt);
                            }
                        } else {
                            assert forall|s: int| !k.in_queue(s, t2) by {
                                assert(!mid.in_queue(s, tt));
                            }
                        }
                    }
                    assert forall|u: usize| #[trigger] k.in_ready(u) implies old(
                        k,
                    ).in_ready(u) by {
                        assert(pre_purge.in_ready(u) ==> old(k).in_ready(u));
                        if u != tt {
                            assert(k.in_ready(u) == pre_purge.in_ready(u));
                        }
                    }
                    assert(k.task(c as int).exit_code == Some(exit_code));
                }
            }
            j = j + 1;
        }
        proof {
            post_purge = *k;
        }
        let ghost pre_take = *k;
        let mut p = k.take_proc(pid);
        proof {
            assert(p.inner.memory_set == old(k).cur_proc().memory_set);
            assert(k.frame_allocator == old(k).frame_allocator);
        }
        p.inner.is_zombie = true;
        p.inner.exit_code = exit_code;
        // orphans go to the first process
        let mut kids: Vec<u64> = Vec::new();
        core::mem::swap(&mut kids, &mut p.inner.children);
        p.inner.fd_table = Vec::new();
        p.inner.mutex_list = Vec::new();
        p.inner.semaphore_list = Vec::new();
        p.inner.condvar_list = Vec::new();
        p.inner.tasks = Vec::new();
        p.inner.tasks.push(None);
        p.inner.memory_set.recycle_data_pages(&mut k.frame_allocator);
        k.put_proc(pid, p);
        proof {
            crate::kernel::lemma_sched_wf_unchanged(pre_take, *k);
        }
        let initpid = k.initproc_pid as usize;
        proof {
            assert(k.processes@.len() == k.processes.len());
            assert(k.initproc_pid == old(k).initproc_pid);
            assert(initpid as int == old(k).initproc_pid as int);
            assert(initpid != pid);
            assert(k.processes@[initpid as int] == old(k).processes@[initpid as int]);
        }
        let ghost pre_adopt = *k;
        let mut init = k.take_proc(initpid);
        let ghost init_kids0 = init.inner.children@;
        let mut i: usize = 0;
        let count = kids.len();
        while i < count
            invariant
                count == kids@.len(),
                i <= count,
                init.inner.children@ == init_kids0 + kids@.take(i as int),
            decreases count - i,
        {
            init.inner.children.push(kids[i]);
            proof {
                assert(init.inner.children@ =~= init_kids0 + kids@.take(i + 1));
            }
            i = i + 1;
        }
        proof {
            assert(init.inner.children@ =~= init_kids0 + kids@);
        }
        k.put_proc(initpid, init);
        proof {
            crate::kernel::lemma_sched_wf_unchanged(pre_adopt, *k);
        }
    }
    proof {
        reveal(crate::kernel::Kernel::c_ready_entries);
        if k.ready_queue@.len() > 0 {
            assert(k.task(k.ready_queue@[0] as int).task_status is Ready);
            assert(k.ready_queue@[0] != c);
        }
    }
    let ghost pre_fetch = *k;
    k.fetch_next();
    proof {
        assert(pre_fetch.ready_queue@ == post_purge.ready_queue@);
        assert(pre_fetch.wait_queues == post_purge.wait_queues);
        assert(pre_fetch.timers == post_purge.timers);
        assert(pre_fetch.tasks == post_purge.tasks);
        if pre_fetch.ready_queue@.len() > 0 {
            let nc = pre_fetch.ready_queue@[0];
            assert(pre_fetch.in_ready(nc));
            assert(old(k).in_ready(nc)) by {
                if !was_leader {
                    assert(pre_fetch.ready_queue@ == old(k).ready_queue@);
                } else {
                    assert(post_purge.in_ready(nc));
                }
            }
        } else {
            assert(*k == pre_fetch);
        }
        if was_leader {
            assert forall|j: int|
                0 <= j < old(k).cur_proc().tasks@.len() && (#[trigger] old(
                    k,
                ).cur_proc().tasks@[j]) is Some implies {
                let t = old(k).cur_proc().tasks@[j]->Some_0;
                &&& k.task(t as int).res is None
                &&& k.task(t as int).task_status is Blocked
                &&& !k.in_ready(t)
                &&& !k.in_timers(t)
                &&& forall|s: int| !k.in_queue(s, t)
            } by {
                let t = old(k).cur_proc().tasks@[j]->Some_0;
                assert(post_purge.task(t as int).res is None);
                assert(post_purge.task(t as int).task_status is Blocked);
                assert(!post_purge.in_ready(t));
                assert(!post_purge.in_timers(t));
                assert(forall|s: int| !post_purge.in_queue(s, t));
                assert(!pre_fetch.in_ready(t));
                if pre_fetch.ready_queue@.len() > 0 {
                    let nc = pre_fetch.ready_queue@[0];
                    assert(pre_fetch.in_ready(nc));
                    assert(nc != t);
                    assert(k.task(t as int) == pre_fetch.task(t as int));
                    assert(!k.in_ready(t)) by {
                        if k.in_ready(t) {
                            let w = choose|w: int|
                                0 <= w < k.ready_queue@.len() && k.ready_queue@[w] == t;
                            assert(pre_fetch.ready_queue@[w + 1] == t);
                        }
                    }
                    assert(!k.in_timers(t)) by {
                        assert(k.timers == pre_fetch.timers);
                        assert(!pre_fetch.in_timers(t));
                    }
                    assert forall|s: int| !k.in_queue(s, t) by {
                        assert(!post_purge.in_queue(s, t));
                        assert(k.wait_queues == pre_fetch.wait_queues);
                        assert(!pre_fetch.in_queue(s, t));
                    }
                } else {
                    assert(*k == pre_fetch);
                    assert(!k.in_timers(t)) by {
                        assert(!post_purge.in_timers(t));
                    }
                    assert forall|s: int| !k.in_queue(s, t) by {
                        assert(!post_purge.in_queue(s, t));
                    }
                }
            }
        }
    }
}


/// Whether child list entry `j` matches the waited-for id.
pub open spec fn waitpid_matches(kids: Seq<u64>, pid: i64, j: int) -> bool {
    pid == -1 || kids[j] == pid
}

/// Whether child list entry `j` matches the argument and is ripe for
/// reaping in the given kernel.
pub open spec fn waitpid_hit(k: Kernel, kids: Seq<u64>, pid: i64, j: int) -> bool {
    &&& (pid == -1 || kids[j] == pid)
    &&& k.processes@[kids[j] as int] is Some
    &&& k.processes@[kids[j] as int]->Some_0.inner.is_zombie
}

/// Reap a finished child: scan the running process's children in
/// order for the first zombie matching `pid` (or any child when `pid`
/// is -1), free its table slot and hand back its id and exit code.
/// Returns -1 when no child matches at all, -2 when a match exists
/// but has not exited yet.
#[verifier::rlimit(100)]
#[verifier::spinoff_prover]
pub fn sys_waitpid(k: &mut Kernel, pid: i64) -> (r: (i64, i64))
    requires
        old(k).sched_wf(),
        old(k).cur_ok(),
        forall|j: int|
            0 <= j < old(k).cur_proc().children@.len() ==> ((#[trigger] old(
                k,
            ).cur_proc().children@[j]) as int) < old(k).processes@.len() && (old(
                k,
            ).cur_proc().children@[j] as int) != old(k).cur_pid() && old(
                k,
            ).cur_proc().children@[j] < 0x7fff_ffff,
        old(k).cur_proc().children@.len() < 0x7fff_ffff,
        -1 <= pid < 0x7fff_ffff,
    ensures
        final(k).sched_wf(),
        final(k).tasks == old(k).tasks,
        final(k).current == old(k).current,
        final(k).ready_queue == old(k).ready_queue,
        ({
            let kids = old(k).cur_proc().children@;
            let mypid = old(k).cur_pid();
            if !(exists|j: int| 0 <= j < kids.len() && #[trigger] waitpid_matches(kids, pid, j)) {
                r.0 == -1 && final(k).processes == old(k).processes
            } else if exists|j: int| 0 <= j < kids.len() && #[trigger] waitpid_hit(*old(k), kids, pid, j) {
                exists|j: int|
                    {
                        &&& 0 <= j < kids.len()
                        &&& #[trigger] waitpid_hit(*old(k), kids, pid, j)
                        &&& forall|j2: int| 0 <= j2 < j ==> !#[trigger] waitpid_hit(*old(k), kids, pid, j2)
                        &&& r.0 == kids[j]
                        &&& r.1 == old(k).processes@[kids[j] as int]->Some_0.inner.exit_code
                        &&& final(k).processes@[mypid]->Some_0.inner.children@ == kids.remove(j)
                        &&& final(k).processes@[kids[j] as int] is None
                    }
            } else {
                r.0 == -2 && final(k).processes == old(k).processes
            }
        }),
{
    proof {
        assert(k.processes@.len() == k.processes.len());
    }
    let c = match k.current {
        Some(c) => c,
        None => 0,
    };
    let mypid = k.tasks[c].pid as usize;
    proof {
        assert(mypid as int == old(k).cur_pid());
    }
    let ghost kids = old(k).cur_proc().children@;
    let count = match &k.processes[mypid] {
        Some(p) => p.inner.children.len(),
        None => 0,
    };
    let mut any_match = false;
    let mut hit: usize = count;
    let mut j: usize = 0;
    while j < count
        invariant
            old(k).cur_ok(),
            *k == *old(k),
            mypid as int == old(k).cur_pid(),
            kids == old(k).cur_proc().children@,
            count == kids.len(),
            j <= count,
            forall|j2: int|
                0 <= j2 < old(k).cur_proc().children@.len() ==> ((#[trigger] old(
                    k,
                ).cur_proc().children@[j2]) as int) < old(k).processes@.len() && old(
                    k,
                ).cur_proc().children@[j2] < 0x7fff_ffff,
            any_match <==> exists|j2: int|
                0 <= j2 < j && #[trigger] waitpid_matches(kids, pid, j2),
            hit <= count,
            hit < count <==> exists|j2: int|
                0 <= j2 < j && #[trigger] waitpid_hit(*old(k), kids, pid, j2),
            hit < count ==> waitpid_hit(*old(k), kids, pid, hit as int) && forall|j2: int|
                0 <= j2 < hit ==> !#[trigger] waitpid_hit(*old(k), kids, pid, j2),
            hit == count ==> forall|j2: int|
                0 <= j2 < j ==> !#[trigger] waitpid_hit(*old(k), kids, pid, j2),
        decreases count - j,
    {
        let cid = match &k.processes[mypid] {
            Some(p) => p.inner.children[j],
            None => 0,
        };
        proof {
            assert(old(k).cur_proc().children@[j as int] == cid);
            assert(cid == kids[j as int]);
            assert(cid < 0x7fff_ffff);
            assert((cid as i64 == pid) <==> (kids[j as int] == pid));
        }
        let matches_arg = pid == -1 || cid as i64 == pid;
        proof {
            assert(matches_arg == waitpid_matches(kids, pid, j as int));
        }
        let zombie = match &k.processes[cid as usize] {
            Some(cp) => cp.inner.is_zombie,
            None => false,
        };
        proof {
            assert(waitpid_hit(*old(k), kids, pid, j as int) == (matches_arg && zombie));
        }
        if matches_arg {
            any_match = true;
            if hit == count && zombie {
                hit = j;
            }
        }
        j = j + 1;
    }
    if !any_match {
        return (-1, 0);
    }
    if hit == count {
        return (-2, 0);
    }
    proof {
        assert(waitpid_hit(*old(k), kids, pid, hit as int));
        assert(old(k).processes@[kids[hit as int] as int] is Some);
        assert(pid == -1 || kids[hit as int] == pid);
    }
    let ghost pre_take = *k;
    let mut p = k.take_proc(mypid);
    let cid = p.inner.children.remove(hit);
    k.put_proc(mypid, p);
    proof {
        assert(cid == kids[hit as int]);
        assert(cid as int != mypid as int);
        assert(k.processes@[cid as int] == old(k).processes@[cid as int]);
    }
    let reaped = k.take_proc(cid as usize);
    let code = reaped.inner.exit_code;
    proof {
        crate::kernel::lemma_sched_wf_unchanged(pre_take, *k);
        assert(Some(reaped) == old(k).processes@[cid as int]);
        assert(code == old(k).processes@[cid as int]->Some_0.inner.exit_code);
        assert(k.processes@[cid as int] is None);
        assert(k.processes@[mypid as int]->Some_0.inner.children@ == kids.remove(hit as int));
        assert(cid < 0x7fff_ffff);
    }
    (cid as i64, code)
}

/// Terminal exit as the syscall surface names it: the running thread
/// never returns to user mode; see [`exit_current_and_run_next`].
pub fn sys_exit(k: &mut Kernel, exit_code: i64) -> (r: i64)
    requires
        old(k).sched_wf(),
        old(k).cur_ok(),
        old(k).cur_proc().memory_set.wf(),
        old(k).frame_allocator.wf(),
        old(k).cur_proc().memory_set.frames_owned_by(old(k).frame_allocator),
        (old(k).initproc_pid as int) < old(k).processes@.len(),
        old(k).processes@[old(k).initproc_pid as int] is Some,
        old(k).initproc_pid != old(k).task(old(k).cur_task()).pid,
        forall|j: int|
            0 <= j < old(k).cur_proc().tasks@.len() && (#[trigger] old(
                k,
            ).cur_proc().tasks@[j]) is Some ==> (old(k).cur_proc().tasks@[j]->Some_0 as int)
                < old(k).task_count(),
    ensures
        final(k).sched_wf(),
        final(k).task(old(k).cur_task()).exit_code == Some(exit_code),
        final(k).task(old(k).cur_task()).res is None,
        r == 0,
{
    exit_current_and_run_next(k, exit_code);
    0
}


impl ProcessControlBlock {
    /// Create a process from an executable's bytes: build its address
    /// space, give it a pid, a kernel-stack slot and thread 0 with a
    /// trap context aimed at the program's entry on its user stack,
    /// and enqueue the thread. Succeeds exactly when the bytes load
    /// and fit the free frames. The two code addresses — the trap
    /// handler and the trap-return routine — come from the caller,
    /// who knows where the kernel sits.
    pub fn new(
        k: &mut Kernel,
        data: &Vec<u8>,
        trap_handler_pc: u64,
        trap_return_pc: u64,
    ) -> (r: Option<u64>)
        requires
            old(k).sched_wf(),
            old(k).frame_allocator.wf(),
            old(k).strampoline.wf(),
            old(k).pid_allocator.wf(),
            old(k).pid_allocator.spec_current() < 0x7fff_ffff,
            old(k).kstack_allocator.wf(),
            old(k).kstack_allocator.spec_current() < 0xffff_ffff,
            old(k).processes@.len() < 0x7fff_ffff,
        ensures
            final(k).sched_wf(),
            r is Some <==> (crate::memory_set::spec_elf_loadable(data@)
                && crate::memory_set::spec_elf_frames(data@) <= old(k).frame_allocator.spec_avail()),
            r matches Some(pid) ==> {
                let t = old(k).task_count();
                &&& (pid as int) < final(k).processes@.len()
                &&& final(k).processes@[pid as int] matches Some(p) && {
                    &&& p.pid == pid
                    &&& p.inner.memory_set.wf()
                    &&& p.inner.memory_set.tramp() == Some(old(k).strampoline)
                    &&& !p.inner.is_zombie
                    &&& p.inner.fd_table@.len() == 3
                    &&& p.inner.tasks@ == seq![Some(t as usize)]
                    &&& final(k).task(t).trap_cx.sepc == crate::elf::le64(data@, 24)
                    &&& final(k).task(t).trap_cx.x[2] == p.inner.base_size + 8192
                    &&& final(k).task(t).trap_cx.trap_handler == trap_handler_pc
                    &&& final(k).task(t).trap_cx.kernel_satp == old(
                        k,
                    ).kernel_space.pt().spec_token()
                }
                &&& final(k).task_count() == old(k).task_count() + 1
                &&& final(k).task(t).pid == pid
                &&& final(k).task(t).task_status is Ready
                &&& final(k).task(t).res == Some(
                    crate::task::TaskUserRes { tid: 0, ustack_base: final(k).task(t).res->Some_0.ustack_base },
                )
                &&& final(k).ready_queue@ == old(k).ready_queue@.push(t as usize)
            },
            r is None ==> final(k).task_count() == old(k).task_count() && final(k).ready_queue
                == old(k).ready_queue,
            final(k).current == old(k).current,
            final(k).wait_queues == old(k).wait_queues,
            final(k).timers == old(k).timers,
    {
        let strampoline = k.strampoline;
        let loaded = crate::memory_set::load_elf(data, strampoline, &mut k.frame_allocator);
        proof {
            crate::kernel::lemma_sched_wf_unchanged(*old(k), *k);
        }
        let (ms, ustack_base, entry) = match loaded {
            Some(t) => t,
            None => {
                return None;
            },
        };
        let ghost pre_ids = *k;
        let pid = k.pid_allocator.alloc_id();
        let kstack_id = k.kstack_allocator.alloc_id();
        proof {
            crate::kernel::lemma_sched_wf_unchanged(pre_ids, *k);
        }
        let (_kbottom, ktop) = crate::id::kernel_stack_position(kstack_id);
        let ustack_top = ustack_base + 8192;
        let kernel_satp = k.kernel_space.token();
        let trap_cx = crate::task::TrapContext::app_init_context(
            entry,
            ustack_top,
            kernel_satp,
            ktop,
            trap_handler_pc,
        );
        let rec = new_task_record(
            Some(crate::task::TaskUserRes { tid: 0, ustack_base }),
            crate::task::TaskContext::goto_trap_return(ktop, trap_return_pc),
            trap_cx,
            0,
            pid,
            kstack_id,
        );
        let ghost pre_spawn = *k;
        let t = k.spawn_task(rec);
        let mut fd_table: Vec<Option<FdKind>> = Vec::new();
        fd_table.push(Some(FdKind::Stdin));
        fd_table.push(Some(FdKind::Stdout));
        fd_table.push(Some(FdKind::Stdout));
        let mut task_slots: Vec<Option<usize>> = Vec::new();
        task_slots.push(Some(t));
        let pcb = ProcessControlBlock {
            pid,
            inner: ProcessControlBlockInner {
                is_zombie: false,
                memory_set: ms,
                base_size: ustack_base,
                parent: None,
                children: Vec::new(),
                exit_code: 0,
                fd_table,
                signals: crate::signal::SignalState::new(),
                task_res_allocator: crate::id::RecycleAllocator::new(),
                tasks: task_slots,
                mutex_list: Vec::new(),
                semaphore_list: Vec::new(),
                condvar_list: Vec::new(),
            },
        };
        let ghost pre_grow = *k;
        while k.processes.len() <= pid as usize
            invariant
                pre_grow.sched_wf(),
                k.tasks == pre_grow.tasks,
                k.ready_queue == pre_grow.ready_queue,
                k.current == pre_grow.current,
                k.wait_queues == pre_grow.wait_queues,
                k.timers == pre_grow.timers,
                pid < 0x8000_0000,
                k.processes@.len() >= pre_grow.processes@.len(),
                forall|j: int|
                    0 <= j < pre_grow.processes@.len() ==> k.processes@[j]
                        == pre_grow.processes@[j],
                k.pid_allocator == pre_grow.pid_allocator,
                k.kstack_allocator == pre_grow.kstack_allocator,
                k.frame_allocator == pre_grow.frame_allocator,
                k.kernel_space == pre_grow.kernel_space,
                k.strampoline == pre_grow.strampoline,
                k.initproc_pid == pre_grow.initproc_pid,
            decreases pid as usize + 1 - k.processes.len(),
        {
            proof {
                assert(k.processes@.len() == k.processes.len());
            }
            k.processes.push(None);
        }
        k.processes[pid as usize] = Some(pcb);
        proof {
            crate::kernel::lemma_sched_wf_unchanged(pre_grow, *k);
        }
        k.add_task(t);
        Some(pid)
    }
}


/// Fork the running single-thread process: a fresh pid, a deep copy
/// of the address space — every user byte equal at the fork, no frame
/// shared — an entry-wise copy of the file table, the signal mask and
/// actions with nothing pending and nothing in flight, and a child
/// thread whose trap context equals the parent's except that its
/// return register x10 reads 0 and its kernel stack is its own. The
/// parent gains the child and keeps everything else; the parent
/// stays running and the child thread joins the back of the ready
/// queue. Returns the child's pid.
#[verifier::rlimit(100)]
#[verifier::spinoff_prover]
pub fn sys_fork(k: &mut Kernel, trap_return_pc: u64) -> (r: i64)
    requires
        old(k).sched_wf(),
        old(k).cur_ok(),
        old(k).cur_proc().tasks@.len() == 1,
        old(k).cur_proc().tasks@[0] matches Some(t0) && (t0 as int) < old(k).task_count(),
        old(k).cur_proc().memory_set.wf(),
        old(k).cur_proc().memory_set.tramp() is Some,
        old(k).cur_proc().memory_set.frames_owned_by(old(k).frame_allocator),
        old(k).frame_allocator.wf(),
        old(k).pid_allocator.wf(),
        old(k).pid_allocator.spec_current() < 0x7fff_ffff,
        old(k).pid_allocator.id_in_use(old(k).task(old(k).cur_task()).pid),
        old(k).kstack_allocator.wf(),
        old(k).kstack_allocator.spec_current() < 0xffff_ffff,
        old(k).processes@.len() < 0x7fff_ffff,
    ensures
        final(k).sched_wf(),
        final(k).current == old(k).current,
        r == -1 <==> old(k).frame_allocator.spec_avail() < crate::memory_set::seq_pages_needed(
            old(k).cur_proc().memory_set.areas_view(),
        ),
        r == -1 ==> *final(k) == *old(k),
        r != -1 ==> 0 <= r < 0x8000_0000,
        r != -1 ==> final(k).task_count() == old(k).task_count() + 1,
        r != -1 ==> final(k).ready_queue@ == old(k).ready_queue@.push(
            old(k).task_count() as usize,
        ),
        r != -1 ==> ({
            let parent = old(k).cur_proc();
            let ppid = old(k).cur_pid();
            let t = old(k).task_count();
            let pcx = old(k).task(parent.tasks@[0]->Some_0 as int).trap_cx;
            &&& r != ppid
            &&& (r as int) < final(k).processes@.len()
            &&& final(k).processes@[ppid] matches Some(pp) && {
                &&& pp.pid == old(k).processes@[ppid]->Some_0.pid
                &&& pp.inner.children@ == parent.children@.push(r as u64)
                &&& pp.inner.memory_set == parent.memory_set
                &&& pp.inner.fd_table == parent.fd_table
                &&& pp.inner.signals == parent.signals
                &&& pp.inner.tasks == parent.tasks
                &&& pp.inner.is_zombie == parent.is_zombie
                &&& pp.inner.base_size == parent.base_size
                &&& pp.inner.parent == parent.parent
                &&& pp.inner.exit_code == parent.exit_code
                &&& pp.inner.mutex_list == parent.mutex_list
                &&& pp.inner.semaphore_list == parent.semaphore_list
                &&& pp.inner.condvar_list == parent.condvar_list
            }
            &&& final(k).processes@[r as int] matches Some(cp) && {
                let cms = cp.inner.memory_set;
                let pms = parent.memory_set;
                &&& cp.pid == r
                &&& !cp.inner.is_zombie
                &&& cp.inner.parent == Some(old(k).task(old(k).cur_task()).pid)
                &&& cp.inner.children@.len() == 0
                &&& cp.inner.fd_table@ == parent.fd_table@
                &&& cp.inner.signals.signal_mask == parent.signals.signal_mask
                &&& cp.inner.signals.signal_actions@ == parent.signals.signal_actions@
                &&& cp.inner.signals.signal_recv == 0
                &&& !cp.inner.signals.killed
                &&& !cp.inner.signals.frozen
                &&& cp.inner.signals.handling_sig == -1
                &&& cp.inner.tasks@ == seq![Some(t as usize)]
                &&& cms.wf()
                &&& cms.tramp() == pms.tramp()
                &&& cms.areas_view().len() == pms.areas_view().len()
                &&& forall|k2: int|
                    0 <= k2 < cms.areas_view().len() ==> {
                        let ca = #[trigger] cms.areas_view()[k2];
                        let pa = pms.areas_view()[k2];
                        &&& ca.start() == pa.start()
                        &&& ca.end() == pa.end()
                        &&& ca.spec_map_type() == pa.spec_map_type()
                        &&& ca.perm() == pa.perm()
                    }
                &&& forall|k2: int, i: int, off: int|
                    0 <= k2 < cms.areas_view().len() && cms.areas_view()[k2].spec_map_type()
                        is Framed && 0 <= i < cms.areas_view()[k2].page_count() && 0 <= off < 4096
                        ==> (#[trigger] cms.areas_view()[k2].frames()[i].bytes()[off])
                        == pms.areas_view()[k2].frames()[i].bytes()[off]
                &&& forall|q: u64| cms.owns_frame(q) ==> !pms.owns_frame(q)
            }
            &&& final(k).task(t).pid == r
            &&& final(k).task(t).task_status is Ready
            &&& final(k).task(t).trap_cx.x@ == pcx.x@.update(10, 0u64)
            &&& final(k).task(t).trap_cx.sepc == pcx.sepc
            &&& final(k).task(t).trap_cx.sstatus == pcx.sstatus
        }),
{
    proof {
        assert(k.processes@.len() == k.processes.len());
    }
    let c = match k.current {
        Some(c) => c,
        None => 0,
    };
    let ppid_val = k.tasks[c].pid;
    let ppid = ppid_val as usize;
    proof {
        assert(ppid as int == old(k).cur_pid());
    }
    // there must be room to copy every framed page of the parent
    let needed = match &k.processes[ppid] {
        Some(p) => p.inner.memory_set.pages_needed(),
        None => 0,
    };
    let avail = k.frame_allocator.avail_frames();
    if (avail as u128) < needed {
        return -1;
    }
    let ghost pre_take = *k;
    let mut p = k.take_proc(ppid);
    // deep-copy the address space; the parent's is only read
    let child_ms = crate::memory_set::MemorySet::from_existed_user(
        &p.inner.memory_set,
        &mut k.frame_allocator,
    );
    // fresh identifiers and kernel stack for the child's thread 0
    let pid = k.pid_allocator.alloc_id();
    let kstack_id = k.kstack_allocator.alloc_id();
    let (_kbottom, ktop) = crate::id::kernel_stack_position(kstack_id);
    // the child's trap context: the parent's, but x10 reads 0 and the
    // kernel-side stack is the child's own
    let t0 = match p.inner.tasks[0] {
        Some(t0) => t0,
        None => 0,
    };
    let mut child_cx = k.tasks[t0].get_trap_cx();
    child_cx.set_reg(10, 0);
    child_cx.kernel_sp = ktop;
    // entry-wise copy of the file table
    let mut fd_table: Vec<Option<FdKind>> = Vec::new();
    let fd_count = p.inner.fd_table.len();
    let mut fi: usize = 0;
    while fi < fd_count
        invariant
            fd_count == p.inner.fd_table@.len(),
            fi <= fd_count,
            fd_table@ == p.inner.fd_table@.take(fi as int),
        decreases fd_count - fi,
    {
        fd_table.push(p.inner.fd_table[fi]);
        proof {
            assert(fd_table@ =~= p.inner.fd_table@.take(fi + 1));
        }
        fi = fi + 1;
    }
    proof {
        assert(fd_table@ =~= p.inner.fd_table@);
    }
    // the child's signal state: mask and actions inherited, nothing
    // pending, nothing in flight
    let mut child_signals = crate::signal::SignalState::new();
    child_signals.signal_mask = p.inner.signals.signal_mask;
    let mut actions: Vec<SignalAction> = Vec::new();
    let action_count = p.inner.signals.signal_actions.len();
    let mut si: usize = 0;
    while si < action_count
        invariant
            action_count == p.inner.signals.signal_actions@.len(),
            si <= action_count,
            actions@ == p.inner.signals.signal_actions@.take(si as int),
        decreases action_count - si,
    {
        actions.push(p.inner.signals.signal_actions[si]);
        proof {
            assert(actions@ =~= p.inner.signals.signal_actions@.take(si + 1));
        }
        si = si + 1;
    }
    proof {
        assert(actions@ =~= p.inner.signals.signal_actions@);
    }
    let child_task_rec = new_task_record(
        Some(crate::task::TaskUserRes { tid: 0, ustack_base: p.inner.base_size }),
        crate::task::TaskContext::goto_trap_return(ktop, trap_return_pc),
        child_cx,
        0,
        pid,
        kstack_id,
    );
    // the parent gains the child
    p.inner.children.push(pid);
    k.put_proc(ppid, p);
    proof {
        crate::kernel::lemma_sched_wf_unchanged(pre_take, *k);
    }
    let t = k.spawn_task(child_task_rec);
    let mut task_slots: Vec<Option<usize>> = Vec::new();
    task_slots.push(Some(t));
    let child = ProcessControlBlock {
        pid,
        inner: ProcessControlBlockInner {
            is_zombie: false,
            memory_set: child_ms,
            base_size: old_base(&k, ppid),
            parent: Some(ppid_val),
            children: Vec::new(),
            exit_code: 0,
            fd_table,
            signals: crate::signal::SignalState {
                signal_mask: child_signals.signal_mask,
                signal_actions: actions,
                ..crate::signal::SignalState::new()
            },
            task_res_allocator: crate::id::RecycleAllocator::new(),
            tasks: task_slots,
            mutex_list: Vec::new(),
            semaphore_list: Vec::new(),
            condvar_list: Vec::new(),
        },
    };
    let ghost pre_grow = *k;
    while k.processes.len() <= pid as usize
        invariant
            pre_grow.sched_wf(),
            k.tasks == pre_grow.tasks,
            k.ready_queue == pre_grow.ready_queue,
            k.current == pre_grow.current,
            k.wait_queues == pre_grow.wait_queues,
            k.timers == pre_grow.timers,
            pid < 0x8000_0000,
            k.processes@.len() >= pre_grow.processes@.len(),
            forall|j: int|
                0 <= j < pre_grow.processes@.len() ==> k.processes@[j] == pre_grow.processes@[j],
            k.pid_allocator == pre_grow.pid_allocator,
            k.kstack_allocator == pre_grow.kstack_allocator,
            k.frame_allocator == pre_grow.frame_allocator,
            k.kernel_space == pre_grow.kernel_space,
            k.strampoline == pre_grow.strampoline,
            k.initproc_pid == pre_grow.initproc_pid,
        decreases pid as usize + 1 - k.processes.len(),
    {
        proof {
            assert(k.processes@.len() == k.processes.len());
        }
        k.processes.push(None);
    }
    k.processes[pid as usize] = Some(child);
    proof {
        crate::kernel::lemma_sched_wf_unchanged(pre_grow, *k);
    }
    k.add_task(t);
    pid as i64
}

/// The user-stack base a process was loaded with.
fn old_base(k: &Kernel, pid: usize) -> (r: u64)
    requires
        (pid as int) < k.processes@.len(),
    ensures
        k.processes@[pid as int] matches Some(p) ==> r == p.inner.base_size,
{
    match &k.processes[pid] {
        Some(p) => p.inner.base_size,
        None => 0,
    }
}


/// The causes a user-mode trap reports that the kernel accepts.
#[derive(Clone, Copy, PartialEq, Eq, Structural, Debug)]
pub enum TrapCause {
    /// An environment call: a syscall.
    UserEnvCall,
    /// A store access fault.
    StoreFault,
    /// A store page fault.
    StorePageFault,
    /// A load access fault.
    LoadFault,
    /// A load page fault.
    LoadPageFault,
    /// An instruction access fault.
    InstructionFault,
    /// An instruction page fault.
    InstructionPageFault,
    /// An illegal instruction.
    IllegalInstruction,
    /// The timer interrupt.
    SupervisorTimer,
}

/// What the surrounding event loop does after a trap is dispatched.
#[derive(Clone, Copy, PartialEq, Eq, Structural, Debug)]
pub enum TrapAction {
    /// Run the numbered syscall with the three argument registers,
    /// then write its result to register x10.
    Syscall(u64, u64, u64, u64),
    /// Go on to the signal work and return to user mode.
    Continue,
}

/// Whether the cause is one of the memory faults that post a
/// segmentation signal.
pub open spec fn is_memory_fault(cause: TrapCause) -> bool {
    ||| cause is StoreFault
    ||| cause is StorePageFault
    ||| cause is LoadFault
    ||| cause is LoadPageFault
    ||| cause is InstructionFault
    ||| cause is InstructionPageFault
}

/// Dispatch one user trap, as the kernel's trap entry does: a syscall
/// steps the program counter past the `ecall` and hands the call's
/// number and arguments out to run; a memory fault posts the
/// segmentation signal to the faulting process; an illegal
/// instruction posts the illegal-instruction signal; the timer
/// re-arms by sweeping expired sleepers and preempts the running
/// thread to the back of the ready queue. The signal sweep
/// ([`handle_signals`]) and the fatal-signal check follow in the
/// event loop, as they do after every trap.
pub fn trap_dispatch(k: &mut Kernel, cause: TrapCause) -> (r: TrapAction)
    requires
        old(k).sched_wf(),
        old(k).cur_ok(),
        old(k).task(old(k).cur_task()).trap_cx.sepc < 0xffff_ffff_ffff_fffb,
    ensures
        final(k).sched_wf(),
        cause is UserEnvCall ==> {
            let cx = old(k).task(old(k).cur_task()).trap_cx;
            &&& r == TrapAction::Syscall(cx.x[17], cx.x[10], cx.x[11], cx.x[12])
            &&& final(k).task(old(k).cur_task()).trap_cx.sepc == cx.sepc + 4
            &&& final(k).task(old(k).cur_task()).trap_cx.x == cx.x
            &&& final(k).current == old(k).current
            &&& final(k).processes == old(k).processes
            &&& final(k).ready_queue == old(k).ready_queue
        },
        is_memory_fault(cause) ==> {
            &&& r == TrapAction::Continue
            &&& final(k).cur_proc().signals.signal_recv == (old(
                k,
            ).cur_proc().signals.signal_recv | (1u32 << crate::signal::SIGSEGV))
            &&& final(k).current == old(k).current
        },
        cause is IllegalInstruction ==> {
            &&& r == TrapAction::Continue
            &&& final(k).cur_proc().signals.signal_recv == (old(
                k,
            ).cur_proc().signals.signal_recv | (1u32 << crate::signal::SIGILL))
            &&& final(k).current == old(k).current
        },
        cause is SupervisorTimer ==> {
            &&& r == TrapAction::Continue
            &&& forall|i: int|
                0 <= i < final(k).timers@.len() ==> (#[trigger] final(k).timers@[i]).expire_ms
                    > final(k).time_ms
            &&& final(k).current is Some
            &&& final(k).processes == old(k).processes
        },
{
    match cause {
        TrapCause::UserEnvCall => {
            let c = match k.current {
                Some(c) => c,
                None => 0,
            };
            let cx = k.tasks[c].get_trap_cx();
            let ghost pre_cx = *k;
            k.tasks[c].trap_cx.sepc = cx.sepc + 4;
            proof {
                crate::kernel::lemma_sched_wf_after_benign_update(pre_cx, *k, c);
            }
            TrapAction::Syscall(cx.x[17], cx.x[10], cx.x[11], cx.x[12])
        },
        TrapCause::IllegalInstruction => {
            current_add_signal(k, crate::signal::SIGILL);
            TrapAction::Continue
        },
        TrapCause::SupervisorTimer => {
            k.check_timer();
            proof {
                reveal(crate::kernel::Kernel::c_current);
            }
            k.suspend_current_and_run_next();
            TrapAction::Continue
        },
        _ => {
            current_add_signal(k, crate::signal::SIGSEGV);
            TrapAction::Continue
        },
    }
}


/// Open a pipe for the running process: a fresh empty ring buffer,
/// its read end and write end in the two lowest free descriptors.
/// Returns (read end, write end).
pub fn sys_pipe(k: &mut Kernel) -> (r: (i64, i64))
    requires
        old(k).sched_wf(),
        old(k).cur_ok(),
        old(k).cur_proc().fd_table@.len() < 0x7fff_fffd,
        old(k).pipes@.len() < 0x7fff_ffff,
    ensures
        final(k).sched_wf(),
        final(k).cur_ok(),
        0 <= r.0,
        0 <= r.1,
        r.0 != r.1,
        final(k).pipes@.len() == old(k).pipes@.len() + 1,
        final(k).pipes@.last().wf(),
        final(k).pipes@.last().contents() == Seq::<u8>::empty(),
        !final(k).pipes@.last().write_closed,
        !final(k).pipes@.last().read_closed,
        (r.0 as int) < final(k).cur_proc().fd_table@.len() && final(k).cur_proc().fd_table@[
            r.0 as int] == Some(FdKind::PipeRead((old(k).pipes@.len()) as usize)),
        (r.1 as int) < final(k).cur_proc().fd_table@.len() && final(k).cur_proc().fd_table@[
            r.1 as int] == Some(FdKind::PipeWrite((old(k).pipes@.len()) as usize)),
        final(k).current == old(k).current,
        final(k).tasks == old(k).tasks,
        final(k).ready_queue == old(k).ready_queue,
{
    proof {
        assert(k.processes@.len() == k.processes.len());
        assert(k.pipes@.len() == k.pipes.len());
    }
    let c = match k.current {
        Some(c) => c,
        None => 0,
    };
    let pid = k.tasks[c].pid as usize;
    let pipe_id = k.pipes.len();
    k.pipes.push(crate::pipe::Pipe::new());
    proof {
        crate::kernel::lemma_sched_wf_unchanged(*old(k), *k);
    }
    let ghost pre_take = *k;
    let mut p = k.take_proc(pid);
    let read_fd = p.inner.alloc_fd();
    proof {
        assert(p.inner.fd_table@[read_fd as int] is None);
    }
    p.inner.fd_table[read_fd] = Some(FdKind::PipeRead(pipe_id));
    let write_fd = p.inner.alloc_fd();
    proof {
        assert(write_fd != read_fd);
    }
    p.inner.fd_table[write_fd] = Some(FdKind::PipeWrite(pipe_id));
    k.put_proc(pid, p);
    proof {
        crate::kernel::lemma_sched_wf_unchanged(pre_take, *k);
    }
    (read_fd as i64, write_fd as i64)
}

/// Close a descriptor of the running process: the slot frees, and a
/// pipe end records its side as closed. An empty or out-of-range
/// descriptor yields -1.
pub fn sys_close(k: &mut Kernel, fd: usize) -> (r: i64)
    requires
        old(k).sched_wf(),
        old(k).cur_ok(),
        old(k).cur_proc().fd_table@[fd as int] matches Some(FdKind::PipeRead(pi)) ==> (pi as int)
            < old(k).pipes@.len(),
        old(k).cur_proc().fd_table@[fd as int] matches Some(FdKind::PipeWrite(pi)) ==> (pi as int)
            < old(k).pipes@.len(),
    ensures
        final(k).sched_wf(),
        ({
            let table = old(k).cur_proc().fd_table@;
            let valid = (fd as int) < table.len() && table[fd as int] is Some;
            if valid {
                &&& r == 0
                &&& final(k).cur_proc().fd_table@ == table.update(fd as int, None)
                &&& (table[fd as int] matches Some(FdKind::PipeRead(pi)) ==> final(k).pipes@[
                    pi as int].read_closed)
                &&& (table[fd as int] matches Some(FdKind::PipeWrite(pi)) ==> final(k).pipes@[
                    pi as int].write_closed)
            } else {
                r == -1 && *final(k) == *old(k)
            }
        }),
        final(k).current == old(k).current,
        final(k).tasks == old(k).tasks,
        final(k).ready_queue == old(k).ready_queue,
{
    proof {
        assert(k.processes@.len() == k.processes.len());
        assert(k.pipes@.len() == k.pipes.len());
    }
    let c = match k.current {
        Some(c) => c,
        None => 0,
    };
    let pid = k.tasks[c].pid as usize;
    proof {
        assert(pid as int == old(k).cur_pid());
    }
    let entry = match &k.processes[pid] {
        Some(p) => {
            if fd < p.inner.fd_table.len() {
                p.inner.fd_table[fd]
            } else {
                None
            }
        },
        None => None,
    };
    let kind = match entry {
        Some(kind) => kind,
        None => {
            return -1;
        },
    };
    let ghost pre_take = *k;
    let mut p = k.take_proc(pid);
    p.inner.fd_table[fd] = None;
    k.put_proc(pid, p);
    proof {
        crate::kernel::lemma_sched_wf_unchanged(pre_take, *k);
    }
    let ghost pre_pipes = *k;
    match kind {
        FdKind::PipeRead(pi) => {
            proof {
                assert(old(k).cur_proc().fd_table@[fd as int] == Some(FdKind::PipeRead(pi)));
                assert((pi as int) < k.pipes@.len());
            }
            k.pipes[pi].read_closed = true;
        },
        FdKind::PipeWrite(pi) => {
            proof {
                assert(old(k).cur_proc().fd_table@[fd as int] == Some(FdKind::PipeWrite(pi)));
                assert((pi as int) < k.pipes@.len());
            }
            k.pipes[pi].write_closed = true;
        },
        _ => {
        },
    }
    proof {
        crate::kernel::lemma_sched_wf_unchanged(pre_pipes, *k);
    }
    0
}

/// Write bytes through a descriptor of the running process: into the
/// ring buffer for a pipe's write end — as many bytes as fit while
/// the read end stays open, in order — or accepted whole by the
/// console. Reading ends and bad descriptors yield -1.
pub fn sys_write(k: &mut Kernel, fd: usize, data: &Vec<u8>) -> (r: i64)
    requires
        old(k).sched_wf(),
        old(k).cur_ok(),
        data@.len() < 0x7fff_ffff,
        old(k).cur_proc().fd_table@[fd as int] matches Some(FdKind::PipeWrite(pi)) ==> (pi as int)
            < old(k).pipes@.len() && old(k).pipes@[pi as int].wf(),
    ensures
        final(k).sched_wf(),
        final(k).processes == old(k).processes,
        final(k).current == old(k).current,
        final(k).tasks == old(k).tasks,
        ({
            let table = old(k).cur_proc().fd_table@;
            let valid = (fd as int) < table.len() && table[fd as int] is Some;
            if valid {
                match table[fd as int]->Some_0 {
                    FdKind::Stdout => r == data@.len() && final(k).pipes == old(k).pipes,
                    FdKind::PipeWrite(pi) => {
                        let o = old(k).pipes@[pi as int];
                        &&& 0 <= r <= data@.len()
                        &&& r == (if o.write_closed || o.read_closed {
                            0int
                        } else if data@.len() + o.contents().len()
                            <= crate::pipe::RING_BUFFER_SIZE {
                            data@.len() as int
                        } else {
                            crate::pipe::RING_BUFFER_SIZE - o.contents().len()
                        })
                        &&& final(k).pipes@[pi as int].contents() == o.contents() + data@.take(
                            r as int,
                        )
                        &&& final(k).pipes@[pi as int].wf()
                    },
                    _ => r == -1 && final(k).pipes == old(k).pipes,
                }
            } else {
                r == -1 && final(k).pipes == old(k).pipes
            }
        }),
{
    proof {
        assert(k.processes@.len() == k.processes.len());
        assert(k.pipes@.len() == k.pipes.len());
        assert(data@.len() == data.len());
    }
    let c = match k.current {
        Some(c) => c,
        None => 0,
    };
    let pid = k.tasks[c].pid as usize;
    let entry = match &k.processes[pid] {
        Some(p) => {
            if fd < p.inner.fd_table.len() {
                p.inner.fd_table[fd]
            } else {
                None
            }
        },
        None => None,
    };
    match entry {
        Some(FdKind::Stdout) => data.len() as i64,
        Some(FdKind::PipeWrite(pi)) => {
            proof {
                assert(old(k).cur_proc().fd_table@[fd as int] == Some(FdKind::PipeWrite(pi)));
                assert((pi as int) < k.pipes@.len() && k.pipes@[pi as int].wf());
            }
            let mut written: usize = 0;
            let total = data.len();
            let ghost o = old(k).pipes@[pi as int];
            while written < total
                invariant_except_break
                    old(k).sched_wf(),
                    (pi as int) < k.pipes@.len(),
                    written <= total,
                    total == data@.len(),
                    o == old(k).pipes@[pi as int],
                    k.pipes@[pi as int].wf(),
                    k.pipes@[pi as int].write_closed == o.write_closed,
                    k.pipes@[pi as int].read_closed == o.read_closed,
                    (o.write_closed || o.read_closed) ==> written == 0,
                    k.pipes@[pi as int].contents() =~= o.contents() + data@.take(
                        written as int,
                    ),
                    *k == (Kernel { pipes: k.pipes, ..*old(k) }),
                ensures
                    (pi as int) < k.pipes@.len(),
                    written <= total,
                    total == data@.len(),
                    o == old(k).pipes@[pi as int],
                    k.pipes@[pi as int].wf(),
                    (o.write_closed || o.read_closed) ==> written == 0,
                    k.pipes@[pi as int].contents() =~= o.contents() + data@.take(
                        written as int,
                    ),
                    written == total || o.write_closed || o.read_closed || o.contents().len()
                        + written == crate::pipe::RING_BUFFER_SIZE,
                    *k == (Kernel { pipes: k.pipes, ..*old(k) }),
                decreases total - written,
            {
                let ok = k.pipes[pi].push_byte(data[written]);
                if !ok {
                    proof {
                        k.pipes@[pi as int].lemma_len_bound();
                    }
                    break ;
                }
                proof {
                    assert(k.pipes@[pi as int].contents() =~= o.contents() + data@.take(
                        written + 1,
                    ));
                }
                written = written + 1;
            }
            proof {
                crate::kernel::lemma_sched_wf_unchanged(*old(k), *k);
                if o.write_closed || o.read_closed {
                    assert(written == 0);
                } else if total + o.contents().len() <= crate::pipe::RING_BUFFER_SIZE {
                    if written != total {
                        assert(o.contents().len() + written
                            == crate::pipe::RING_BUFFER_SIZE);
                        assert(written < total);
                        assert(false);
                    }
                } else {
                    k.pipes@[pi as int].lemma_len_bound();
                    assert(k.pipes@[pi as int].contents().len() == o.contents().len()
                        + written);
                    assert(written != total);
                    assert(o.contents().len() + written == crate::pipe::RING_BUFFER_SIZE);
                }
            }
            written as i64
        },
        Some(_) => -1,
        None => -1,
    }
}

/// Read bytes through a descriptor of the running process: up to `n`
/// bytes out of a pipe's read end, oldest first. Writing ends and bad
/// descriptors yield a -1 count.
pub fn sys_read(k: &mut Kernel, fd: usize, n: usize) -> (r: (i64, Vec<u8>))
    requires
        old(k).sched_wf(),
        old(k).cur_ok(),
        n < 0x7fff_ffff,
        old(k).cur_proc().fd_table@[fd as int] matches Some(FdKind::PipeRead(pi)) ==> (pi as int)
            < old(k).pipes@.len() && old(k).pipes@[pi as int].wf(),
    ensures
        final(k).sched_wf(),
        final(k).processes == old(k).processes,
        final(k).current == old(k).current,
        final(k).tasks == old(k).tasks,
        ({
            let table = old(k).cur_proc().fd_table@;
            let valid = (fd as int) < table.len() && table[fd as int] is Some;
            if valid && (table[fd as int]->Some_0 matches FdKind::PipeRead(pi)) {
                let pi = table[fd as int]->Some_0->PipeRead_0;
                let avail = old(k).pipes@[pi as int].contents().len() as int;
                &&& r.0 == (if n <= avail {
                    n as int
                } else {
                    avail
                })
                &&& r.1@ == old(k).pipes@[pi as int].contents().take(r.0 as int)
                &&& final(k).pipes@[pi as int].contents() == old(k).pipes@[
                    pi as int].contents().skip(r.0 as int)
                &&& final(k).pipes@[pi as int].wf()
            } else {
                r.0 == -1 && final(k).pipes == old(k).pipes
            }
        }),
{
    proof {
        assert(k.processes@.len() == k.processes.len());
        assert(k.pipes@.len() == k.pipes.len());
    }
    let c = match k.current {
        Some(c) => c,
        None => 0,
    };
    let pid = k.tasks[c].pid as usize;
    let entry = match &k.processes[pid] {
        Some(p) => {
            if fd < p.inner.fd_table.len() {
                p.inner.fd_table[fd]
            } else {
                None
            }
        },
        None => None,
    };
    match entry {
        Some(FdKind::PipeRead(pi)) => {
            proof {
                assert(old(k).cur_proc().fd_table@[fd as int] == Some(FdKind::PipeRead(pi)));
                assert((pi as int) < k.pipes@.len() && k.pipes@[pi as int].wf());
            }
            let mut out: Vec<u8> = Vec::new();
            let mut got: usize = 0;
            while got < n
                invariant_except_break
                    old(k).sched_wf(),
                    (pi as int) < k.pipes@.len(),
                    got <= n,
                    got <= old(k).pipes@[pi as int].contents().len(),
                    out@.len() == got,
                    k.pipes@[pi as int].wf(),
                    out@ =~= old(k).pipes@[pi as int].contents().take(got as int),
                    k.pipes@[pi as int].contents() =~= old(k).pipes@[pi as int].contents().skip(
                        got as int,
                    ),
                    *k == (Kernel { pipes: k.pipes, ..*old(k) }),
                ensures
                    got <= n,
                    got <= old(k).pipes@[pi as int].contents().len(),
                    out@.len() == got,
                    k.pipes@[pi as int].wf(),
                    out@ =~= old(k).pipes@[pi as int].contents().take(got as int),
                    k.pipes@[pi as int].contents() =~= old(k).pipes@[pi as int].contents().skip(
                        got as int,
                    ),
                    got == n || old(k).pipes@[pi as int].contents().len() == got,
                    *k == (Kernel { pipes: k.pipes, ..*old(k) }),
                decreases n - got,
            {
                let ghost top = k.pipes@[pi as int].contents();
                let b = k.pipes[pi].pop_byte();
                match b {
                    Some(b) => {
                        out.push(b);
                        proof {
                            assert(top =~= old(k).pipes@[pi as int].contents().skip(got as int));
                            assert(top.len() > 0);
                            assert(b == top[0]);
                            assert(old(k).pipes@[pi as int].contents().skip(got as int)[0] == old(
                                k,
                            ).pipes@[pi as int].contents()[got as int]);
                            assert(b == old(k).pipes@[pi as int].contents()[got as int]);
                            assert(out@ =~= old(k).pipes@[pi as int].contents().take(got + 1));
                            assert(k.pipes@[pi as int].contents() =~= top.drop_first());
                            assert(k.pipes@[pi as int].contents() =~= old(k).pipes@[
                                pi as int].contents().skip(got + 1));
                        }
                        got = got + 1;
                    },
                    None => {
                        break ;
                    },
                }
            }
            proof {
                crate::kernel::lemma_sched_wf_unchanged(*old(k), *k);
            }
            (got as i64, out)
        },
        Some(_) => (-1, Vec::new()),
        None => (-1, Vec::new()),
    }
}

/// Duplicate a descriptor of the running process into the lowest free
/// slot; -1 for an empty or out-of-range descriptor.
pub fn sys_dup(k: &mut Kernel, fd: usize) -> (r: i64)
    requires
        old(k).sched_wf(),
        old(k).cur_ok(),
        old(k).cur_proc().fd_table@.len() < 0x7fff_fffe,
    ensures
        final(k).sched_wf(),
        final(k).cur_ok(),
        ({
            let table = old(k).cur_proc().fd_table@;
            let valid = (fd as int) < table.len() && table[fd as int] is Some;
            if valid {
                &&& 0 <= r < final(k).cur_proc().fd_table@.len()
                &&& final(k).cur_proc().fd_table@[r as int] == table[fd as int]
                &&& forall|i: int| 0 <= i < r ==> (#[trigger] table[i]) is Some
            } else {
                r == -1 && *final(k) == *old(k)
            }
        }),
        final(k).current == old(k).current,
        final(k).tasks == old(k).tasks,
        final(k).ready_queue == old(k).ready_queue,
{
    proof {
        assert(k.processes@.len() == k.processes.len());
    }
    let c = match k.current {
        Some(c) => c,
        None => 0,
    };
    let pid = k.tasks[c].pid as usize;
    let entry = match &k.processes[pid] {
        Some(p) => {
            if fd < p.inner.fd_table.len() {
                p.inner.fd_table[fd]
            } else {
                None
            }
        },
        None => None,
    };
    let kind = match entry {
        Some(kind) => kind,
        None => {
            return -1;
        },
    };
    let ghost pre_take = *k;
    let mut p = k.take_proc(pid);
    let new_fd = p.inner.alloc_fd();
    p.inner.fd_table[new_fd] = Some(kind);
    k.put_proc(pid, p);
    proof {
        crate::kernel::lemma_sched_wf_unchanged(pre_take, *k);
    }
    new_fd as i64
}


/// Join an exited sibling thread of the running process: its exit
/// code comes back and its slot frees. -1 for the caller's own id or
/// a missing thread, -2 while the thread still runs.
pub fn sys_waittid(k: &mut Kernel, tid: usize) -> (r: i64)
    requires
        old(k).sched_wf(),
        old(k).cur_ok(),
        old(k).task(old(k).cur_task()).res is Some,
        forall|j: int|
            0 <= j < old(k).cur_proc().tasks@.len() && (#[trigger] old(k).cur_proc().tasks@[j])
                is Some ==> (old(k).cur_proc().tasks@[j]->Some_0 as int) < old(k).task_count(),
    ensures
        final(k).sched_wf(),
        final(k).tasks == old(k).tasks,
        final(k).current == old(k).current,
        final(k).ready_queue == old(k).ready_queue,
        ({
            let table = old(k).cur_proc().tasks@;
            let own = old(k).task(old(k).cur_task()).res->Some_0.tid;
            if tid == own || (tid as int) >= table.len() || table[tid as int] is None {
                r == -1 && final(k).processes == old(k).processes
            } else {
                let t = table[tid as int]->Some_0;
                match old(k).task(t as int).exit_code {
                    Some(code) => r == code && final(k).processes@[
                        old(k).cur_pid()]->Some_0.inner.tasks@ == table.update(tid as int, None),
                    None => r == -2 && final(k).processes == old(k).processes,
                }
            }
        }),
{
    proof {
        assert(k.processes@.len() == k.processes.len());
    }
    let c = match k.current {
        Some(c) => c,
        None => 0,
    };
    let pid = k.tasks[c].pid as usize;
    proof {
        assert(pid as int == old(k).cur_pid());
    }
    let own = match &k.tasks[c].res {
        Some(res) => res.tid,
        None => 0,
    };
    if tid as u64 == own {
        // a thread cannot wait for itself
        return -1;
    }
    let slot = match &k.processes[pid] {
        Some(p) => {
            if tid < p.inner.tasks.len() {
                p.inner.tasks[tid]
            } else {
                None
            }
        },
        None => None,
    };
    let t = match slot {
        Some(t) => t,
        None => {
            return -1;
        },
    };
    let code = match k.tasks[t].exit_code {
        Some(code) => code,
        None => {
            return -2;
        },
    };
    let ghost pre_take = *k;
    let mut p = k.take_proc(pid);
    p.inner.tasks[tid] = None;
    k.put_proc(pid, p);
    proof {
        crate::kernel::lemma_sched_wf_unchanged(pre_take, *k);
    }
    code
}


/// Create a thread in the running process, entering `entry` with
/// `arg` in register x10 on the thread's own user stack, with a fresh
/// thread id from the process's recycling allocator and a fresh
/// kernel stack; the thread joins the back of the ready queue and its
/// id comes back. The thread's user stack and trap-context pages sit
/// at the fixed places [`crate::task::TaskUserRes`] computes; the
/// caller maps them into the process's space with
/// [`crate::memory_set::MemorySet::insert_framed_area`]. The two code
/// addresses — the trap handler and the trap-return routine — come
/// from the caller, who knows where the kernel sits.
pub fn sys_thread_create(
    k: &mut Kernel,
    entry: u64,
    arg: u64,
    trap_handler_pc: u64,
    trap_return_pc: u64,
) -> (r: i64)
    requires
        old(k).sched_wf(),
        old(k).cur_ok(),
        old(k).task(old(k).cur_task()).res is Some,
        old(k).task(old(k).cur_task()).res->Some_0.ustack_base < 0x80_0000_0000,
        old(k).cur_proc().task_res_allocator.wf(),
        old(k).cur_proc().task_res_allocator.spec_current() < 0xfff,
        old(k).kstack_allocator.wf(),
        old(k).kstack_allocator.spec_current() < 0xffff_ffff,
        old(k).cur_proc().tasks@.len() < 0xfff,
    ensures
        final(k).sched_wf(),
        final(k).task_count() == old(k).task_count() + 1,
        0 <= r < 0x1000,
        ({
            let t = old(k).task_count();
            let base = old(k).task(old(k).cur_task()).res->Some_0.ustack_base;
            &&& final(k).task(t).pid == old(k).task(old(k).cur_task()).pid
            &&& final(k).task(t).task_status is Ready
            &&& final(k).task(t).res == Some(
                crate::task::TaskUserRes { tid: r as u64, ustack_base: base },
            )
            &&& final(k).task(t).trap_cx.sepc == entry
            &&& final(k).task(t).trap_cx.x[10] == arg
            &&& final(k).task(t).trap_cx.x[2] == base + (r as u64) * 12288 + 8192
            &&& final(k).task(t).trap_cx.trap_handler == trap_handler_pc
            &&& final(k).task(t).trap_cx.kernel_satp == old(k).kernel_space.pt().spec_token()
            // the thread's kernel-side stack pointer starts at the top
            // of the kernel-stack slot the call allocated
            &&& final(k).task(t).trap_cx.kernel_sp == crate::config::TRAMPOLINE - final(k).task(
                t,
            ).kstack_id * (crate::config::KERNEL_STACK_SIZE + crate::config::KERNEL_STACK_GUARD)
            &&& !old(k).kstack_allocator.id_in_use(final(k).task(t).kstack_id)
            &&& final(k).kstack_allocator.id_in_use(final(k).task(t).kstack_id)
            &&& final(k).ready_queue@ == old(k).ready_queue@.push(t as usize)
            &&& (r as int) < final(k).cur_proc().tasks@.len()
            &&& final(k).cur_proc().tasks@[r as int] == Some(t as usize)
        }),
        final(k).current == old(k).current,
        final(k).wait_queues == old(k).wait_queues,
        final(k).timers == old(k).timers,
{
    proof {
        assert(k.processes@.len() == k.processes.len());
    }
    let c = match k.current {
        Some(c) => c,
        None => 0,
    };
    let pid = k.tasks[c].pid as usize;
    proof {
        assert(pid as int == old(k).cur_pid());
    }
    let ustack_base = match &k.tasks[c].res {
        Some(res) => res.ustack_base,
        None => 0,
    };
    let ghost pre_take = *k;
    let mut p = k.take_proc(pid);
    proof {
        crate::kernel::lemma_sched_wf_unchanged(pre_take, *k);
    }
    let tid = p.inner.alloc_tid();
    proof {
        assert(tid < 0x1000);
    }
    let kstack_id = k.kstack_allocator.alloc_id();
    proof {
        crate::kernel::lemma_sched_wf_unchanged(pre_take, *k);
    }
    let (_kbottom, ktop) = crate::id::kernel_stack_position(kstack_id);
    let res = crate::task::TaskUserRes { tid, ustack_base };
    let ustack_top = res.ustack_top();
    let kernel_satp = k.kernel_space.token();
    let mut trap_cx = crate::task::TrapContext::app_init_context(
        entry,
        ustack_top,
        kernel_satp,
        ktop,
        trap_handler_pc,
    );
    trap_cx.set_reg(10, arg);
    let rec = new_task_record(
        Some(res),
        crate::task::TaskContext::goto_trap_return(ktop, trap_return_pc),
        trap_cx,
        0,
        k.tasks[c].pid,
        kstack_id,
    );
    let t = k.spawn_task(rec);
    while p.inner.tasks.len() <= tid as usize
        invariant
            tid < 0x1000,
        decreases tid as usize + 1 - p.inner.tasks@.len(),
    {
        p.inner.tasks.push(None);
    }
    p.inner.tasks[tid as usize] = Some(t);
    let ghost pre_put = *k;
    k.put_proc(pid, p);
    proof {
        crate::kernel::lemma_sched_wf_unchanged(pre_put, *k);
    }
    k.add_task(t);
    proof {
        assert(k.task(t as int).trap_cx.x@ == trap_cx.x@);
    }
    tid as i64
}

/// The argument views of an argument vector.
pub open spec fn args_views(args: Seq<Vec<u8>>) -> Seq<Seq<u8>> {
    args.map_values(|v: Vec<u8>| v@)
}

/// Bytes taken by the first `i` argument strings, each with its NUL.
pub open spec fn args_span(av: Seq<Seq<u8>>, i: int) -> int
    decreases i,
{
    if i <= 0 {
        0
    } else {
        args_span(av, i - 1) + av[i - 1].len() + 1
    }
}

/// Offset of argument string `i` within the two user-stack pages:
/// below the argv pointer array, highest argument first.
pub open spec fn arg_str_off(av: Seq<Seq<u8>>, i: int) -> int {
    8192 - 8 * (av.len() + 1) - args_span(av, i + 1)
}

/// The argv array entry `e`: the address of argument string `e`, or
/// the terminating null entry.
pub open spec fn spec_arg_ptr(av: Seq<Seq<u8>>, base: u64, e: int) -> u64 {
    if 0 <= e < av.len() {
        (base + arg_str_off(av, e)) as u64
    } else {
        0u64
    }
}

/// The byte at offset `o` of the string region, scanning the first
/// `i` argument strings: the argument's own bytes, its NUL, or zero
/// padding between and below them.
pub open spec fn spec_stack_str_byte(av: Seq<Seq<u8>>, o: int, i: int) -> u8
    decreases i,
{
    if i <= 0 {
        0u8
    } else {
        let j = i - 1;
        let s = arg_str_off(av, j);
        if s <= o < s + av[j].len() + 1 {
            if o - s < av[j].len() {
                av[j][o - s]
            } else {
                0u8
            }
        } else {
            spec_stack_str_byte(av, o, j)
        }
    }
}

/// The byte at offset `o` of the freshly laid-out user stack: the
/// argv pointer array — little endian, one null entry at its end — at
/// the very top, the argument strings below it, zeroes elsewhere.
pub open spec fn spec_exec_stack_byte(av: Seq<Seq<u8>>, base: u64, o: int) -> u8 {
    let argv_off = 8192 - 8 * (av.len() + 1);
    if o >= argv_off {
        let e = (o - argv_off) / 8;
        let b = (o - argv_off) % 8;
        ((spec_arg_ptr(av, base, e) >> ((8 * b) as u64)) & 0xff) as u8
    } else {
        spec_stack_str_byte(av, o, av.len() as int)
    }
}

/// Where the argv pointer array begins on the fresh stack.
pub open spec fn spec_exec_argv_base(av: Seq<Seq<u8>>, base: int) -> int {
    base + 8192 - 8 * (av.len() + 1)
}

/// The stack pointer handed to the replaced program: just below the
/// lowest argument string, aligned down to eight bytes.
pub open spec fn spec_exec_user_sp(av: Seq<Seq<u8>>, base: int) -> int {
    let sp = spec_exec_argv_base(av, base) - args_span(av, av.len() as int);
    sp - sp % 8
}

/// The user-stack base of the executable's image: one guard page
/// above its last segment.
pub open spec fn spec_elf_ustack_base(s: Seq<u8>) -> int {
    let vs = crate::elf::spec_segments(s, crate::elf::spec_ph_count(s));
    if vs.len() > 0 {
        vs.last().end_vpn() * 4096 + 4096
    } else {
        4096
    }
}

/// When replacing a process image succeeds: the bytes are a loadable
/// executable, its frames and the two user-stack frames fit the free
/// memory, and the fresh user stack still sits below the trampoline.
pub open spec fn spec_exec_ok(s: Seq<u8>, avail: int) -> bool {
    &&& crate::memory_set::spec_elf_loadable(s)
    &&& crate::memory_set::spec_elf_frames(s) + 2 <= avail
    &&& spec_elf_ustack_base(s) + 8192 <= 0x7ff_ffff_000
}

/// Lay the exec arguments out in a fresh two-page stack image: the
/// argv pointer array at the top — one entry per argument and a null
/// entry — and each argument's bytes with a terminating NUL below,
/// exactly as the replaced program will read them.
fn build_exec_stack_image(args: &Vec<Vec<u8>>, base: u64) -> (r: Vec<u8>)
    requires
        args@.len() <= 16,
        forall|i: int| 0 <= i < args@.len() ==> (#[trigger] args@[i]@).len() <= 255,
        base < 0x80_0000_0000,
    ensures
        r@.len() == 8192,
        forall|o: int|
            0 <= o < 8192 ==> #[trigger] r@[o] == spec_exec_stack_byte(args_views(args@), base, o),
{
    let ghost av = args_views(args@);
    let argc = args.len();
    let argv_off: usize = 8192 - 8 * (argc + 1);
    let mut img: Vec<u8> = Vec::new();
    while img.len() < 8192
        invariant
            img@.len() <= 8192,
            forall|o: int| 0 <= o < img@.len() ==> img@[o] == 0u8,
        decreases 8192 - img@.len(),
    {
        img.push(0u8);
    }
    let mut spanned: usize = 0;
    let mut i: usize = 0;
    while i < argc
        invariant
            av == args_views(args@),
            argc == args@.len(),
            argc <= 16,
            forall|j: int| 0 <= j < args@.len() ==> (#[trigger] args@[j]@).len() <= 255,
            argv_off == 8192 - 8 * (argc + 1),
            i <= argc,
            spanned == args_span(av, i as int),
            spanned <= i * 256,
            img@.len() == 8192,
            forall|o: int|
                0 <= o < 8192 ==> #[trigger] img@[o] == (if o < argv_off {
                    spec_stack_str_byte(av, o, i as int)
                } else {
                    0u8
                }),
        decreases argc - i,
    {
        let len_i = args[i].len();
        let s = argv_off - spanned - len_i - 1;
        proof {
            assert(av[i as int] == args@[i as int]@);
            assert(args_span(av, i + 1) == spanned + len_i + 1);
            assert(s == arg_str_off(av, i as int));
            assert(spanned + len_i + 1 <= (i + 1) * 256);
        }
        let ghost img_pre = img@;
        let mut b: usize = 0;
        while b <= len_i
            invariant
                av == args_views(args@),
                argc == args@.len(),
                argc <= 16,
                forall|j: int| 0 <= j < args@.len() ==> (#[trigger] args@[j]@).len() <= 255,
                argv_off == 8192 - 8 * (argc + 1),
                i < argc,
                len_i == args@[i as int]@.len(),
                len_i <= 255,
                spanned == args_span(av, i as int),
                spanned <= i * 256,
                s == arg_str_off(av, i as int),
                s + len_i + 1 <= argv_off,
                b <= len_i + 1,
                img@.len() == 8192,
                forall|o: int|
                    0 <= o < 8192 ==> #[trigger] img@[o] == (if s <= o < s + b {
                        (if o - s < len_i {
                            av[i as int][o - s]
                        } else {
                            0u8
                        })
                    } else if o < argv_off {
                        spec_stack_str_byte(av, o, i as int)
                    } else {
                        0u8
                    }),
            decreases len_i + 1 - b,
        {
            let byte = if b < len_i {
                args[i][b]
            } else {
                0u8
            };
            img[s + b] = byte;
            b = b + 1;
        }
        proof {
            assert forall|o: int| 0 <= o < 8192 implies img@[o] == (if o < argv_off {
                spec_stack_str_byte(av, o, i + 1)
            } else {
                0u8
            }) by {
                if o < argv_off {
                    assert(spec_stack_str_byte(av, o, i + 1) == (if s <= o < s + av[
                        i as int].len() + 1 {
                        (if o - s < av[i as int].len() {
                            av[i as int][o - s]
                        } else {
                            0u8
                        })
                    } else {
                        spec_stack_str_byte(av, o, i as int)
                    }));
                }
            }
        }
        spanned = spanned + len_i + 1;
        i = i + 1;
    }
    let mut spanned2: usize = 0;
    let mut e: usize = 0;
    while e <= argc
        invariant
            av == args_views(args@),
            argc == args@.len(),
            argc <= 16,
            forall|j: int| 0 <= j < args@.len() ==> (#[trigger] args@[j]@).len() <= 255,
            argv_off == 8192 - 8 * (argc + 1),
            base < 0x80_0000_0000,
            e <= argc + 1,
            e <= argc ==> spanned2 == args_span(av, e as int),
            spanned2 <= e * 256,
            img@.len() == 8192,
            forall|o: int|
                0 <= o < 8192 ==> #[trigger] img@[o] == (if argv_off <= o < argv_off + 8 * e {
                    spec_exec_stack_byte(av, base, o)
                } else if o < argv_off {
                    spec_stack_str_byte(av, o, argc as int)
                } else {
                    0u8
                }),
        decreases argc + 1 - e,
    {
        let v: u64 = if e < argc {
            let le = args[e].len();
            proof {
                assert(av[e as int] == args@[e as int]@);
                assert(args_span(av, e + 1) == spanned2 + le + 1);
                assert(spanned2 + le + 1 <= (e + 1) * 256);
                assert(arg_str_off(av, e as int) == argv_off - spanned2 - le - 1);
            }
            base + (argv_off - spanned2 - le - 1) as u64
        } else {
            0u64
        };
        proof {
            assert(v == spec_arg_ptr(av, base, e as int));
        }
        let ghost img_pre2 = img@;
        let mut b: usize = 0;
        while b < 8
            invariant
                av == args_views(args@),
                argc == args@.len(),
                argc <= 16,
                argv_off == 8192 - 8 * (argc + 1),
                base < 0x80_0000_0000,
                e <= argc,
                v == spec_arg_ptr(av, base, e as int),
                b <= 8,
                img@.len() == 8192,
                forall|o: int|
                    0 <= o < 8192 ==> #[trigger] img@[o] == (if argv_off + 8 * e <= o < argv_off
                        + 8 * e + b {
                        (((v >> ((8 * (o - argv_off - 8 * e)) as u64)) & 0xff) as u8)
                    } else if argv_off <= o < argv_off + 8 * e {
                        spec_exec_stack_byte(av, base, o)
                    } else if o < argv_off {
                        spec_stack_str_byte(av, o, argc as int)
                    } else {
                        0u8
                    }),
            decreases 8 - b,
        {
            let val = ((v >> ((8 * b) as u64)) & 0xff) as u8;
            img[argv_off + 8 * e + b] = val;
            b = b + 1;
        }
        proof {
            assert forall|o: int| 0 <= o < 8192 implies img@[o] == (if argv_off <= o < argv_off
                + 8 * (e + 1) {
                spec_exec_stack_byte(av, base, o)
            } else if o < argv_off {
                spec_stack_str_byte(av, o, argc as int)
            } else {
                0u8
            }) by {
                if argv_off + 8 * e <= o < argv_off + 8 * e + 8 {
                    let d = o - argv_off;
                    assert(d / 8 == e && d % 8 == d - 8 * e) by (nonlinear_arith)
                        requires
                            8 * e <= d,
                            d < 8 * e + 8,
                            e >= 0,
                    ;
                }
            }
        }
        if e < argc {
            let le2 = args[e].len();
            proof {
                assert(args_span(av, e + 1) == spanned2 + le2 + 1);
            }
            spanned2 = spanned2 + le2 + 1;
        }
        e = e + 1;
    }
    proof {
        assert forall|o: int| 0 <= o < 8192 implies img@[o] == spec_exec_stack_byte(
            av,
            base,
            o,
        ) by {
            if o < argv_off {
                assert(img@[o] == spec_stack_str_byte(av, o, argc as int));
            } else {
                assert(argv_off <= o < argv_off + 8 * (argc + 1));
            }
        }
    }
    img
}

/// Replace the running single-thread process's image. The executable
/// bytes are parsed, validated and loaded into a fresh address
/// space; the old space's frames return to the pool; the arguments
/// are laid out on a fresh two-page user stack; and thread 0's trap
/// context restarts at the new entry point with the argument count
/// in x10 and the argv array's address in x11. The pid, the file
/// table, the children, the parent and the signal state stay. Fails,
/// changing nothing, exactly when the bytes are not a loadable
/// executable, the free frames do not suffice, or the fresh stack
/// would not fit below the trampoline.
#[verifier::rlimit(100)]
#[verifier::spinoff_prover]
pub fn sys_exec(
    k: &mut Kernel,
    data: &Vec<u8>,
    args: &Vec<Vec<u8>>,
    trap_handler_pc: u64,
    trap_return_pc: u64,
) -> (r: i64)
    requires
        old(k).sched_wf(),
        old(k).cur_ok(),
        old(k).cur_proc().tasks@.len() == 1,
        old(k).cur_proc().memory_set.wf(),
        old(k).frame_allocator.wf(),
        old(k).cur_proc().memory_set.frames_owned_by(old(k).frame_allocator),
        old(k).strampoline.wf(),
        old(k).task(old(k).cur_task()).kstack_id < 0x1_0000_0000,
        args@.len() <= 16,
        forall|i: int| 0 <= i < args@.len() ==> (#[trigger] args@[i]@).len() <= 255,
    ensures
        final(k).sched_wf(),
        final(k).current == old(k).current,
        r == 0 || r == -1,
        r == -1 <==> !spec_exec_ok(data@, old(k).frame_allocator.spec_avail()),
        r == -1 ==> *final(k) == *old(k),
        r == 0 ==> ({
            let pid = old(k).cur_pid();
            let av = args_views(args@);
            let base = spec_elf_ustack_base(data@);
            let segs = crate::elf::spec_segments(data@, crate::elf::spec_ph_count(data@));
            &&& final(k).processes@[pid] matches Some(p) && {
                &&& p.pid == old(k).processes@[pid]->Some_0.pid
                &&& p.inner.fd_table == old(k).cur_proc().fd_table
                &&& p.inner.children == old(k).cur_proc().children
                &&& p.inner.parent == old(k).cur_proc().parent
                &&& p.inner.signals == old(k).cur_proc().signals
                &&& p.inner.tasks == old(k).cur_proc().tasks
                &&& p.inner.is_zombie == old(k).cur_proc().is_zombie
                &&& p.inner.base_size == base
                &&& p.inner.memory_set.wf()
                &&& p.inner.memory_set.tramp() == Some(old(k).strampoline)
                &&& p.inner.memory_set.frames_owned_by(final(k).frame_allocator)
                &&& p.inner.memory_set.areas_view().len() == segs.len() + 1
                &&& ({
                    let sa = p.inner.memory_set.areas_view().last();
                    &&& sa.start() == base / 4096
                    &&& sa.end() == base / 4096 + 2
                    &&& sa.spec_map_type() is Framed
                    &&& sa.perm() == (crate::memory_set::MAP_PERM_R
                        | crate::memory_set::MAP_PERM_W | crate::memory_set::MAP_PERM_U)
                    &&& forall|i: int, off: int|
                        0 <= i < 2 && 0 <= off < 4096 ==> (
                        #[trigger] sa.frames()[i].bytes()[off]) == spec_exec_stack_byte(
                            av,
                            base as u64,
                            i * 4096 + off,
                        )
                })
            }
            &&& forall|q: u64|
                old(k).cur_proc().memory_set.owns_frame(q) ==> !final(k).frame_allocator.allocated(
                    q,
                )
            &&& final(k).task(old(k).cur_task()).trap_cx.sepc == crate::elf::le64(data@, 24)
            &&& final(k).task(old(k).cur_task()).trap_cx.x[10] == av.len()
            &&& final(k).task(old(k).cur_task()).trap_cx.x[11] == spec_exec_argv_base(av, base)
            &&& final(k).task(old(k).cur_task()).trap_cx.x[2] == spec_exec_user_sp(av, base)
            &&& final(k).task(old(k).cur_task()).trap_cx.trap_handler == trap_handler_pc
            &&& final(k).task(old(k).cur_task()).trap_cx.kernel_satp == old(
                k,
            ).kernel_space.pt().spec_token()
        }),
{
    proof {
        assert(k.processes@.len() == k.processes.len());
    }
    let c = match k.current {
        Some(c) => c,
        None => 0,
    };
    let pid = k.tasks[c].pid as usize;
    proof {
        assert(pid as int == old(k).cur_pid());
    }
    let avail = k.frame_allocator.avail_frames();
    let parsed = crate::elf::parse_elf(data);
    let img = match parsed {
        Some(img) => img,
        None => {
            return -1;
        },
    };
    proof {
        assert(crate::elf::views_of(img.segments@) == crate::elf::spec_segments(
            data@,
            crate::elf::spec_ph_count(data@),
        ));
        crate::elf::lemma_views_wf_bridge(img);
    }
    if !crate::elf::validate_elf(&img) {
        return -1;
    }
    proof {
        crate::elf::lemma_view_pages_bridge(img.segments@);
        assert(crate::memory_set::elf_pages_needed(img.segments@)
            == crate::memory_set::spec_elf_frames(data@));
    }
    let count = img.segments.len();
    let base: u64 = if count > 0 {
        let lastseg = &img.segments[count - 1];
        proof {
            assert(img.segments@[count - 1].wf());
        }
        (lastseg.start_va + lastseg.mem_size + 4095) / 4096 * 4096 + 4096
    } else {
        4096
    };
    proof {
        let vs = crate::elf::spec_segments(data@, crate::elf::spec_ph_count(data@));
        if count > 0 {
            assert(vs[count - 1] == img.segments@[count - 1].view_of());
            assert(vs.last().end_vpn() == img.segments@[count - 1].end_vpn());
        }
        assert(base == spec_elf_ustack_base(data@));
    }
    if base > 0x7ff_ffff_000 - 8192 {
        return -1;
    }
    let mut needed: u64 = 0;
    let mut ki: usize = 0;
    proof {
        crate::elf::lemma_spec_segments_len(data@, crate::elf::spec_ph_count(data@));
        assert(count <= 0x1_0000);
    }
    while ki < count
        invariant
            img.wf(),
            count == img.segments@.len(),
            count <= 0x1_0000,
            ki <= count,
            needed == crate::memory_set::elf_pages_needed(img.segments@.take(ki as int)),
            needed <= ki * 0x800_0000,
        decreases count - ki,
    {
        let seg = &img.segments[ki];
        proof {
            assert(img.segments@[ki as int].wf());
            crate::elf::lemma_segment_vpn_order(img.segments@[ki as int]);
            crate::memory_set::lemma_elf_pages_needed_take_step(img.segments@, ki as int);
            let sg = img.segments@[ki as int];
            assert(sg.end_vpn() <= 0x800_0000) by (nonlinear_arith)
                requires
                    sg.end_vpn() == (sg.start_va + sg.mem_size + 4096 - 1) / 4096,
                    sg.start_va + sg.mem_size <= 0x7f_ffff_f000,
                    sg.start_va >= 0,
                    sg.mem_size >= 0,
            ;
            assert(needed + (sg.end_vpn() - sg.start_vpn()) <= (ki + 1) * 0x800_0000)
                by (nonlinear_arith)
                requires
                    needed <= ki * 0x800_0000,
                    0 <= sg.end_vpn() - sg.start_vpn() <= 0x800_0000,
                    ki >= 0,
            ;
        }
        let pages: u64 = (seg.start_va + seg.mem_size + 4095) / 4096 - seg.start_va / 4096;
        needed = needed + pages;
        ki = ki + 1;
    }
    proof {
        assert(img.segments@.take(count as int) =~= img.segments@);
        assert(needed * 1 <= 0x1_0000 * 0x800_0000) by (nonlinear_arith)
            requires
                needed <= count * 0x800_0000,
                count <= 0x1_0000,
        ;
    }
    if avail < needed + 2 {
        return -1;
    }
    proof {
        assert(spec_exec_ok(data@, old(k).frame_allocator.spec_avail()));
    }
    let strampoline = k.strampoline;
    let ghost pre_load = *k;
    let (ms0, ustack_base, entry) = crate::memory_set::MemorySet::from_elf(
        &img,
        strampoline,
        &mut k.frame_allocator,
    );
    let mut ms = ms0;
    proof {
        crate::kernel::lemma_sched_wf_unchanged(pre_load, *k);
        assert(ustack_base == base);
    }
    let image = build_exec_stack_image(args, ustack_base);
    proof {
        let q = base as int / 4096;
        let ghost_ev: int = if count > 0 {
            img.segments@[count - 1].end_vpn()
        } else {
            0
        };
        assert(base % 4096 == 0 && q * 4096 == base) by (nonlinear_arith)
            requires
                count > 0 ==> base == ghost_ev * 4096 + 4096 && ghost_ev >= 0,
                count == 0 ==> base == 4096,
                q == base as int / 4096,
        ;
        assert(base as int / 4096 <= (0x7ff_ffff_000 - 8192) / 4096) by {
            vstd::arithmetic::div_mod::lemma_div_is_ordered(
                base as int,
                0x7ff_ffff_000 - 8192,
                4096,
            );
        }
    }
    let sa = crate::memory_set::MapArea::new(
        crate::address::VirtAddr(ustack_base),
        crate::address::VirtAddr(ustack_base + 8192),
        crate::memory_set::MapType::Framed,
        crate::memory_set::MAP_PERM_R | crate::memory_set::MAP_PERM_W
            | crate::memory_set::MAP_PERM_U,
    );
    proof {
        let q = base as int / 4096;
        assert((base + 8192 + 4095) as int / 4096 == q + 2) by (nonlinear_arith)
            requires
                q * 4096 == base,
                q >= 0,
        ;
        assert(sa.start() == q && sa.end() == q + 2);
        if count > 0 {
            assert(img.segments@[count - 1].end_vpn() == q - 1) by (nonlinear_arith)
                requires
                    base == img.segments@[count - 1].end_vpn() * 4096 + 4096,
                    q * 4096 == base,
                    img.segments@[count - 1].end_vpn() >= 0,
            ;
        }
        assert forall|k2: int| 0 <= k2 < ms.areas_view().len() implies crate::memory_set::areas_disjoint(
            sa,
            #[trigger] ms.areas_view()[k2],
        ) by {
            if k2 < count - 1 {
                crate::elf::lemma_segments_pairwise_disjoint(img, k2, count as int - 1);
                crate::elf::lemma_segment_vpn_order(img.segments@[count - 1]);
            }
            assert(ms.areas_view()[k2].end() <= img.segments@[count - 1].end_vpn());
        }
        assert(!sa.covers(crate::config::TRAMPOLINE_VPN));
    }
    let ghost pre_push = *k;
    ms.push(sa, Some(&image), &mut k.frame_allocator);
    proof {
        crate::kernel::lemma_sched_wf_unchanged(pre_push, *k);
    }
    let ghost pre_take = *k;
    let mut p = k.take_proc(pid);
    proof {
        assert(p.inner.memory_set == old(k).cur_proc().memory_set);
        assert(p.inner.memory_set.frames_owned_by(k.frame_allocator)) by {
            assert forall|k2: int, i: int|
                0 <= k2 < p.inner.memory_set.areas_view().len() && 0 <= i
                    < p.inner.memory_set.areas_view()[k2].frames().len() implies k.frame_allocator.allocated(
                (#[trigger] p.inner.memory_set.areas_view()[k2].frames()[i]).ppn.0,
            ) by {
                assert(old(k).frame_allocator.allocated(
                    p.inner.memory_set.areas_view()[k2].frames()[i].ppn.0,
                ));
            }
        }
    }
    let ghost pre_recycle_alloc = k.frame_allocator;
    p.inner.memory_set.recycle_data_pages(&mut k.frame_allocator);
    proof {
        assert(ms.frames_owned_by(k.frame_allocator)) by {
            assert forall|k2: int, i: int|
                0 <= k2 < ms.areas_view().len() && 0 <= i
                    < ms.areas_view()[k2].frames().len() implies k.frame_allocator.allocated(
                (#[trigger] ms.areas_view()[k2].frames()[i]).ppn.0,
            ) by {
                let fq = ms.areas_view()[k2].frames()[i].ppn.0;
                assert(pre_recycle_alloc.allocated(fq));
                assert(!old(k).cur_proc().memory_set.owns_frame(fq)) by {
                    if old(k).cur_proc().memory_set.owns_frame(fq) {
                        assert(old(k).frame_allocator.allocated(fq));
                        assert(ms.owns_frame(fq)) by {
                            assert(0 <= k2 < ms.areas_view().len() && ms.areas_view()[k2].owns_frame(
                                fq,
                            ));
                        }
                        assert(false);
                    }
                }
            }
        }
    }
    p.inner.memory_set = ms;
    p.inner.base_size = ustack_base;
    k.put_proc(pid, p);
    proof {
        crate::kernel::lemma_sched_wf_unchanged(pre_take, *k);
    }
    let argc = args.len();
    let argv_off_u: u64 = 8192 - 8 * (argc as u64 + 1);
    let mut spanned: usize = 0;
    let mut ai: usize = 0;
    while ai < argc
        invariant
            argc == args@.len(),
            argc <= 16,
            forall|j: int| 0 <= j < args@.len() ==> (#[trigger] args@[j]@).len() <= 255,
            ai <= argc,
            spanned == args_span(args_views(args@), ai as int),
            spanned <= ai * 256,
        decreases argc - ai,
    {
        let la = args[ai].len();
        proof {
            assert(args_views(args@)[ai as int] == args@[ai as int]@);
            assert(args_span(args_views(args@), ai + 1) == spanned + la + 1);
        }
        spanned = spanned + la + 1;
        ai = ai + 1;
    }
    let argv_base: u64 = ustack_base + argv_off_u;
    let sp0: u64 = argv_base - spanned as u64;
    let user_sp: u64 = sp0 - sp0 % 8;
    proof {
        assert(user_sp == spec_exec_user_sp(args_views(args@), base as int));
    }
    let kernel_satp = k.kernel_space.token();
    let (_kb, ktop) = crate::id::kernel_stack_position(k.tasks[c].kstack_id);
    let mut cx = crate::task::TrapContext::app_init_context(
        entry,
        user_sp,
        kernel_satp,
        ktop,
        trap_handler_pc,
    );
    cx.set_reg(10, argc as u64);
    cx.set_reg(11, argv_base);
    let ghost pre_cx = *k;
    k.tasks[c].trap_cx = cx;
    k.tasks[c].task_cx = crate::task::TaskContext::goto_trap_return(ktop, trap_return_pc);
    proof {
        assert(k.tasks@ =~= pre_cx.tasks@.update(c as int, k.task(c as int)));
        crate::kernel::lemma_sched_wf_after_benign_update(pre_cx, *k, c);
    }
    0
}

} // verus!
