//! The kernel's global state and the scheduler core: the task table,
//! the FIFO ready queue, the running slot, the wait queues of every
//! synchronisation object, and the timer wheel.
//!
//! The scheduling invariant says where a thread may sit: the ready
//! queue exactly when it is `Ready`, the running slot exactly when it
//! is `Running`, and — while `Blocked` on a site — that one site's
//! queue. A thread is never in two places at once.

use vstd::prelude::*;


use crate::address::PhysPageNum;
use crate::frame_allocator::StackFrameAllocator;
use crate::id::RecycleAllocator;
use crate::memory_set::MemorySet;
use crate::pipe::Pipe;
use crate::process::ProcessControlBlock;
use crate::task::{TaskControlBlockInner, TaskStatus, WaitSite};

verus! {

/// One sleeping thread on the timer wheel.
#[derive(Clone, Copy, PartialEq, Eq, Structural, Debug)]
pub struct TimerCondVar {
    /// When the sleep expires, in milliseconds.
    pub expire_ms: u64,
    /// The sleeping task.
    pub task: usize,
}

/// The kernel: processes, the flat task table, the scheduler
/// structures, the physical-frame pool and the kernel address space.
pub struct Kernel {
    /// Processes by process id.
    pub processes: Vec<Option<ProcessControlBlock>>,
    /// Issues process ids.
    pub pid_allocator: RecycleAllocator,
    /// Issues kernel-stack slots.
    pub kstack_allocator: RecycleAllocator,
    /// The physical-frame pool.
    pub frame_allocator: StackFrameAllocator,
    /// The kernel's own address space.
    pub kernel_space: MemorySet,
    /// Every thread ever created, by task index.
    pub tasks: Vec<TaskControlBlockInner>,
    /// Task indices ready to run, in arrival order.
    pub ready_queue: Vec<usize>,
    /// The task holding the processor.
    pub current: Option<usize>,
    /// The wait queues of all synchronisation objects.
    pub wait_queues: Vec<Vec<usize>>,
    /// Sleeping tasks, ordered by expiry.
    pub timers: Vec<TimerCondVar>,
    /// The pipes of all processes.
    pub pipes: Vec<Pipe>,
    /// The clock, in milliseconds.
    pub time_ms: u64,
    /// Physical page of the trampoline code.
    pub strampoline: PhysPageNum,
    /// The first process, which adopts orphans.
    pub initproc_pid: u64,
}

impl Kernel {
    /// Number of task slots.
    pub open spec fn task_count(self) -> int {
        self.tasks@.len() as int
    }

    /// The task record at an index.
    pub open spec fn task(self, t: int) -> TaskControlBlockInner {
        self.tasks@[t]
    }

    /// Whether the task index sits in the ready queue.
    pub open spec fn in_ready(self, t: usize) -> bool {
        self.ready_queue@.contains(t)
    }

    /// Whether the task index sits on the timer wheel.
    pub open spec fn in_timers(self, t: usize) -> bool {
        exists|i: int| 0 <= i < self.timers@.len() && self.timers@[i].task == t
    }

    /// Whether the task index sits in the wait queue with the given
    /// index.
    pub open spec fn in_queue(self, s: int, t: usize) -> bool {
        0 <= s < self.wait_queues@.len() && self.wait_queues@[s]@.contains(t)
    }

    /// Ready-queue entries are valid `Ready` tasks.
    #[verifier::opaque]
    pub open spec fn c_ready_entries(self) -> bool {
        forall|i: int|
            0 <= i < self.ready_queue@.len() ==> (#[trigger] self.ready_queue@[i])
                < self.task_count() && self.task(self.ready_queue@[i] as int).task_status
                is Ready
    }

    /// Every `Ready` task is in the ready queue.
    #[verifier::opaque]
    pub open spec fn c_ready_complete(self) -> bool {
        forall|t: usize|
            t < self.task_count() && (#[trigger] self.task(t as int)).task_status is Ready
                ==> self.ready_queue@.contains(t)
    }

    /// The ready queue never repeats a task.
    #[verifier::opaque]
    pub open spec fn c_ready_nodup(self) -> bool {
        self.ready_queue@.no_duplicates()
    }

    /// The current task, if any, is a valid `Running` task.
    #[verifier::opaque]
    pub open spec fn c_current(self) -> bool {
        self.current matches Some(c) ==> c < self.task_count() && self.task(
            c as int,
        ).task_status is Running
    }

    /// Every `Running` task is the current one.
    #[verifier::opaque]
    pub open spec fn c_running_current(self) -> bool {
        forall|t: usize|
            t < self.task_count() && (#[trigger] self.task(t as int)).task_status is Running
                ==> self.current == Some(t)
    }

    /// Wait-queue entries are valid tasks recorded as blocked there.
    #[verifier::opaque]
    pub open spec fn c_queue_entries(self) -> bool {
        forall|s: int, i: int|
            0 <= s < self.wait_queues@.len() && 0 <= i < self.wait_queues@[s]@.len() ==> (
            #[trigger] self.wait_queues@[s]@[i]) < self.task_count() && self.task(
                self.wait_queues@[s]@[i] as int,
            ).blocked_on@ == Some(WaitSite::Queue(s as usize))
    }

    /// No wait queue repeats a task.
    #[verifier::opaque]
    pub open spec fn c_queue_nodup(self) -> bool {
        forall|s: int|
            0 <= s < self.wait_queues@.len() ==> (#[trigger] self.wait_queues@[s]@).no_duplicates()
    }

    /// A task recorded as blocked somewhere is `Blocked`, not exited,
    /// and sits in that site.
    #[verifier::opaque]
    pub open spec fn c_blocked(self) -> bool {
        forall|t: usize|
            t < self.task_count() && (#[trigger] self.task(t as int)).blocked_on@ is Some ==> {
                &&& self.task(t as int).task_status is Blocked
                &&& self.task(t as int).exit_code is None
                &&& match self.task(t as int).blocked_on@->Some_0 {
                    WaitSite::Queue(s) => self.in_queue(s as int, t),
                    WaitSite::Timer => self.in_timers(t),
                }
            }
    }

    /// Timer entries are valid tasks recorded as blocked on the wheel.
    #[verifier::opaque]
    pub open spec fn c_timer_entries(self) -> bool {
        forall|i: int|
            0 <= i < self.timers@.len() ==> (#[trigger] self.timers@[i]).task < self.task_count()
                && self.task(self.timers@[i].task as int).blocked_on@ == Some(WaitSite::Timer)
    }

    /// The wheel never repeats a task.
    #[verifier::opaque]
    pub open spec fn c_timer_nodup(self) -> bool {
        forall|i: int, j: int|
            0 <= i < self.timers@.len() && 0 <= j < self.timers@.len() && i != j ==> (
            #[trigger] self.timers@[i]).task != (#[trigger] self.timers@[j]).task
    }

    /// The wheel is sorted by expiry.
    #[verifier::opaque]
    pub open spec fn c_timer_sorted(self) -> bool {
        forall|i: int|
            0 <= i && i + 1 < self.timers@.len() ==> (#[trigger] self.timers@[i]).expire_ms
                <= self.timers@[i + 1].expire_ms
    }

    /// An exited task is parked: `Blocked` with no site.
    #[verifier::opaque]
    pub open spec fn c_exited(self) -> bool {
        forall|t: usize|
            t < self.task_count() && (#[trigger] self.task(t as int)).exit_code is Some
                ==> self.task(t as int).task_status is Blocked && self.task(t as int).blocked_on@
                is None
    }

    /// The scheduling invariant. A task is in the ready queue exactly
    /// when `Ready`; it is current exactly when `Running`; while its
    /// blocked site is recorded it sits in that site's queue and
    /// nowhere else; queues never repeat a task; the timer wheel is
    /// sorted by expiry; an exited task sits nowhere.
    pub open spec fn sched_wf(self) -> bool {
        &&& self.c_ready_entries()
        &&& self.c_ready_complete()
        &&& self.c_ready_nodup()
        &&& self.c_current()
        &&& self.c_running_current()
        &&& self.c_queue_entries()
        &&& self.c_queue_nodup()
        &&& self.c_blocked()
        &&& self.c_timer_entries()
        &&& self.c_timer_nodup()
        &&& self.c_timer_sorted()
        &&& self.c_exited()
    }

    /// A task appears in at most one place: the ready queue, the
    /// running slot, one wait queue, or the timer wheel — and an
    /// exited task in none of them.
    pub proof fn lemma_task_single_location(self, t: usize)
        requires
            self.sched_wf(),
            t < self.task_count(),
        ensures
            self.in_ready(t) ==> self.current != Some(t) && !self.in_timers(t) && forall|s: int|
                !self.in_queue(s, t),
            self.current == Some(t) ==> !self.in_ready(t) && !self.in_timers(t) && forall|s: int|
                !self.in_queue(s, t),
            forall|s1: int, s2: int|
                self.in_queue(s1, t) && self.in_queue(s2, t) ==> s1 == s2,
            self.in_timers(t) ==> forall|s: int| !self.in_queue(s, t),
            self.task(t as int).exit_code is Some ==> !self.in_ready(t) && self.current != Some(t)
                && !self.in_timers(t) && (forall|s: int| !self.in_queue(s, t)),
    {
        reveal(Kernel::c_ready_entries);
        reveal(Kernel::c_ready_complete);
        reveal(Kernel::c_ready_nodup);
        reveal(Kernel::c_current);
        reveal(Kernel::c_running_current);
        reveal(Kernel::c_queue_entries);
        reveal(Kernel::c_queue_nodup);
        reveal(Kernel::c_blocked);
        reveal(Kernel::c_timer_entries);
        reveal(Kernel::c_timer_nodup);
        reveal(Kernel::c_timer_sorted);
        reveal(Kernel::c_exited);
        if self.in_ready(t) {
            let i = choose|i: int|
                0 <= i < self.ready_queue@.len() && self.ready_queue@[i] == t;
            assert(self.task(t as int).task_status is Ready);
            assert forall|s: int| !self.in_queue(s, t) by {
                if self.in_queue(s, t) {
                    let j = choose|j: int|
                        0 <= j < self.wait_queues@[s]@.len() && self.wait_queues@[s]@[j] == t;
                    assert(self.task(t as int).blocked_on@ == Some(WaitSite::Queue(s as usize)));
                }
            }
            if self.in_timers(t) {
                let j = choose|j: int| 0 <= j < self.timers@.len() && self.timers@[j].task == t;
                assert(self.task(t as int).blocked_on@ == Some(WaitSite::Timer));
            }
        }
        if self.current == Some(t) {
            assert(self.task(t as int).task_status is Running);
            assert forall|s: int| !self.in_queue(s, t) by {
                if self.in_queue(s, t) {
                    let j = choose|j: int|
                        0 <= j < self.wait_queues@[s]@.len() && self.wait_queues@[s]@[j] == t;
                }
            }
            if self.in_timers(t) {
                let j = choose|j: int| 0 <= j < self.timers@.len() && self.timers@[j].task == t;
            }
            if self.in_ready(t) {
                let i = choose|i: int|
                    0 <= i < self.ready_queue@.len() && self.ready_queue@[i] == t;
            }
        }
        assert forall|s1: int, s2: int|
            self.in_queue(s1, t) && self.in_queue(s2, t) implies s1 == s2 by {
            if self.in_queue(s1, t) && self.in_queue(s2, t) {
                let j1 = choose|j: int|
                    0 <= j < self.wait_queues@[s1]@.len() && self.wait_queues@[s1]@[j] == t;
                let j2 = choose|j: int|
                    0 <= j < self.wait_queues@[s2]@.len() && self.wait_queues@[s2]@[j] == t;
                assert(0 <= s1 < self.wait_queues@.len() && 0 <= s2 < self.wait_queues@.len());
                assert(self.wait_queues@.len() <= usize::MAX) by {
                    assert(self.wait_queues@.len() == self.wait_queues.len());
                }
                assert(self.task(t as int).blocked_on@ == Some(WaitSite::Queue(s1 as usize)));
                assert(self.task(t as int).blocked_on@ == Some(WaitSite::Queue(s2 as usize)));
                assert(s1 as usize == s2 as usize);
            }
        }
        if self.in_timers(t) {
            let j = choose|j: int| 0 <= j < self.timers@.len() && self.timers@[j].task == t;
            assert(self.task(t as int).blocked_on@ == Some(WaitSite::Timer));
            assert forall|s: int| !self.in_queue(s, t) by {
                if self.in_queue(s, t) {
                    let j2 = choose|j2: int|
                        0 <= j2 < self.wait_queues@[s]@.len() && self.wait_queues@[s]@[j2] == t;
                }
            }
        }
        if self.task(t as int).exit_code is Some {
            assert(self.task(t as int).blocked_on@ is None);
            if self.in_ready(t) {
                let i = choose|i: int|
                    0 <= i < self.ready_queue@.len() && self.ready_queue@[i] == t;
            }
            if self.in_timers(t) {
                let j = choose|j: int| 0 <= j < self.timers@.len() && self.timers@[j].task == t;
            }
            assert forall|s: int| !self.in_queue(s, t) by {
                if self.in_queue(s, t) {
                    let j2 = choose|j2: int|
                        0 <= j2 < self.wait_queues@[s]@.len() && self.wait_queues@[s]@[j2] == t;
                }
            }
        }
    }
}


impl Kernel {
    /// Append a fresh task record. It starts in limbo: blocked on
    /// nothing, in no queue, not exited — the scheduler sees it once
    /// it is enqueued.
    pub fn spawn_task(&mut self, inner: TaskControlBlockInner) -> (t: usize)
        requires
            old(self).sched_wf(),
            inner.task_status is Blocked,
            inner.blocked_on@ is None,
            inner.exit_code is None,
        ensures
            final(self).sched_wf(),
            t == old(self).task_count(),
            final(self).tasks@ == old(self).tasks@.push(inner),
            final(self).ready_queue == old(self).ready_queue,
            final(self).current == old(self).current,
            final(self).wait_queues == old(self).wait_queues,
            final(self).timers == old(self).timers,
            final(self).processes == old(self).processes,
            final(self).pipes == old(self).pipes,
            final(self).time_ms == old(self).time_ms,
            final(self).frame_allocator == old(self).frame_allocator,
            final(self).pid_allocator == old(self).pid_allocator,
            final(self).kstack_allocator == old(self).kstack_allocator,
            final(self).kernel_space == old(self).kernel_space,
            final(self).strampoline == old(self).strampoline,
            final(self).initproc_pid == old(self).initproc_pid,
    {
        let t = self.tasks.len();
        self.tasks.push(inner);
        proof {
            lemma_sched_wf_after_spawn(*old(self), *self, inner);
        }
        t
    }

    /// Move a limbo task into the ready queue, at the back.
    #[verifier::rlimit(100)]
    #[verifier::spinoff_prover]
    pub fn add_task(&mut self, t: usize)
        requires
            old(self).sched_wf(),
            t < old(self).task_count(),
            old(self).task(t as int).task_status is Blocked,
            old(self).task(t as int).blocked_on@ is None,
            old(self).task(t as int).exit_code is None,
        ensures
            final(self).sched_wf(),
            final(self).task_count() == old(self).task_count(),
            final(self).ready_queue@ == old(self).ready_queue@.push(t),
            final(self).tasks@ == old(self).tasks@.update(
                t as int,
                final(self).task(t as int),
            ),
            final(self).task(t as int).task_status is Ready,
            final(self).task(t as int).blocked_on@ is None,
            final(self).task(t as int).exit_code is None,
            final(self).task(t as int).res == old(self).task(t as int).res,
            final(self).task(t as int).task_cx == old(self).task(t as int).task_cx,
            final(self).task(t as int).trap_cx == old(self).task(t as int).trap_cx,
            final(self).task(t as int).pid == old(self).task(t as int).pid,
            final(self).task(t as int).kstack_id == old(self).task(t as int).kstack_id,
            final(self).task(t as int).trap_cx_ppn == old(self).task(t as int).trap_cx_ppn,
            final(self).current == old(self).current,
            final(self).wait_queues == old(self).wait_queues,
            final(self).timers == old(self).timers,
            final(self).processes == old(self).processes,
            final(self).pipes == old(self).pipes,
            final(self).time_ms == old(self).time_ms,
            final(self).frame_allocator == old(self).frame_allocator,
            final(self).pid_allocator == old(self).pid_allocator,
            final(self).kstack_allocator == old(self).kstack_allocator,
            final(self).kernel_space == old(self).kernel_space,
            final(self).strampoline == old(self).strampoline,
            final(self).initproc_pid == old(self).initproc_pid,
    {
        proof {
            reveal(Kernel::c_ready_entries);
            assert(!old(self).in_ready(t)) by {
                if old(self).in_ready(t) {
                    let i = choose|i: int|
                        0 <= i < old(self).ready_queue@.len() && old(self).ready_queue@[i] == t;
                }
            }
        }
        self.tasks[t].task_status = TaskStatus::Ready;
        self.ready_queue.push(t);
        proof {
            lemma_sched_wf_after_requeue(*old(self), *self, t);
        }
    }

    /// Hand the processor to the front of the ready queue, if any
    /// task is ready. Requires an empty running slot.
    #[verifier::rlimit(100)]
    #[verifier::spinoff_prover]
    pub fn fetch_next(&mut self)
        requires
            old(self).sched_wf(),
            old(self).current is None,
        ensures
            final(self).sched_wf(),
            final(self).task_count() == old(self).task_count(),
            old(self).ready_queue@.len() > 0 ==> old(self).ready_queue@[0] < old(
                self,
            ).task_count(),
            old(self).ready_queue@.len() == 0 ==> *final(self) == *old(self),
            old(self).ready_queue@.len() > 0 ==> {
                &&& final(self).current == Some(old(self).ready_queue@[0])
                &&& final(self).ready_queue@ == old(self).ready_queue@.drop_first()
                &&& final(self).tasks@ == old(self).tasks@.update(
                    old(self).ready_queue@[0] as int,
                    final(self).task(old(self).ready_queue@[0] as int),
                )
                &&& final(self).task(old(self).ready_queue@[0] as int).task_status is Running
                &&& final(self).task(old(self).ready_queue@[0] as int).blocked_on@ is None
                &&& final(self).task(old(self).ready_queue@[0] as int).trap_cx == old(self).task(
                    old(self).ready_queue@[0] as int,
                ).trap_cx
                &&& final(self).task(old(self).ready_queue@[0] as int).res == old(self).task(
                    old(self).ready_queue@[0] as int,
                ).res
                &&& final(self).task(old(self).ready_queue@[0] as int).exit_code == old(
                    self,
                ).task(old(self).ready_queue@[0] as int).exit_code
            },
            final(self).wait_queues == old(self).wait_queues,
            final(self).timers == old(self).timers,
            final(self).processes == old(self).processes,
            final(self).pipes == old(self).pipes,
            final(self).time_ms == old(self).time_ms,
            final(self).frame_allocator == old(self).frame_allocator,
            final(self).initproc_pid == old(self).initproc_pid,
            final(self).strampoline == old(self).strampoline,
            final(self).pid_allocator == old(self).pid_allocator,
            final(self).kstack_allocator == old(self).kstack_allocator,
            final(self).kernel_space == old(self).kernel_space,
    {
        if self.ready_queue.len() == 0 {
            return ;
        }
        let t = self.ready_queue.remove(0);
        proof {
            reveal(Kernel::c_ready_entries);
            reveal(Kernel::c_blocked);
            reveal(Kernel::c_exited);
            assert(old(self).task(t as int).blocked_on@ is None) by {
                if old(self).task(t as int).blocked_on@ is Some {
                }
            }
        }
        self.tasks[t].task_status = TaskStatus::Running;
        self.current = Some(t);
        proof {
            lemma_sched_wf_after_dispatch(*old(self), *self, t);
        }
    }
}

impl Kernel {
    /// Expel a task from every scheduler structure: it leaves the
    /// ready queue, its wait queue or the timer wheel, whichever holds
    /// it, and is left parked — `Blocked` with no recorded site. The
    /// running task cannot be expelled. Task payloads, processes and
    /// the rest of the kernel are untouched.
    #[verifier::rlimit(100)]
    #[verifier::spinoff_prover]
    pub fn purge_task(&mut self, t: usize)
        requires
            old(self).sched_wf(),
            t < old(self).task_count(),
            old(self).current != Some(t),
        ensures
            final(self).sched_wf(),
            final(self).task_count() == old(self).task_count(),
            final(self).current == old(self).current,
            !final(self).in_ready(t),
            !final(self).in_timers(t),
            forall|s: int| !final(self).in_queue(s, t),
            final(self).task(t as int).task_status is Blocked,
            final(self).task(t as int).blocked_on@ is None,
            final(self).tasks@ == old(self).tasks@.update(t as int, final(self).task(t as int)),
            final(self).task(t as int).res == old(self).task(t as int).res,
            final(self).task(t as int).task_cx == old(self).task(t as int).task_cx,
            final(self).task(t as int).trap_cx == old(self).task(t as int).trap_cx,
            final(self).task(t as int).trap_cx_ppn == old(self).task(t as int).trap_cx_ppn,
            final(self).task(t as int).exit_code == old(self).task(t as int).exit_code,
            final(self).task(t as int).pid == old(self).task(t as int).pid,
            final(self).task(t as int).kstack_id == old(self).task(t as int).kstack_id,
            forall|u: usize| u != t ==> #[trigger] final(self).in_ready(u) == old(self).in_ready(u),
            forall|u: usize|
                u != t ==> #[trigger] final(self).in_timers(u) == old(self).in_timers(u),
            forall|s: int, u: usize|
                u != t ==> #[trigger] final(self).in_queue(s, u) == old(self).in_queue(s, u),
            forall|u: usize| final(self).in_ready(u) ==> old(self).in_ready(u),
            final(self).wait_queues@.len() == old(self).wait_queues@.len(),
            final(self).processes == old(self).processes,
            final(self).pipes == old(self).pipes,
            final(self).time_ms == old(self).time_ms,
            final(self).frame_allocator == old(self).frame_allocator,
            final(self).initproc_pid == old(self).initproc_pid,
            final(self).strampoline == old(self).strampoline,
            final(self).pid_allocator == old(self).pid_allocator,
            final(self).kstack_allocator == old(self).kstack_allocator,
            final(self).kernel_space == old(self).kernel_space,
    {
        proof {
            reveal(Kernel::c_ready_entries);
            reveal(Kernel::c_ready_complete);
            reveal(Kernel::c_ready_nodup);
            reveal(Kernel::c_current);
            reveal(Kernel::c_running_current);
            reveal(Kernel::c_queue_entries);
            reveal(Kernel::c_queue_nodup);
            reveal(Kernel::c_blocked);
            reveal(Kernel::c_timer_entries);
            reveal(Kernel::c_timer_nodup);
            reveal(Kernel::c_timer_sorted);
            reveal(Kernel::c_exited);
        }
        let n = self.ready_queue.len();
        let mut i: usize = 0;
        while i < n
            invariant
                *self == *old(self),
                old(self).sched_wf(),
                t < old(self).task_count(),
                old(self).current != Some(t),
                n == self.ready_queue@.len(),
                i <= n,
                forall|j: int| 0 <= j < i ==> self.ready_queue@[j] != t,
            decreases n - i,
        {
            if self.ready_queue[i] == t {
                proof {
                    reveal(Kernel::c_ready_entries);
                    reveal(Kernel::c_ready_nodup);
                    assert(old(self).in_ready(t));
                    old(self).lemma_task_single_location(t);
                    assert(old(self).task(t as int).task_status is Ready) by {
                        reveal(Kernel::c_ready_entries);
                    }
                }
                self.ready_queue.remove(i);
                self.tasks[t].task_status = TaskStatus::Blocked;
                proof {
                    let pre = *old(self);
                    let post = *self;
                    reveal(Kernel::c_ready_entries);
                    reveal(Kernel::c_ready_complete);
                    reveal(Kernel::c_ready_nodup);
                    reveal(Kernel::c_current);
                    reveal(Kernel::c_running_current);
                    reveal(Kernel::c_queue_entries);
                    reveal(Kernel::c_queue_nodup);
                    reveal(Kernel::c_blocked);
                    reveal(Kernel::c_timer_entries);
                    reveal(Kernel::c_timer_nodup);
                    reveal(Kernel::c_timer_sorted);
                    reveal(Kernel::c_exited);
                    assert(pre.task(t as int).blocked_on@ is None) by {
                        if pre.task(t as int).blocked_on@ is Some {
                        }
                    }
                    assert(pre.task(t as int).exit_code is None) by {
                        if pre.task(t as int).exit_code is Some {
                        }
                    }
                    assert(post.tasks@ =~= pre.tasks@.update(t as int, post.task(t as int)));
                    let rq0 = pre.ready_queue@;
                    let rq1 = post.ready_queue@;
                    assert(rq1 == rq0.remove(i as int));
                    assert forall|u: usize| u != t implies #[trigger] post.in_ready(u)
                        == pre.in_ready(u) by {
                        if pre.in_ready(u) {
                            let j = choose|j: int| 0 <= j < rq0.len() && rq0[j] == u;
                            assert(j != i);
                            if j < i {
                                assert(rq1[j] == u);
                            } else {
                                assert(rq1[j - 1] == u);
                            }
                        }
                        if post.in_ready(u) {
                            let j = choose|j: int| 0 <= j < rq1.len() && rq1[j] == u;
                            if j < i {
                                assert(rq0[j] == u);
                            } else {
                                assert(rq0[j + 1] == u);
                            }
                        }
                    }
                    assert(!post.in_ready(t)) by {
                        if post.in_ready(t) {
                            let j = choose|j: int| 0 <= j < rq1.len() && rq1[j] == t;
                            if j < i {
                                assert(rq0[j] == t && rq0[i as int] == t);
                            } else {
                                assert(rq0[j + 1] == t && rq0[i as int] == t);
                            }
                        }
                    }
                    assert(post.c_ready_entries()) by {
                        assert forall|j: int|
                            0 <= j < rq1.len() implies (#[trigger] rq1[j]) < post.task_count()
                            && post.task(rq1[j] as int).task_status is Ready by {
                            if j < i {
                                assert(rq1[j] == rq0[j]);
                            } else {
                                assert(rq1[j] == rq0[j + 1]);
                            }
                            assert(rq1[j] != t);
                        }
                    }
                    assert(post.c_ready_complete()) by {
                        assert forall|u: usize|
                            u < post.task_count() && (#[trigger] post.task(
                                u as int,
                            )).task_status is Ready implies post.in_ready(u) by {
                            assert(u != t);
                            assert(pre.task(u as int).task_status is Ready);
                            assert(pre.in_ready(u));
                        }
                    }
                    assert(post.c_ready_nodup()) by {
                        assert forall|j1: int, j2: int|
                            0 <= j1 < rq1.len() && 0 <= j2 < rq1.len() && j1 != j2 implies rq1[j1]
                            != rq1[j2] by {
                            let o1 = if j1 < i { j1 } else { j1 + 1 };
                            let o2 = if j2 < i { j2 } else { j2 + 1 };
                            assert(rq1[j1] == rq0[o1] && rq1[j2] == rq0[o2]);
                        }
                    }
                    assert(post.c_running_current()) by {
                        assert forall|u: usize|
                            u < post.task_count() && (#[trigger] post.task(
                                u as int,
                            )).task_status is Running implies post.current == Some(u) by {
                            assert(u != t);
                            assert(pre.task(u as int).task_status is Running);
                        }
                    }
                    assert(post.c_queue_entries()) by {
                        assert forall|s: int, j: int|
                            0 <= s < post.wait_queues@.len() && 0 <= j
                                < post.wait_queues@[s]@.len() implies (
                        #[trigger] post.wait_queues@[s]@[j]) < post.task_count() && post.task(
                            post.wait_queues@[s]@[j] as int,
                        ).blocked_on@ == Some(WaitSite::Queue(s as usize)) by {
                            let w = pre.wait_queues@[s]@[j];
                            assert(pre.task(w as int).blocked_on@ == Some(
                                WaitSite::Queue(s as usize),
                            ));
                            assert(w != t);
                        }
                    }
                    assert(post.c_blocked()) by {
                        assert forall|u: usize|
                            u < post.task_count() && (#[trigger] post.task(
                                u as int,
                            )).blocked_on@ is Some implies {
                            &&& post.task(u as int).task_status is Blocked
                            &&& post.task(u as int).exit_code is None
                            &&& match post.task(u as int).blocked_on@->Some_0 {
                                WaitSite::Queue(sq) => post.in_queue(sq as int, u),
                                WaitSite::Timer => post.in_timers(u),
                            }
                        } by {
                            assert(u != t);
                            assert(pre.task(u as int).blocked_on@ is Some);
                            match pre.task(u as int).blocked_on@->Some_0 {
                                WaitSite::Queue(sq) => {
                                    assert(pre.in_queue(sq as int, u));
                                },
                                WaitSite::Timer => {
                                    assert(pre.in_timers(u));
                                },
                            }
                        }
                    }
                    assert(post.c_timer_entries()) by {
                        assert forall|j: int|
                            0 <= j < post.timers@.len() implies (#[trigger] post.timers@[j]).task
                            < post.task_count() && post.task(
                            post.timers@[j].task as int,
                        ).blocked_on@ == Some(WaitSite::Timer) by {
                            let w = pre.timers@[j].task;
                            assert(pre.task(w as int).blocked_on@ == Some(WaitSite::Timer));
                            assert(w != t);
                        }
                    }
                    assert(post.c_exited()) by {
                        assert forall|u: usize|
                            u < post.task_count() && (#[trigger] post.task(
                                u as int,
                            )).exit_code is Some implies post.task(u as int).task_status
                            is Blocked && post.task(u as int).blocked_on@ is None by {
                            if u != t {
                                assert(pre.task(u as int).exit_code is Some);
                            }
                        }
                    }
                }
                return ;
            }
            i = i + 1;
        }
        proof {
            assert(!old(self).in_ready(t));
        }
        let m = self.wait_queues.len();
        let mut s: usize = 0;
        while s < m
            invariant
                *self == *old(self),
                old(self).sched_wf(),
                t < old(self).task_count(),
                old(self).current != Some(t),
                m == self.wait_queues@.len(),
                s <= m,
                !old(self).in_ready(t),
                forall|s2: int| 0 <= s2 < s ==> !old(self).wait_queues@[s2]@.contains(t),
            decreases m - s,
        {
            let qn = self.wait_queues[s].len();
            let mut i2: usize = 0;
            while i2 < qn
                invariant
                    *self == *old(self),
                    old(self).sched_wf(),
                    t < old(self).task_count(),
                    old(self).current != Some(t),
                    s < m,
                    m == self.wait_queues@.len(),
                    qn == self.wait_queues@[s as int]@.len(),
                    i2 <= qn,
                    !old(self).in_ready(t),
                    forall|s2: int| 0 <= s2 < s ==> !old(self).wait_queues@[s2]@.contains(t),
                    forall|j: int| 0 <= j < i2 ==> self.wait_queues@[s as int]@[j] != t,
                decreases qn - i2,
            {
                if self.wait_queues[s][i2] == t {
                    proof {
                        reveal(Kernel::c_queue_entries);
                        assert(old(self).in_queue(s as int, t));
                        assert(old(self).task(t as int).blocked_on@ == Some(
                            WaitSite::Queue(s),
                        ));
                        old(self).lemma_task_single_location(t);
                    }
                    self.wait_queues[s].remove(i2);
                    self.tasks[t].blocked_on = Ghost(None);
                    proof {
                        let pre = *old(self);
                        let post = *self;
                        reveal(Kernel::c_ready_entries);
                        reveal(Kernel::c_ready_complete);
                        reveal(Kernel::c_ready_nodup);
                        reveal(Kernel::c_current);
                        reveal(Kernel::c_running_current);
                        reveal(Kernel::c_queue_entries);
                        reveal(Kernel::c_queue_nodup);
                        reveal(Kernel::c_blocked);
                        reveal(Kernel::c_timer_entries);
                        reveal(Kernel::c_timer_nodup);
                        reveal(Kernel::c_timer_sorted);
                        reveal(Kernel::c_exited);
                        assert(pre.task(t as int).task_status is Blocked);
                        assert(pre.task(t as int).exit_code is None);
                        assert(post.tasks@ =~= pre.tasks@.update(t as int, post.task(t as int)));
                        assert(post.wait_queues@ =~= pre.wait_queues@.update(
                            s as int,
                            post.wait_queues@[s as int],
                        ));
                        let q0 = pre.wait_queues@[s as int]@;
                        let q1 = post.wait_queues@[s as int]@;
                        assert(q1 == q0.remove(i2 as int));
                        assert forall|s2: int, u: usize| u != t implies #[trigger] post.in_queue(
                            s2,
                            u,
                        ) == pre.in_queue(s2, u) by {
                            if s2 == s as int {
                                if pre.in_queue(s2, u) {
                                    let j = choose|j: int| 0 <= j < q0.len() && q0[j] == u;
                                    assert(j != i2);
                                    if j < i2 {
                                        assert(q1[j] == u);
                                    } else {
                                        assert(q1[j - 1] == u);
                                    }
                                }
                                if post.in_queue(s2, u) {
                                    let j = choose|j: int| 0 <= j < q1.len() && q1[j] == u;
                                    if j < i2 {
                                        assert(q0[j] == u);
                                    } else {
                                        assert(q0[j + 1] == u);
                                    }
                                }
                            }
                        }
                        assert forall|s2: int| !post.in_queue(s2, t) by {
                            if 0 <= s2 < post.wait_queues@.len() {
                                if s2 == s as int {
                                    if post.in_queue(s2, t) {
                                        let j = choose|j: int| 0 <= j < q1.len() && q1[j] == t;
                                        let o = if j < i2 {
                                            j
                                        } else {
                                            j + 1
                                        };
                                        assert(q0[o] == t && q0[i2 as int] == t && o != i2);
                                    }
                                } else {
                                    assert(!pre.in_queue(s2, t));
                                }
                            }
                        }
                        assert(post.c_ready_entries()) by {
                            assert forall|j: int|
                                0 <= j < post.ready_queue@.len() implies (
                            #[trigger] post.ready_queue@[j]) < post.task_count() && post.task(
                                post.ready_queue@[j] as int,
                            ).task_status is Ready by {
                                assert(pre.ready_queue@[j] != t);
                            }
                        }
                        assert(post.c_ready_complete()) by {
                            assert forall|u: usize|
                                u < post.task_count() && (#[trigger] post.task(
                                    u as int,
                                )).task_status is Ready implies post.ready_queue@.contains(
                                u,
                            ) by {
                                assert(u != t);
                                assert(pre.task(u as int).task_status is Ready);
                            }
                        }
                        assert(post.c_running_current()) by {
                            assert forall|u: usize|
                                u < post.task_count() && (#[trigger] post.task(
                                    u as int,
                                )).task_status is Running implies post.current == Some(u) by {
                                assert(u != t);
                                assert(pre.task(u as int).task_status is Running);
                            }
                        }
                        assert(post.c_queue_entries()) by {
                            assert forall|s2: int, j: int|
                                0 <= s2 < post.wait_queues@.len() && 0 <= j
                                    < post.wait_queues@[s2]@.len() implies (
                            #[trigger] post.wait_queues@[s2]@[j]) < post.task_count()
                                && post.task(post.wait_queues@[s2]@[j] as int).blocked_on@
                                == Some(WaitSite::Queue(s2 as usize)) by {
                                if s2 == s as int {
                                    let w = q1[j];
                                    let o = if j < i2 {
                                        j
                                    } else {
                                        j + 1
                                    };
                                    assert(w == q0[o]);
                                    assert(w != t);
                                    assert(pre.task(w as int).blocked_on@ == Some(
                                        WaitSite::Queue(s2 as usize),
                                    ));
                                } else {
                                    let w = pre.wait_queues@[s2]@[j];
                                    assert(pre.task(w as int).blocked_on@ == Some(
                                        WaitSite::Queue(s2 as usize),
                                    ));
                                    assert(w != t);
                                }
                            }
                        }
                        assert(post.c_queue_nodup()) by {
                            assert forall|s2: int|
                                0 <= s2 < post.wait_queues@.len() implies (
                            #[trigger] post.wait_queues@[s2]@).no_duplicates() by {
                                if s2 == s as int {
                                    assert forall|j1: int, j2: int|
                                        0 <= j1 < q1.len() && 0 <= j2 < q1.len() && j1
                                            != j2 implies q1[j1] != q1[j2] by {
                                        let o1 = if j1 < i2 {
                                            j1
                                        } else {
                                            j1 + 1
                                        };
                                        let o2 = if j2 < i2 {
                                            j2
                                        } else {
                                            j2 + 1
                                        };
                                        assert(q1[j1] == q0[o1] && q1[j2] == q0[o2]);
                                        assert(q0.no_duplicates());
                                    }
                                } else {
                                    assert(pre.wait_queues@[s2]@.no_duplicates());
                                }
                            }
                        }
                        assert(post.c_blocked()) by {
                            assert forall|u: usize|
                                u < post.task_count() && (#[trigger] post.task(
                                    u as int,
                                )).blocked_on@ is Some implies {
                                &&& post.task(u as int).task_status is Blocked
                                &&& post.task(u as int).exit_code is None
                                &&& match post.task(u as int).blocked_on@->Some_0 {
                                    WaitSite::Queue(sq) => post.in_queue(sq as int, u),
                                    WaitSite::Timer => post.in_timers(u),
                                }
                            } by {
                                assert(u != t);
                                assert(pre.task(u as int).blocked_on@ is Some);
                                match pre.task(u as int).blocked_on@->Some_0 {
                                    WaitSite::Queue(sq) => {
                                        assert(pre.in_queue(sq as int, u));
                                        assert(post.in_queue(sq as int, u));
                                    },
                                    WaitSite::Timer => {
                                        assert(pre.in_timers(u));
                                    },
                                }
                            }
                        }
                        assert(post.c_timer_entries()) by {
                            assert forall|j: int|
                                0 <= j < post.timers@.len() implies (
                            #[trigger] post.timers@[j]).task < post.task_count() && post.task(
                                post.timers@[j].task as int,
                            ).blocked_on@ == Some(WaitSite::Timer) by {
                                let w = pre.timers@[j].task;
                                assert(pre.task(w as int).blocked_on@ == Some(WaitSite::Timer));
                                assert(w != t);
                            }
                        }
                        assert(post.c_exited()) by {
                            assert forall|u: usize|
                                u < post.task_count() && (#[trigger] post.task(
                                    u as int,
                                )).exit_code is Some implies post.task(u as int).task_status
                                is Blocked && post.task(u as int).blocked_on@ is None by {
                                if u != t {
                                    assert(pre.task(u as int).exit_code is Some);
                                }
                            }
                        }
                    }
                    return ;
                }
                i2 = i2 + 1;
            }
            s = s + 1;
        }
        proof {
            assert forall|s2: int| !old(self).in_queue(s2, t) by {
                if 0 <= s2 < old(self).wait_queues@.len() {
                    assert(!old(self).wait_queues@[s2]@.contains(t));
                }
            }
        }
        let tn = self.timers.len();
        let mut i3: usize = 0;
        while i3 < tn
            invariant
                *self == *old(self),
                old(self).sched_wf(),
                t < old(self).task_count(),
                old(self).current != Some(t),
                tn == self.timers@.len(),
                i3 <= tn,
                !old(self).in_ready(t),
                forall|s2: int| !old(self).in_queue(s2, t),
                forall|j: int| 0 <= j < i3 ==> self.timers@[j].task != t,
            decreases tn - i3,
        {
            if self.timers[i3].task == t {
                proof {
                    reveal(Kernel::c_timer_entries);
                    assert(old(self).in_timers(t));
                    assert(old(self).task(t as int).blocked_on@ == Some(WaitSite::Timer));
                    old(self).lemma_task_single_location(t);
                }
                self.timers.remove(i3);
                self.tasks[t].blocked_on = Ghost(None);
                proof {
                    let pre = *old(self);
                    let post = *self;
                    reveal(Kernel::c_ready_entries);
                    reveal(Kernel::c_ready_complete);
                    reveal(Kernel::c_ready_nodup);
                    reveal(Kernel::c_current);
                    reveal(Kernel::c_running_current);
                    reveal(Kernel::c_queue_entries);
                    reveal(Kernel::c_queue_nodup);
                    reveal(Kernel::c_blocked);
                    reveal(Kernel::c_timer_entries);
                    reveal(Kernel::c_timer_nodup);
                    reveal(Kernel::c_timer_sorted);
                    reveal(Kernel::c_exited);
                    assert(pre.task(t as int).task_status is Blocked);
                    assert(pre.task(t as int).exit_code is None);
                    assert(post.tasks@ =~= pre.tasks@.update(t as int, post.task(t as int)));
                    let w0 = pre.timers@;
                    let w1 = post.timers@;
                    assert(w1 == w0.remove(i3 as int));
                    assert forall|u: usize| u != t implies #[trigger] post.in_timers(u)
                        == pre.in_timers(u) by {
                        if pre.in_timers(u) {
                            let j = choose|j: int| 0 <= j < w0.len() && w0[j].task == u;
                            assert(j != i3);
                            if j < i3 {
                                assert(w1[j].task == u);
                            } else {
                                assert(w1[j - 1].task == u);
                            }
                        }
                        if post.in_timers(u) {
                            let j = choose|j: int| 0 <= j < w1.len() && w1[j].task == u;
                            if j < i3 {
                                assert(w0[j].task == u);
                            } else {
                                assert(w0[j + 1].task == u);
                            }
                        }
                    }
                    assert(!post.in_timers(t)) by {
                        if post.in_timers(t) {
                            let j = choose|j: int| 0 <= j < w1.len() && w1[j].task == t;
                            let o = if j < i3 {
                                j
                            } else {
                                j + 1
                            };
                            assert(w0[o].task == t && w0[i3 as int].task == t && o != i3);
                        }
                    }
                    assert(post.c_ready_entries()) by {
                        assert forall|j: int|
                            0 <= j < post.ready_queue@.len() implies (
                        #[trigger] post.ready_queue@[j]) < post.task_count() && post.task(
                            post.ready_queue@[j] as int,
                        ).task_status is Ready by {
                            assert(pre.ready_queue@[j] != t);
                        }
                    }
                    assert(post.c_ready_complete()) by {
                        assert forall|u: usize|
                            u < post.task_count() && (#[trigger] post.task(
                                u as int,
                            )).task_status is Ready implies post.ready_queue@.contains(u) by {
                            assert(u != t);
                            assert(pre.task(u as int).task_status is Ready);
                        }
                    }
                    assert(post.c_running_current()) by {
                        assert forall|u: usize|
                            u < post.task_count() && (#[trigger] post.task(
                                u as int,
                            )).task_status is Running implies post.current == Some(u) by {
                            assert(u != t);
                            assert(pre.task(u as int).task_status is Running);
                        }
                    }
                    assert(post.c_queue_entries()) by {
                        assert forall|s2: int, j: int|
                            0 <= s2 < post.wait_queues@.len() && 0 <= j
                                < post.wait_queues@[s2]@.len() implies (
                        #[trigger] post.wait_queues@[s2]@[j]) < post.task_count() && post.task(
                            post.wait_queues@[s2]@[j] as int,
                        ).blocked_on@ == Some(WaitSite::Queue(s2 as usize)) by {
                            let w = pre.wait_queues@[s2]@[j];
                            assert(pre.task(w as int).blocked_on@ == Some(
                                WaitSite::Queue(s2 as usize),
                            ));
                            assert(w != t);
                        }
                    }
                    assert(post.c_blocked()) by {
                        assert forall|u: usize|
                            u < post.task_count() && (#[trigger] post.task(
                                u as int,
                            )).blocked_on@ is Some implies {
                            &&& post.task(u as int).task_status is Blocked
                            &&& post.task(u as int).exit_code is None
                            &&& match post.task(u as int).blocked_on@->Some_0 {
                                WaitSite::Queue(sq) => post.in_queue(sq as int, u),
                                WaitSite::Timer => post.in_timers(u),
                            }
                        } by {
                            assert(u != t);
                            assert(pre.task(u as int).blocked_on@ is Some);
                            match pre.task(u as int).blocked_on@->Some_0 {
                                WaitSite::Queue(sq) => {
                                    assert(pre.in_queue(sq as int, u));
                                },
                                WaitSite::Timer => {
                                    assert(pre.in_timers(u));
                                    assert(post.in_timers(u));
                                },
                            }
                        }
                    }
                    assert(post.c_timer_entries()) by {
                        assert forall|j: int|
                            0 <= j < w1.len() implies (#[trigger] w1[j]).task
                            < post.task_count() && post.task(w1[j].task as int).blocked_on@
                            == Some(WaitSite::Timer) by {
                            let o = if j < i3 {
                                j
                            } else {
                                j + 1
                            };
                            assert(w1[j] == w0[o]);
                            assert(w0[o].task != t);
                            assert(pre.task(w0[o].task as int).blocked_on@ == Some(
                                WaitSite::Timer,
                            ));
                        }
                    }
                    assert(post.c_timer_nodup()) by {
                        assert forall|j1: int, j2: int|
                            0 <= j1 < w1.len() && 0 <= j2 < w1.len() && j1 != j2 implies (
                        #[trigger] w1[j1]).task != (#[trigger] w1[j2]).task by {
                            let o1 = if j1 < i3 {
                                j1
                            } else {
                                j1 + 1
                            };
                            let o2 = if j2 < i3 {
                                j2
                            } else {
                                j2 + 1
                            };
                            assert(w1[j1] == w0[o1] && w1[j2] == w0[o2]);
                            assert(w0[o1].task != w0[o2].task);
                        }
                    }
                    assert(post.c_timer_sorted()) by {
                        assert forall|j: int|
                            0 <= j && j + 1 < w1.len() implies (#[trigger] w1[j]).expire_ms
                            <= w1[j + 1].expire_ms by {
                            if j + 1 < i3 {
                                assert(w1[j] == w0[j] && w1[j + 1] == w0[j + 1]);
                            } else if j + 1 == i3 {
                                assert(w1[j] == w0[j] && w1[j + 1] == w0[j + 2]);
                                assert(w0[j].expire_ms <= w0[j + 1].expire_ms);
                                assert(w0[j + 1].expire_ms <= w0[j + 2].expire_ms);
                            } else {
                                assert(w1[j] == w0[j + 1] && w1[j + 1] == w0[j + 2]);
                            }
                        }
                    }
                    assert(post.c_exited()) by {
                        assert forall|u: usize|
                            u < post.task_count() && (#[trigger] post.task(
                                u as int,
                            )).exit_code is Some implies post.task(u as int).task_status
                            is Blocked && post.task(u as int).blocked_on@ is None by {
                            if u != t {
                                assert(pre.task(u as int).exit_code is Some);
                            }
                        }
                    }
                }
                return ;
            }
            i3 = i3 + 1;
        }
        proof {
            reveal(Kernel::c_ready_complete);
            reveal(Kernel::c_running_current);
            reveal(Kernel::c_blocked);
            assert(!old(self).in_timers(t)) by {
                if old(self).in_timers(t) {
                    let j = choose|j: int|
                        0 <= j < old(self).timers@.len() && old(self).timers@[j].task == t;
                }
            }
            assert(old(self).task(t as int).task_status is Blocked) by {
                if old(self).task(t as int).task_status is Ready {
                    assert(old(self).in_ready(t));
                }
                if old(self).task(t as int).task_status is Running {
                }
            }
            assert(old(self).task(t as int).blocked_on@ is None) by {
                if old(self).task(t as int).blocked_on@ is Some {
                    match old(self).task(t as int).blocked_on@->Some_0 {
                        WaitSite::Queue(sq) => {
                            assert(old(self).in_queue(sq as int, t));
                        },
                        WaitSite::Timer => {
                            assert(old(self).in_timers(t));
                        },
                    }
                }
            }
            assert(self.tasks@ =~= old(self).tasks@.update(t as int, self.task(t as int)));
        }
    }
}

/// Pushing a new element keeps a queue duplicate-free.
proof fn lemma_push_nodup(q: Seq<usize>, x: usize)
    requires
        q.no_duplicates(),
        !q.contains(x),
    ensures
        q.push(x).no_duplicates(),
{
    assert forall|i: int, j: int|
        0 <= i < q.push(x).len() && 0 <= j < q.push(x).len() && i != j implies q.push(x)[i]
        != q.push(x)[j] by {
        if i < q.len() && j < q.len() {
        } else if i < q.len() {
            assert(q.push(x)[i] == q[i] && q.push(x)[j] == x);
            if q[i] == x {
                assert(q.contains(x));
            }
        } else if j < q.len() {
            assert(q.push(x)[j] == q[j] && q.push(x)[i] == x);
            if q[j] == x {
                assert(q.contains(x));
            }
        }
    }
}

/// Dropping the front keeps a queue duplicate-free.
proof fn lemma_drop_first_nodup(q: Seq<usize>)
    requires
        q.no_duplicates(),
        q.len() > 0,
    ensures
        q.drop_first().no_duplicates(),
{
    assert forall|i: int, j: int|
        0 <= i < q.drop_first().len() && 0 <= j < q.drop_first().len() && i != j implies q.drop_first()[i]
        != q.drop_first()[j] by {
        assert(q.drop_first()[i] == q[i + 1] && q.drop_first()[j] == q[j + 1]);
    }
}

/// The invariant survives appending a limbo task record.
proof fn lemma_sched_wf_after_spawn(pre: Kernel, post: Kernel, inner: TaskControlBlockInner)
    requires
        pre.sched_wf(),
        inner.task_status is Blocked,
        inner.blocked_on@ is None,
        inner.exit_code is None,
        post.tasks@ == pre.tasks@.push(inner),
        post.ready_queue == pre.ready_queue,
        post.current == pre.current,
        post.wait_queues == pre.wait_queues,
        post.timers == pre.timers,
    ensures
        post.sched_wf(),
{
        reveal(Kernel::c_ready_entries);
        reveal(Kernel::c_ready_complete);
        reveal(Kernel::c_ready_nodup);
        reveal(Kernel::c_current);
        reveal(Kernel::c_running_current);
        reveal(Kernel::c_queue_entries);
        reveal(Kernel::c_queue_nodup);
        reveal(Kernel::c_blocked);
        reveal(Kernel::c_timer_entries);
        reveal(Kernel::c_timer_nodup);
        reveal(Kernel::c_timer_sorted);
        reveal(Kernel::c_exited);
    let n = pre.task_count();
    assert(forall|t: int| 0 <= t < n ==> post.task(t) == pre.task(t));
    assert forall|i: int|
        0 <= i < post.ready_queue@.len() implies (#[trigger] post.ready_queue@[i])
        < post.task_count() && post.task(post.ready_queue@[i] as int).task_status is Ready by {
        assert(pre.ready_queue@[i] < n);
    }
    assert forall|t2: usize|
        t2 < post.task_count() && (#[trigger] post.task(t2 as int)).task_status
        is Ready implies post.ready_queue@.contains(t2) by {
        assert(t2 < n);
    }
    assert forall|t2: usize|
        t2 < post.task_count() && (#[trigger] post.task(t2 as int)).task_status
        is Running implies post.current == Some(t2) by {
        if t2 < n {
            assert(pre.task(t2 as int).task_status is Running);
        }
    }
    assert forall|s: int, i: int|
        0 <= s < post.wait_queues@.len() && 0 <= i < post.wait_queues@[s]@.len() implies (
    #[trigger] post.wait_queues@[s]@[i]) < post.task_count() && post.task(
        post.wait_queues@[s]@[i] as int,
    ).blocked_on@ == Some(WaitSite::Queue(s as usize)) by {
        assert(pre.wait_queues@[s]@[i] < n);
    }
    assert forall|t2: usize|
        t2 < post.task_count() && (#[trigger] post.task(t2 as int)).blocked_on@
        is Some implies {
        &&& post.task(t2 as int).task_status is Blocked
        &&& post.task(t2 as int).exit_code is None
        &&& match post.task(t2 as int).blocked_on@->Some_0 {
            WaitSite::Queue(sq) => post.in_queue(sq as int, t2),
            WaitSite::Timer => post.in_timers(t2),
        }
    } by {
        assert(t2 < n);
        match pre.task(t2 as int).blocked_on@->Some_0 {
            WaitSite::Queue(sq) => {
                assert(pre.in_queue(sq as int, t2));
            },
            WaitSite::Timer => {
                assert(pre.in_timers(t2));
                let i = choose|i: int|
                    0 <= i < pre.timers@.len() && pre.timers@[i].task == t2;
                assert(post.timers@[i].task == t2);
            },
        }
    }
    assert forall|i: int|
        0 <= i < post.timers@.len() implies (#[trigger] post.timers@[i]).task
        < post.task_count() && post.task(post.timers@[i].task as int).blocked_on@ == Some(
        WaitSite::Timer,
    ) by {
        assert(pre.timers@[i].task < n);
    }
    assert forall|t2: usize|
        t2 < post.task_count() && (#[trigger] post.task(t2 as int)).exit_code
        is Some implies post.task(t2 as int).task_status is Blocked && post.task(
        t2 as int,
    ).blocked_on@ is None by {
        if t2 < n {
        }
    }
}

/// The invariant survives a change of one task record, as long as
/// that task starts and ends outside every wait structure and the
/// queues, timers and everything but the ready queue and the running
/// slot stay put.
proof fn lemma_sched_wf_frame(pre: Kernel, post: Kernel, t: usize)
    requires
        pre.c_queue_entries(),
        pre.c_queue_nodup(),
        pre.c_blocked(),
        pre.c_timer_entries(),
        pre.c_timer_nodup(),
        pre.c_timer_sorted(),
        pre.c_exited(),
        t < pre.task_count(),
        pre.task(t as int).blocked_on@ is None,
        post.task(t as int).blocked_on@ is None,
        post.task(t as int).exit_code is None,
        post.tasks@ == pre.tasks@.update(t as int, post.task(t as int)),
        post.wait_queues == pre.wait_queues,
        post.timers == pre.timers,
    ensures
        post.c_queue_entries(),
        post.c_queue_nodup(),
        post.c_blocked(),
        post.c_timer_entries(),
        post.c_timer_nodup(),
        post.c_timer_sorted(),
        post.c_exited(),
{
        reveal(Kernel::c_ready_entries);
        reveal(Kernel::c_ready_complete);
        reveal(Kernel::c_ready_nodup);
        reveal(Kernel::c_current);
        reveal(Kernel::c_running_current);
        reveal(Kernel::c_queue_entries);
        reveal(Kernel::c_queue_nodup);
        reveal(Kernel::c_blocked);
        reveal(Kernel::c_timer_entries);
        reveal(Kernel::c_timer_nodup);
        reveal(Kernel::c_timer_sorted);
        reveal(Kernel::c_exited);
    assert forall|s: int, i: int|
        0 <= s < post.wait_queues@.len() && 0 <= i < post.wait_queues@[s]@.len() implies (
    #[trigger] post.wait_queues@[s]@[i]) < post.task_count() && post.task(
        post.wait_queues@[s]@[i] as int,
    ).blocked_on@ == Some(WaitSite::Queue(s as usize)) by {
        let w = pre.wait_queues@[s]@[i];
        assert(w < pre.task_count() && pre.task(w as int).blocked_on@ == Some(
            WaitSite::Queue(s as usize),
        ));
        assert(w != t);
        assert(post.task(w as int) == pre.task(w as int));
    }
    assert forall|t2: usize|
        t2 < post.task_count() && (#[trigger] post.task(t2 as int)).blocked_on@
        is Some implies {
        &&& post.task(t2 as int).task_status is Blocked
        &&& post.task(t2 as int).exit_code is None
        &&& match post.task(t2 as int).blocked_on@->Some_0 {
            WaitSite::Queue(s) => post.in_queue(s as int, t2),
            WaitSite::Timer => post.in_timers(t2),
        }
    } by {
        assert(t2 != t);
        assert(post.task(t2 as int) == pre.task(t2 as int));
        match pre.task(t2 as int).blocked_on@->Some_0 {
            WaitSite::Queue(sq) => {
                assert(pre.in_queue(sq as int, t2));
            },
            WaitSite::Timer => {
                assert(pre.in_timers(t2));
                let i = choose|i: int|
                    0 <= i < pre.timers@.len() && pre.timers@[i].task == t2;
                assert(post.timers@[i].task == t2);
            },
        }
    }
    assert forall|i: int|
        0 <= i < post.timers@.len() implies (#[trigger] post.timers@[i]).task
        < post.task_count() && post.task(post.timers@[i].task as int).blocked_on@ == Some(
        WaitSite::Timer,
    ) by {
        let w = pre.timers@[i].task;
        assert(w < pre.task_count() && pre.task(w as int).blocked_on@ == Some(WaitSite::Timer));
        assert(w != t);
        assert(post.task(w as int) == pre.task(w as int));
    }
    assert forall|t2: usize|
        t2 < post.task_count() && (#[trigger] post.task(t2 as int)).exit_code
        is Some implies post.task(t2 as int).task_status is Blocked && post.task(
        t2 as int,
    ).blocked_on@ is None by {
        assert(t2 != t);
        assert(post.task(t2 as int) == pre.task(t2 as int));
    }
}

/// Ready-queue clauses survive pushing a task that was not in the
/// queue and is now `Ready`.
proof fn lemma_requeue_ready_clauses(pre: Kernel, post: Kernel, t: usize)
    requires
        pre.c_ready_entries(),
        pre.c_ready_complete(),
        pre.c_ready_nodup(),
        t < pre.task_count(),
        !(pre.task(t as int).task_status is Ready),
        post.tasks@ == pre.tasks@.update(t as int, post.task(t as int)),
        post.task(t as int).task_status is Ready,
        post.ready_queue@ == pre.ready_queue@.push(t),
    ensures
        post.c_ready_entries(),
        post.c_ready_complete(),
        post.c_ready_nodup(),
{
        reveal(Kernel::c_ready_entries);
        reveal(Kernel::c_ready_complete);
        reveal(Kernel::c_ready_nodup);
        reveal(Kernel::c_current);
        reveal(Kernel::c_running_current);
        reveal(Kernel::c_queue_entries);
        reveal(Kernel::c_queue_nodup);
        reveal(Kernel::c_blocked);
        reveal(Kernel::c_timer_entries);
        reveal(Kernel::c_timer_nodup);
        reveal(Kernel::c_timer_sorted);
        reveal(Kernel::c_exited);
    assert(!pre.in_ready(t)) by {
        if pre.in_ready(t) {
            let i = choose|i: int|
                0 <= i < pre.ready_queue@.len() && pre.ready_queue@[i] == t;
        }
    }
    lemma_push_nodup(pre.ready_queue@, t);
    assert forall|i: int|
        0 <= i < post.ready_queue@.len() implies (#[trigger] post.ready_queue@[i])
        < post.task_count() && post.task(post.ready_queue@[i] as int).task_status is Ready by {
        if i < pre.ready_queue@.len() {
            assert(post.ready_queue@[i] == pre.ready_queue@[i]);
            assert(pre.ready_queue@[i] != t);
        } else {
            assert(post.ready_queue@[i] == t);
        }
    }
    assert forall|t2: usize|
        t2 < post.task_count() && (#[trigger] post.task(t2 as int)).task_status
        is Ready implies post.ready_queue@.contains(t2) by {
        if t2 != t {
            assert(pre.task(t2 as int).task_status is Ready);
            assert(pre.ready_queue@.contains(t2));
            let i = choose|i: int|
                0 <= i < pre.ready_queue@.len() && pre.ready_queue@[i] == t2;
            assert(post.ready_queue@[i] == t2);
        } else {
            assert(post.ready_queue@[post.ready_queue@.len() - 1] == t);
        }
    }
}

/// Running-slot clauses survive a task change that leaves `Running`
/// status and the slot alone.
proof fn lemma_current_clauses_unchanged(pre: Kernel, post: Kernel, t: usize)
    requires
        pre.c_current(),
        pre.c_running_current(),
        t < pre.task_count(),
        post.tasks@ == pre.tasks@.update(t as int, post.task(t as int)),
        !(pre.task(t as int).task_status is Running),
        !(post.task(t as int).task_status is Running),
        post.current == pre.current,
    ensures
        post.c_current(),
        post.c_running_current(),
{
        reveal(Kernel::c_ready_entries);
        reveal(Kernel::c_ready_complete);
        reveal(Kernel::c_ready_nodup);
        reveal(Kernel::c_current);
        reveal(Kernel::c_running_current);
        reveal(Kernel::c_queue_entries);
        reveal(Kernel::c_queue_nodup);
        reveal(Kernel::c_blocked);
        reveal(Kernel::c_timer_entries);
        reveal(Kernel::c_timer_nodup);
        reveal(Kernel::c_timer_sorted);
        reveal(Kernel::c_exited);
    assert forall|t2: usize|
        t2 < post.task_count() && (#[trigger] post.task(t2 as int)).task_status
        is Running implies post.current == Some(t2) by {
        assert(t2 != t);
        assert(pre.task(t2 as int).task_status is Running);
    }
    if post.current is Some {
        let c = post.current->Some_0;
        assert(pre.task(c as int).task_status is Running);
        assert(c != t);
    }
}

/// The invariant survives moving a limbo task to the back of the
/// ready queue.
proof fn lemma_sched_wf_after_requeue(pre: Kernel, post: Kernel, t: usize)
    requires
        pre.sched_wf(),
        t < pre.task_count(),
        pre.task(t as int).task_status is Blocked,
        pre.task(t as int).blocked_on@ is None,
        pre.task(t as int).exit_code is None,
        post.tasks@ == pre.tasks@.update(t as int, post.task(t as int)),
        post.task(t as int).task_status is Ready,
        post.task(t as int).blocked_on@ is None,
        post.task(t as int).exit_code is None,
        post.ready_queue@ == pre.ready_queue@.push(t),
        post.current == pre.current,
        post.wait_queues == pre.wait_queues,
        post.timers == pre.timers,
    ensures
        post.sched_wf(),
{
        reveal(Kernel::c_ready_entries);
        reveal(Kernel::c_ready_complete);
        reveal(Kernel::c_ready_nodup);
        reveal(Kernel::c_current);
        reveal(Kernel::c_running_current);
        reveal(Kernel::c_queue_entries);
        reveal(Kernel::c_queue_nodup);
        reveal(Kernel::c_blocked);
        reveal(Kernel::c_timer_entries);
        reveal(Kernel::c_timer_nodup);
        reveal(Kernel::c_timer_sorted);
        reveal(Kernel::c_exited);
    lemma_sched_wf_frame(pre, post, t);
    lemma_requeue_ready_clauses(pre, post, t);
    lemma_current_clauses_unchanged(pre, post, t);
}

/// Ready-queue clauses survive removing the front, which becomes
/// `Running`.
proof fn lemma_dispatch_ready_clauses(pre: Kernel, post: Kernel, t: usize)
    requires
        pre.c_ready_entries(),
        pre.c_ready_complete(),
        pre.c_ready_nodup(),
        pre.ready_queue@.len() > 0,
        t == pre.ready_queue@[0],
        post.tasks@ == pre.tasks@.update(t as int, post.task(t as int)),
        post.task(t as int).task_status is Running,
        post.ready_queue@ == pre.ready_queue@.drop_first(),
    ensures
        post.c_ready_entries(),
        post.c_ready_complete(),
        post.c_ready_nodup(),
{
        reveal(Kernel::c_ready_entries);
        reveal(Kernel::c_ready_complete);
        reveal(Kernel::c_ready_nodup);
        reveal(Kernel::c_current);
        reveal(Kernel::c_running_current);
        reveal(Kernel::c_queue_entries);
        reveal(Kernel::c_queue_nodup);
        reveal(Kernel::c_blocked);
        reveal(Kernel::c_timer_entries);
        reveal(Kernel::c_timer_nodup);
        reveal(Kernel::c_timer_sorted);
        reveal(Kernel::c_exited);
    assert(t < pre.task_count());
    lemma_drop_first_nodup(pre.ready_queue@);
    assert forall|i: int|
        0 <= i < post.ready_queue@.len() implies (#[trigger] post.ready_queue@[i])
        < post.task_count() && post.task(post.ready_queue@[i] as int).task_status is Ready by {
        assert(post.ready_queue@[i] == pre.ready_queue@[i + 1]);
        assert(pre.ready_queue@[i + 1] != t) by {
            if pre.ready_queue@[i + 1] == t {
                assert(pre.ready_queue@[0] == pre.ready_queue@[i + 1]);
            }
        }
    }
    assert forall|t2: usize|
        t2 < post.task_count() && (#[trigger] post.task(t2 as int)).task_status
        is Ready implies post.ready_queue@.contains(t2) by {
        assert(t2 != t);
        assert(pre.task(t2 as int).task_status is Ready);
        assert(pre.ready_queue@.contains(t2));
        let i = choose|i: int|
            0 <= i < pre.ready_queue@.len() && pre.ready_queue@[i] == t2;
        assert(i != 0);
        assert(post.ready_queue@[i - 1] == t2);
    }
}

/// Running-slot clauses hold after the dispatched task takes the
/// processor.
proof fn lemma_dispatch_current_clauses(pre: Kernel, post: Kernel, t: usize)
    requires
        pre.c_current(),
        pre.c_running_current(),
        pre.current is None,
        t < pre.task_count(),
        post.tasks@ == pre.tasks@.update(t as int, post.task(t as int)),
        post.task(t as int).task_status is Running,
        post.current == Some(t),
    ensures
        post.c_current(),
        post.c_running_current(),
{
        reveal(Kernel::c_ready_entries);
        reveal(Kernel::c_ready_complete);
        reveal(Kernel::c_ready_nodup);
        reveal(Kernel::c_current);
        reveal(Kernel::c_running_current);
        reveal(Kernel::c_queue_entries);
        reveal(Kernel::c_queue_nodup);
        reveal(Kernel::c_blocked);
        reveal(Kernel::c_timer_entries);
        reveal(Kernel::c_timer_nodup);
        reveal(Kernel::c_timer_sorted);
        reveal(Kernel::c_exited);
    assert forall|t2: usize|
        t2 < post.task_count() && (#[trigger] post.task(t2 as int)).task_status
        is Running implies post.current == Some(t2) by {
        if t2 != t {
            assert(pre.task(t2 as int).task_status is Running);
        }
    }
}

/// The invariant survives dispatching the front of the ready queue.
proof fn lemma_sched_wf_after_dispatch(pre: Kernel, post: Kernel, t: usize)
    requires
        pre.sched_wf(),
        pre.current is None,
        pre.ready_queue@.len() > 0,
        t == pre.ready_queue@[0],
        post.tasks@ == pre.tasks@.update(t as int, post.task(t as int)),
        post.task(t as int).task_status is Running,
        post.task(t as int).blocked_on@ is None,
        post.task(t as int).exit_code is None,
        post.ready_queue@ == pre.ready_queue@.drop_first(),
        post.current == Some(t),
        post.wait_queues == pre.wait_queues,
        post.timers == pre.timers,
    ensures
        post.sched_wf(),
{
        reveal(Kernel::c_ready_entries);
        reveal(Kernel::c_ready_complete);
        reveal(Kernel::c_ready_nodup);
        reveal(Kernel::c_current);
        reveal(Kernel::c_running_current);
        reveal(Kernel::c_queue_entries);
        reveal(Kernel::c_queue_nodup);
        reveal(Kernel::c_blocked);
        reveal(Kernel::c_timer_entries);
        reveal(Kernel::c_timer_nodup);
        reveal(Kernel::c_timer_sorted);
        reveal(Kernel::c_exited);
    assert(t < pre.task_count() && pre.task(t as int).task_status is Ready);
    assert(pre.task(t as int).blocked_on@ is None) by {
        if pre.task(t as int).blocked_on@ is Some {
        }
    }
    lemma_sched_wf_frame(pre, post, t);
    lemma_dispatch_ready_clauses(pre, post, t);
    lemma_dispatch_current_clauses(pre, post, t);
}

impl Kernel {
    /// Take the running task off the processor, leaving it in limbo.
    #[verifier::rlimit(100)]
    #[verifier::spinoff_prover]
    pub(crate) fn park_current(&mut self) -> (c: usize)
        requires
            old(self).sched_wf(),
            old(self).current is Some,
        ensures
            final(self).sched_wf(),
            c == old(self).current->Some_0,
            c < old(self).task_count(),
            final(self).task_count() == old(self).task_count(),
            final(self).current is None,
            final(self).tasks@ == old(self).tasks@.update(c as int, final(self).task(c as int)),
            final(self).task(c as int).task_status is Blocked,
            final(self).task(c as int).blocked_on@ is None,
            final(self).task(c as int).exit_code is None,
            final(self).task(c as int).res == old(self).task(c as int).res,
            final(self).task(c as int).task_cx == old(self).task(c as int).task_cx,
            final(self).task(c as int).trap_cx == old(self).task(c as int).trap_cx,
            final(self).task(c as int).pid == old(self).task(c as int).pid,
            final(self).task(c as int).kstack_id == old(self).task(c as int).kstack_id,
            final(self).task(c as int).trap_cx_ppn == old(self).task(c as int).trap_cx_ppn,
            final(self).ready_queue == old(self).ready_queue,
            final(self).wait_queues == old(self).wait_queues,
            final(self).timers == old(self).timers,
            final(self).processes == old(self).processes,
            final(self).pipes == old(self).pipes,
            final(self).time_ms == old(self).time_ms,
            final(self).frame_allocator == old(self).frame_allocator,
            final(self).initproc_pid == old(self).initproc_pid,
            final(self).strampoline == old(self).strampoline,
            final(self).pid_allocator == old(self).pid_allocator,
            final(self).kstack_allocator == old(self).kstack_allocator,
            final(self).kernel_space == old(self).kernel_space,
    {
        let c = match self.current {
            Some(c) => c,
            None => 0,
        };
        proof {
            reveal(Kernel::c_current);
            reveal(Kernel::c_ready_entries);
            reveal(Kernel::c_ready_complete);
            reveal(Kernel::c_ready_nodup);
            reveal(Kernel::c_current);
            reveal(Kernel::c_running_current);
            reveal(Kernel::c_queue_entries);
            reveal(Kernel::c_queue_nodup);
            reveal(Kernel::c_blocked);
            reveal(Kernel::c_timer_entries);
            reveal(Kernel::c_timer_nodup);
            reveal(Kernel::c_timer_sorted);
            reveal(Kernel::c_exited);
            assert(old(self).task(c as int).blocked_on@ is None) by {
                if old(self).task(c as int).blocked_on@ is Some {
                }
            }
            assert(old(self).task(c as int).exit_code is None) by {
                if old(self).task(c as int).exit_code is Some {
                }
            }
        }
        self.tasks[c].task_status = TaskStatus::Blocked;
        self.current = None;
        proof {
            reveal(Kernel::c_ready_entries);
            reveal(Kernel::c_ready_complete);
            reveal(Kernel::c_ready_nodup);
            reveal(Kernel::c_current);
            reveal(Kernel::c_running_current);
            reveal(Kernel::c_queue_entries);
            reveal(Kernel::c_queue_nodup);
            reveal(Kernel::c_blocked);
            reveal(Kernel::c_timer_entries);
            reveal(Kernel::c_timer_nodup);
            reveal(Kernel::c_timer_sorted);
            reveal(Kernel::c_exited);
            lemma_sched_wf_frame(*old(self), *self, c);
            assert(self.c_ready_entries()) by {
                assert forall|i: int|
                    0 <= i < self.ready_queue@.len() implies (#[trigger] self.ready_queue@[i])
                    < self.task_count() && self.task(self.ready_queue@[i] as int).task_status
                    is Ready by {
                    assert(old(self).ready_queue@[i] != c);
                }
            }
            assert(self.c_ready_complete()) by {
                assert forall|t2: usize|
                    t2 < self.task_count() && (#[trigger] self.task(t2 as int)).task_status
                    is Ready implies self.ready_queue@.contains(t2) by {
                    assert(t2 != c);
                    assert(old(self).task(t2 as int).task_status is Ready);
                }
            }
            assert(self.c_running_current()) by {
                assert forall|t2: usize|
                    t2 < self.task_count() && (#[trigger] self.task(t2 as int)).task_status
                    is Running implies self.current == Some(t2) by {
                    assert(t2 != c);
                    assert(old(self).task(t2 as int).task_status is Running);
                }
            }
        }
        c
    }

    /// Yield the processor: the running task goes to the back of the
    /// ready queue and the front of the queue runs next.
    #[verifier::rlimit(100)]
    #[verifier::spinoff_prover]
    pub fn suspend_current_and_run_next(&mut self)
        requires
            old(self).sched_wf(),
            old(self).current is Some,
        ensures
            final(self).sched_wf(),
            final(self).task_count() == old(self).task_count(),
            final(self).ready_queue@ == old(self).ready_queue@.push(
                old(self).current->Some_0,
            ).drop_first(),
            final(self).current == Some(
                old(self).ready_queue@.push(old(self).current->Some_0)[0],
            ),
            final(self).wait_queues == old(self).wait_queues,
            final(self).timers == old(self).timers,
            final(self).processes == old(self).processes,
            final(self).pipes == old(self).pipes,
            final(self).time_ms == old(self).time_ms,
            forall|t2: int|
                0 <= t2 < old(self).task_count() && t2 != old(self).current->Some_0 && t2 != old(
                    self,
                ).ready_queue@.push(old(self).current->Some_0)[0] ==> final(self).task(t2) == old(
                    self,
                ).task(t2),
            forall|t2: int|
                0 <= t2 < old(self).task_count() ==> (#[trigger] final(self).task(t2)).trap_cx
                    == old(self).task(t2).trap_cx && final(self).task(t2).res == old(self).task(
                    t2,
                ).res,
    {
        let c = self.park_current();
        let ghost mid = *self;
        self.add_task(c);
        let ghost mid2 = *self;
        self.fetch_next();
        proof {
            let c0 = old(self).current->Some_0;
            let n0 = old(self).ready_queue@.push(c0)[0];
            assert(mid.ready_queue@ == old(self).ready_queue@);
            assert(mid2.ready_queue@ == old(self).ready_queue@.push(c));
            assert(mid2.ready_queue@.len() > 0);
            assert(mid2.ready_queue@[0] == n0);
            assert(n0 < old(self).task_count());
            assert(self.tasks@ == mid2.tasks@.update(n0 as int, self.task(n0 as int)));
            assert(mid.tasks@.len() == old(self).tasks@.len());
            assert(mid2.tasks@.len() == old(self).tasks@.len());
            assert(self.tasks@.len() == old(self).tasks@.len());
            assert forall|t2: int|
                0 <= t2 < old(self).task_count() && t2 != c0 && t2 != n0 implies self.task(t2)
                == old(self).task(t2) by {
                assert(mid.tasks@[t2] == old(self).tasks@[t2]);
                assert(mid2.tasks@[t2] == mid.tasks@[t2]);
                assert(t2 != n0 as int);
                assert(self.tasks@[t2] == mid2.tasks@.update(
                    n0 as int,
                    self.task(n0 as int),
                )[t2]);
                assert(mid2.tasks@.update(n0 as int, self.task(n0 as int))[t2]
                    == mid2.tasks@[t2]);
            }
            assert forall|t2: int|
                0 <= t2 < old(self).task_count() implies (#[trigger] self.task(t2)).trap_cx
                == old(self).task(t2).trap_cx && self.task(t2).res == old(self).task(t2).res by {
                if t2 == c0 {
                    assert(mid.task(t2).trap_cx == old(self).task(t2).trap_cx);
                    assert(mid2.task(t2).trap_cx == mid.task(t2).trap_cx);
                    if t2 != n0 {
                        assert(self.tasks@[t2] == mid2.tasks@[t2]);
                    }
                } else if t2 == n0 {
                    assert(mid.tasks@[t2] == old(self).tasks@[t2]);
                    assert(mid2.tasks@[t2] == mid.tasks@[t2]);
                }
            }
        }
    }

    /// Put a limbo task at the back of a wait queue.
    #[verifier::rlimit(100)]
    #[verifier::spinoff_prover]
    fn enqueue_blocked(&mut self, t: usize, sid: usize)
        requires
            old(self).sched_wf(),
            t < old(self).task_count(),
            sid < old(self).wait_queues@.len(),
            old(self).task(t as int).task_status is Blocked,
            old(self).task(t as int).blocked_on@ is None,
            old(self).task(t as int).exit_code is None,
        ensures
            final(self).sched_wf(),
            final(self).task_count() == old(self).task_count(),
            final(self).wait_queues@ == old(self).wait_queues@.update(
                sid as int,
                final(self).wait_queues@[sid as int],
            ),
            final(self).wait_queues@[sid as int]@ == old(self).wait_queues@[sid as int]@.push(t),
            final(self).tasks@ == old(self).tasks@.update(t as int, final(self).task(t as int)),
            final(self).task(t as int).task_status is Blocked,
            final(self).task(t as int).blocked_on@ == Some(WaitSite::Queue(sid)),
            final(self).task(t as int).res == old(self).task(t as int).res,
            final(self).task(t as int).task_cx == old(self).task(t as int).task_cx,
            final(self).task(t as int).trap_cx == old(self).task(t as int).trap_cx,
            final(self).task(t as int).exit_code == old(self).task(t as int).exit_code,
            final(self).ready_queue == old(self).ready_queue,
            final(self).current == old(self).current,
            final(self).timers == old(self).timers,
            final(self).processes == old(self).processes,
            final(self).pipes == old(self).pipes,
            final(self).time_ms == old(self).time_ms,
    {
        proof {
            reveal(Kernel::c_ready_entries);
            reveal(Kernel::c_ready_complete);
            reveal(Kernel::c_ready_nodup);
            reveal(Kernel::c_current);
            reveal(Kernel::c_running_current);
            reveal(Kernel::c_queue_entries);
            reveal(Kernel::c_queue_nodup);
            reveal(Kernel::c_blocked);
            reveal(Kernel::c_timer_entries);
            reveal(Kernel::c_timer_nodup);
            reveal(Kernel::c_timer_sorted);
            reveal(Kernel::c_exited);
            assert(!old(self).in_queue(sid as int, t)) by {
                if old(self).in_queue(sid as int, t) {
                    let j = choose|j: int|
                        0 <= j < old(self).wait_queues@[sid as int]@.len() && old(
                            self,
                        ).wait_queues@[sid as int]@[j] == t;
                }
            }
        }
        self.wait_queues[sid].push(t);
        self.tasks[t].blocked_on = Ghost(Some(WaitSite::Queue(sid)));
        proof {
            lemma_sched_wf_after_enqueue_blocked(*old(self), *self, t, sid);
        }
    }

    /// Block the running task on a wait queue, at the back.
    #[verifier::rlimit(100)]
    #[verifier::spinoff_prover]
    pub fn block_current_task(&mut self, sid: usize) -> (c: usize)
        requires
            old(self).sched_wf(),
            old(self).current is Some,
            sid < old(self).wait_queues@.len(),
        ensures
            final(self).sched_wf(),
            c == old(self).current->Some_0,
            c < old(self).task_count(),
            final(self).task_count() == old(self).task_count(),
            final(self).current is None,
            final(self).wait_queues@ == old(self).wait_queues@.update(
                sid as int,
                final(self).wait_queues@[sid as int],
            ),
            final(self).wait_queues@[sid as int]@ == old(self).wait_queues@[sid as int]@.push(c),
            final(self).task(c as int).task_status is Blocked,
            final(self).task(c as int).blocked_on@ == Some(WaitSite::Queue(sid)),
            final(self).tasks@ == old(self).tasks@.update(c as int, final(self).task(c as int)),
            final(self).ready_queue == old(self).ready_queue,
            final(self).timers == old(self).timers,
            final(self).processes == old(self).processes,
            final(self).pipes == old(self).pipes,
            final(self).time_ms == old(self).time_ms,
    {
        let c = self.park_current();
        let ghost mid = *self;
        self.enqueue_blocked(c, sid);
        proof {
            assert(self.tasks@ =~= old(self).tasks@.update(c as int, self.task(c as int)));
        }
        c
    }

    /// Block the running task on a wait queue and hand the processor
    /// to the front of the ready queue.
    #[verifier::rlimit(100)]
    #[verifier::spinoff_prover]
    pub fn block_current_and_run_next(&mut self, sid: usize)
        requires
            old(self).sched_wf(),
            old(self).current is Some,
            sid < old(self).wait_queues@.len(),
        ensures
            final(self).sched_wf(),
            final(self).task_count() == old(self).task_count(),
            final(self).wait_queues@ == old(self).wait_queues@.update(
                sid as int,
                final(self).wait_queues@[sid as int],
            ),
            final(self).wait_queues@[sid as int]@ == old(self).wait_queues@[sid as int]@.push(
                old(self).current->Some_0,
            ),
            final(self).task(old(self).current->Some_0 as int).blocked_on@ == Some(
                WaitSite::Queue(sid),
            ),
            final(self).task(old(self).current->Some_0 as int).task_status is Blocked,
            old(self).ready_queue@.len() > 0 ==> final(self).current == Some(
                old(self).ready_queue@[0],
            ) && final(self).ready_queue@ == old(self).ready_queue@.drop_first(),
            old(self).ready_queue@.len() == 0 ==> final(self).current is None && final(self).ready_queue@ == old(self).ready_queue@,
            final(self).timers == old(self).timers,
            final(self).processes == old(self).processes,
            final(self).pipes == old(self).pipes,
            final(self).time_ms == old(self).time_ms,
    {
        let c = self.block_current_task(sid);
        proof {
            reveal(Kernel::c_ready_entries);
            reveal(Kernel::c_current);
            if old(self).ready_queue@.len() > 0 {
                assert(old(self).task(old(self).ready_queue@[0] as int).task_status is Ready);
                assert(old(self).task(c as int).task_status is Running);
                assert(old(self).ready_queue@[0] != c);
            }
        }
        self.fetch_next();
    }

    /// Add a fresh, empty wait queue for a new synchronisation object.
    #[verifier::rlimit(100)]
    #[verifier::spinoff_prover]
    pub fn alloc_wait_queue(&mut self) -> (sid: usize)
        requires
            old(self).sched_wf(),
        ensures
            final(self).sched_wf(),
            sid == old(self).wait_queues@.len(),
            final(self).wait_queues@ == old(self).wait_queues@.push(
                final(self).wait_queues@[sid as int],
            ),
            final(self).wait_queues@[sid as int]@ == Seq::<usize>::empty(),
            final(self).tasks == old(self).tasks,
            final(self).ready_queue == old(self).ready_queue,
            final(self).current == old(self).current,
            final(self).timers == old(self).timers,
            final(self).processes == old(self).processes,
            final(self).pipes == old(self).pipes,
            final(self).time_ms == old(self).time_ms,
    {
        let sid = self.wait_queues.len();
        let fresh: Vec<usize> = Vec::new();
        self.wait_queues.push(fresh);
        proof {
            lemma_sched_wf_after_queue_alloc(*old(self), *self);
        }
        sid
    }
}


/// The invariant survives adding an empty wait queue.
proof fn lemma_sched_wf_after_queue_alloc(pre: Kernel, post: Kernel)
    requires
        pre.sched_wf(),
        post.wait_queues@ == pre.wait_queues@.push(post.wait_queues@[pre.wait_queues@.len() as int]),
        post.wait_queues@[pre.wait_queues@.len() as int]@ == Seq::<usize>::empty(),
        post.tasks == pre.tasks,
        post.ready_queue == pre.ready_queue,
        post.current == pre.current,
        post.timers == pre.timers,
    ensures
        post.sched_wf(),
{
    reveal(Kernel::c_ready_entries);
    reveal(Kernel::c_ready_complete);
    reveal(Kernel::c_ready_nodup);
    reveal(Kernel::c_current);
    reveal(Kernel::c_running_current);
    reveal(Kernel::c_queue_entries);
    reveal(Kernel::c_queue_nodup);
    reveal(Kernel::c_blocked);
    reveal(Kernel::c_timer_entries);
    reveal(Kernel::c_timer_nodup);
    reveal(Kernel::c_timer_sorted);
    reveal(Kernel::c_exited);
    let n = pre.wait_queues@.len() as int;
    assert forall|s: int, i: int|
        0 <= s < post.wait_queues@.len() && 0 <= i < post.wait_queues@[s]@.len() implies (
    #[trigger] post.wait_queues@[s]@[i]) < post.task_count() && post.task(
        post.wait_queues@[s]@[i] as int,
    ).blocked_on@ == Some(WaitSite::Queue(s as usize)) by {
        assert(s < n);
        assert(post.wait_queues@[s] == pre.wait_queues@[s]);
    }
    assert forall|s: int|
        0 <= s < post.wait_queues@.len() implies (
    #[trigger] post.wait_queues@[s]@).no_duplicates() by {
        if s < n {
            assert(post.wait_queues@[s] == pre.wait_queues@[s]);
        }
    }
    assert forall|t2: usize|
        t2 < post.task_count() && (#[trigger] post.task(t2 as int)).blocked_on@
        is Some implies {
        &&& post.task(t2 as int).task_status is Blocked
        &&& post.task(t2 as int).exit_code is None
        &&& match post.task(t2 as int).blocked_on@->Some_0 {
            WaitSite::Queue(sq) => post.in_queue(sq as int, t2),
            WaitSite::Timer => post.in_timers(t2),
        }
    } by {
        assert(pre.task(t2 as int).blocked_on@ is Some);
        match pre.task(t2 as int).blocked_on@->Some_0 {
            WaitSite::Queue(sq) => {
                assert(pre.in_queue(sq as int, t2));
                assert(post.wait_queues@[sq as int] == pre.wait_queues@[sq as int]);
            },
            WaitSite::Timer => {
                assert(pre.in_timers(t2));
            },
        }
    }
    assert(post.tasks@ == pre.tasks@);
    assert(post.c_ready_entries());
    assert forall|t2: usize|
        t2 < post.task_count() && (#[trigger] post.task(t2 as int)).task_status
        is Ready implies post.ready_queue@.contains(t2) by {
        assert(pre.task(t2 as int).task_status is Ready);
    }
    assert(post.c_ready_complete());
    assert(post.c_ready_nodup());
    assert(post.c_current());
    assert forall|t2: usize|
        t2 < post.task_count() && (#[trigger] post.task(t2 as int)).task_status
        is Running implies post.current == Some(t2) by {
        assert(pre.task(t2 as int).task_status is Running);
    }
    assert(post.c_running_current());
    assert(post.c_queue_entries());
    assert(post.c_queue_nodup());
    assert(post.c_blocked());
    assert(post.c_timer_entries());
    assert(post.c_timer_nodup());
    assert(post.c_timer_sorted());
    assert(post.c_exited());
}

/// The invariant survives queueing a limbo task on a wait queue.
proof fn lemma_sched_wf_after_enqueue_blocked(pre: Kernel, post: Kernel, t: usize, sid: usize)
    requires
        pre.sched_wf(),
        t < pre.task_count(),
        sid < pre.wait_queues@.len(),
        pre.task(t as int).task_status is Blocked,
        pre.task(t as int).blocked_on@ is None,
        pre.task(t as int).exit_code is None,
        !pre.in_queue(sid as int, t),
        post.tasks@ == pre.tasks@.update(t as int, post.task(t as int)),
        post.task(t as int) == (TaskControlBlockInner {
            blocked_on: Ghost(Some(WaitSite::Queue(sid))),
            ..pre.task(t as int)
        }),
        post.wait_queues@ == pre.wait_queues@.update(
            sid as int,
            post.wait_queues@[sid as int],
        ),
        post.wait_queues@[sid as int]@ == pre.wait_queues@[sid as int]@.push(t),
        post.ready_queue == pre.ready_queue,
        post.current == pre.current,
        post.timers == pre.timers,
    ensures
        post.sched_wf(),
{
        reveal(Kernel::c_ready_entries);
        reveal(Kernel::c_ready_complete);
        reveal(Kernel::c_ready_nodup);
        reveal(Kernel::c_current);
        reveal(Kernel::c_running_current);
        reveal(Kernel::c_queue_entries);
        reveal(Kernel::c_queue_nodup);
        reveal(Kernel::c_blocked);
        reveal(Kernel::c_timer_entries);
        reveal(Kernel::c_timer_nodup);
        reveal(Kernel::c_timer_sorted);
        reveal(Kernel::c_exited);
    assert(post.c_ready_entries()) by {
        assert forall|i: int|
            0 <= i < post.ready_queue@.len() implies (#[trigger] post.ready_queue@[i])
            < post.task_count() && post.task(post.ready_queue@[i] as int).task_status
            is Ready by {
            assert(pre.ready_queue@[i] != t);
        }
    }
    assert(post.c_ready_complete()) by {
        assert forall|t2: usize|
            t2 < post.task_count() && (#[trigger] post.task(t2 as int)).task_status
            is Ready implies post.ready_queue@.contains(t2) by {
            assert(t2 != t);
            assert(pre.task(t2 as int).task_status is Ready);
        }
    }
    assert(post.c_current()) by {
        if post.current is Some {
            assert(pre.task(post.current->Some_0 as int).task_status is Running);
            assert(post.current->Some_0 != t);
        }
    }
    assert(post.c_running_current()) by {
        assert forall|t2: usize|
            t2 < post.task_count() && (#[trigger] post.task(t2 as int)).task_status
            is Running implies post.current == Some(t2) by {
            assert(t2 != t);
            assert(pre.task(t2 as int).task_status is Running);
        }
    }
    assert(post.c_queue_entries()) by {
        assert forall|s: int, i: int|
            0 <= s < post.wait_queues@.len() && 0 <= i < post.wait_queues@[s]@.len() implies (
        #[trigger] post.wait_queues@[s]@[i]) < post.task_count() && post.task(
            post.wait_queues@[s]@[i] as int,
        ).blocked_on@ == Some(WaitSite::Queue(s as usize)) by {
            if s == sid {
                if i < pre.wait_queues@[s]@.len() {
                    assert(post.wait_queues@[s]@[i] == pre.wait_queues@[s]@[i]);
                    assert(pre.wait_queues@[s]@[i] != t);
                } else {
                    assert(post.wait_queues@[s]@[i] == t);
                }
            } else {
                assert(post.wait_queues@[s] == pre.wait_queues@[s]);
                assert(pre.wait_queues@[s]@[i] != t);
            }
        }
    }
    assert(post.c_queue_nodup()) by {
        assert forall|s: int|
            0 <= s < post.wait_queues@.len() implies (
        #[trigger] post.wait_queues@[s]@).no_duplicates() by {
            if s == sid {
                lemma_push_nodup(pre.wait_queues@[s]@, t);
            } else {
                assert(post.wait_queues@[s] == pre.wait_queues@[s]);
            }
        }
    }
    assert(post.c_blocked()) by {
        assert forall|t2: usize|
            t2 < post.task_count() && (#[trigger] post.task(t2 as int)).blocked_on@
            is Some implies {
            &&& post.task(t2 as int).task_status is Blocked
            &&& post.task(t2 as int).exit_code is None
            &&& match post.task(t2 as int).blocked_on@->Some_0 {
                WaitSite::Queue(sq) => post.in_queue(sq as int, t2),
                WaitSite::Timer => post.in_timers(t2),
            }
        } by {
            if t2 == t {
                assert(post.wait_queues@[sid as int]@[pre.wait_queues@[sid as int]@.len() as int]
                    == t);
            } else {
                match pre.task(t2 as int).blocked_on@->Some_0 {
                    WaitSite::Queue(sq) => {
                        assert(pre.in_queue(sq as int, t2));
                        let j = choose|j: int|
                            0 <= j < pre.wait_queues@[sq as int]@.len() && pre.wait_queues@[
                            sq as int]@[j] == t2;
                        assert(post.wait_queues@[sq as int]@[j] == t2);
                    },
                    WaitSite::Timer => {
                        assert(pre.in_timers(t2));
                    },
                }
            }
        }
    }
    assert(post.c_timer_entries()) by {
        assert forall|i: int|
            0 <= i < post.timers@.len() implies (#[trigger] post.timers@[i]).task
            < post.task_count() && post.task(post.timers@[i].task as int).blocked_on@ == Some(
            WaitSite::Timer,
        ) by {
            assert(pre.timers@[i].task != t);
        }
    }
    assert(post.c_exited()) by {
        assert forall|t2: usize|
            t2 < post.task_count() && (#[trigger] post.task(t2 as int)).exit_code
            is Some implies post.task(t2 as int).task_status is Blocked && post.task(
            t2 as int,
        ).blocked_on@ is None by {
            assert(t2 != t);
        }
    }
}


impl Kernel {
    /// Take a task out of the front of a wait queue, leaving it in
    /// limbo.
    #[verifier::rlimit(100)]
    #[verifier::spinoff_prover]
    fn dequeue_blocked(&mut self, sid: usize) -> (t: usize)
        requires
            old(self).sched_wf(),
            sid < old(self).wait_queues@.len(),
            old(self).wait_queues@[sid as int]@.len() > 0,
        ensures
            final(self).sched_wf(),
            final(self).task_count() == old(self).task_count(),
            t == old(self).wait_queues@[sid as int]@[0],
            t < old(self).task_count(),
            final(self).wait_queues@ == old(self).wait_queues@.update(
                sid as int,
                final(self).wait_queues@[sid as int],
            ),
            final(self).wait_queues@[sid as int]@ == old(self).wait_queues@[
                sid as int]@.drop_first(),
            final(self).tasks@ == old(self).tasks@.update(t as int, final(self).task(t as int)),
            final(self).task(t as int).task_status is Blocked,
            final(self).task(t as int).blocked_on@ is None,
            final(self).task(t as int).exit_code is None,
            final(self).task(t as int).res == old(self).task(t as int).res,
            final(self).task(t as int).task_cx == old(self).task(t as int).task_cx,
            final(self).task(t as int).trap_cx == old(self).task(t as int).trap_cx,
            final(self).task(t as int).pid == old(self).task(t as int).pid,
            final(self).task(t as int).kstack_id == old(self).task(t as int).kstack_id,
            final(self).ready_queue == old(self).ready_queue,
            final(self).current == old(self).current,
            final(self).timers == old(self).timers,
            final(self).processes == old(self).processes,
            final(self).pipes == old(self).pipes,
            final(self).time_ms == old(self).time_ms,
    {
        let t = self.wait_queues[sid].remove(0);
        proof {
            reveal(Kernel::c_queue_entries);
            reveal(Kernel::c_blocked);
            assert(old(self).task(t as int).blocked_on@ == Some(WaitSite::Queue(sid)));
        }
        self.tasks[t].blocked_on = Ghost(None);
        proof {
            lemma_sched_wf_after_dequeue(*old(self), *self, t, sid);
        }
        t
    }

    /// Wake the front waiter of a wait queue: it leaves the queue and
    /// joins the back of the ready queue. Nothing happens on an empty
    /// queue. Waking is FIFO: the task that has waited longest is the
    /// one woken.
    pub fn wake_first_from_queue(&mut self, sid: usize) -> (r: Option<usize>)
        requires
            old(self).sched_wf(),
            sid < old(self).wait_queues@.len(),
        ensures
            final(self).sched_wf(),
            final(self).task_count() == old(self).task_count(),
            old(self).wait_queues@[sid as int]@.len() == 0 ==> r is None && *final(self) == *old(
                self,
            ),
            old(self).wait_queues@[sid as int]@.len() > 0 ==> {
                &&& r == Some(old(self).wait_queues@[sid as int]@[0])
                &&& final(self).wait_queues@ == old(self).wait_queues@.update(
                    sid as int,
                    final(self).wait_queues@[sid as int],
                )
                &&& final(self).wait_queues@[sid as int]@ == old(self).wait_queues@[
                    sid as int]@.drop_first()
                &&& final(self).ready_queue@ == old(self).ready_queue@.push(
                    old(self).wait_queues@[sid as int]@[0],
                )
                &&& final(self).task(old(self).wait_queues@[sid as int]@[0] as int).task_status
                    is Ready
                &&& final(self).tasks@ == old(self).tasks@.update(
                    old(self).wait_queues@[sid as int]@[0] as int,
                    final(self).task(old(self).wait_queues@[sid as int]@[0] as int),
                )
            },
            final(self).current == old(self).current,
            final(self).timers == old(self).timers,
            final(self).processes == old(self).processes,
            final(self).pipes == old(self).pipes,
            final(self).time_ms == old(self).time_ms,
    {
        if self.wait_queues[sid].len() == 0 {
            return None;
        }
        let t = self.dequeue_blocked(sid);
        self.add_task(t);
        proof {
            assert(self.tasks@ =~= old(self).tasks@.update(t as int, self.task(t as int)));
        }
        Some(t)
    }

    /// Put the running task to sleep until the given time: it enters
    /// the timer wheel in expiry order (after earlier entries with the
    /// same expiry) and gives up the processor to the next ready task.
    #[verifier::rlimit(100)]
    #[verifier::spinoff_prover]
    pub fn block_current_on_timer(&mut self, expire_ms: u64)
        requires
            old(self).sched_wf(),
            old(self).current is Some,
        ensures
            final(self).sched_wf(),
            final(self).task_count() == old(self).task_count(),
            final(self).in_timers(old(self).current->Some_0),
            final(self).task(old(self).current->Some_0 as int).blocked_on@ == Some(
                WaitSite::Timer,
            ),
            final(self).timers@.len() == old(self).timers@.len() + 1,
            exists|i: int|
                0 <= i < final(self).timers@.len() && final(self).timers@[i] == (TimerCondVar {
                    expire_ms,
                    task: old(self).current->Some_0,
                }),
            old(self).ready_queue@.len() > 0 ==> final(self).current == Some(
                old(self).ready_queue@[0],
            ),
            old(self).ready_queue@.len() == 0 ==> final(self).current is None,
            final(self).wait_queues == old(self).wait_queues,
            final(self).processes == old(self).processes,
            final(self).pipes == old(self).pipes,
            final(self).time_ms == old(self).time_ms,
    {
        let c = self.park_current();
        let ghost mid = *self;
        // find the first entry strictly later than the new expiry
        let count = self.timers.len();
        let mut idx: usize = 0;
        while idx < count && self.timers[idx].expire_ms <= expire_ms
            invariant
                count == self.timers@.len(),
                idx <= count,
                forall|i: int| 0 <= i < idx ==> (#[trigger] self.timers@[i]).expire_ms <= expire_ms,
            decreases count - idx,
        {
            idx = idx + 1;
        }
        proof {
            assert forall|i: int| idx <= i < count implies (#[trigger] self.timers@[i]).expire_ms
                > expire_ms by {
                lemma_timers_sorted_from(*self, idx as int, i);
            }
        }
        self.timers.insert(idx, TimerCondVar { expire_ms, task: c });
        self.tasks[c].blocked_on = Ghost(Some(WaitSite::Timer));
        proof {
            lemma_sched_wf_after_timer_insert(mid, *self, c, idx as int, expire_ms);
            assert(self.timers@[idx as int] == (TimerCondVar { expire_ms, task: c }));
            reveal(Kernel::c_ready_entries);
            if self.ready_queue@.len() > 0 {
                assert(self.task(self.ready_queue@[0] as int).task_status is Ready);
                assert(self.ready_queue@[0] != c);
            }
        }
        let ghost pre_fetch = *self;
        self.fetch_next();
        proof {
            assert(self.timers == pre_fetch.timers);
            assert(self.timers@[idx as int] == (TimerCondVar { expire_ms, task: c }));
        }
    }

    /// Wake every sleeper whose expiry has passed, earliest first:
    /// they join the ready queue in expiry order.
    #[verifier::rlimit(100)]
    #[verifier::spinoff_prover]
    pub fn check_timer(&mut self)
        requires
            old(self).sched_wf(),
        ensures
            final(self).sched_wf(),
            final(self).task_count() == old(self).task_count(),
            forall|i: int|
                0 <= i < final(self).timers@.len() ==> (#[trigger] final(self).timers@[i]).expire_ms
                    > final(self).time_ms,
            exists|k: int|
                {
                    &&& 0 <= k <= old(self).timers@.len()
                    &&& (forall|i: int|
                        0 <= i < k ==> (#[trigger] old(self).timers@[i]).expire_ms <= old(
                            self,
                        ).time_ms)
                    &&& final(self).timers@ =~= old(self).timers@.subrange(
                        k,
                        old(self).timers@.len() as int,
                    )
                    &&& final(self).ready_queue@ =~= old(self).ready_queue@ + Seq::new(
                        k as nat,
                        |i: int| old(self).timers@[i].task,
                    )
                },
            final(self).current == old(self).current,
            final(self).wait_queues == old(self).wait_queues,
            final(self).processes == old(self).processes,
            final(self).pipes == old(self).pipes,
            final(self).time_ms == old(self).time_ms,
    {
        let ghost n0 = old(self).timers@.len() as int;
        let ghost r0 = old(self).ready_queue@.len() as int;
        let mut woken: usize = 0;
        loop
            invariant_except_break
                self.sched_wf(),
                self.task_count() == old(self).task_count(),
                n0 == old(self).timers@.len(),
                r0 == old(self).ready_queue@.len(),
                woken <= n0,
                self.timers@.len() == n0 - woken,
                forall|i: int|
                    0 <= i < self.timers@.len() ==> (#[trigger] self.timers@[i]) == old(
                        self,
                    ).timers@[woken + i],
                forall|i: int|
                    0 <= i < woken ==> (#[trigger] old(self).timers@[i]).expire_ms <= old(
                        self,
                    ).time_ms,
                self.ready_queue@.len() == r0 + woken,
                forall|i: int|
                    0 <= i < r0 ==> (#[trigger] self.ready_queue@[i]) == old(self).ready_queue@[i],
                forall|i: int|
                    0 <= i < woken ==> (#[trigger] self.ready_queue@[r0 + i]) == old(
                        self,
                    ).timers@[i].task,
                self.current == old(self).current,
                self.wait_queues == old(self).wait_queues,
                self.processes == old(self).processes,
                self.pipes == old(self).pipes,
                self.time_ms == old(self).time_ms,
            ensures
                self.sched_wf(),
                self.task_count() == old(self).task_count(),
                n0 == old(self).timers@.len(),
                r0 == old(self).ready_queue@.len(),
                woken <= n0,
                self.timers@.len() == n0 - woken,
                forall|i: int|
                    0 <= i < self.timers@.len() ==> (#[trigger] self.timers@[i]) == old(
                        self,
                    ).timers@[woken + i],
                forall|i: int|
                    0 <= i < woken ==> (#[trigger] old(self).timers@[i]).expire_ms <= old(
                        self,
                    ).time_ms,
                self.ready_queue@.len() == r0 + woken,
                forall|i: int|
                    0 <= i < r0 ==> (#[trigger] self.ready_queue@[i]) == old(self).ready_queue@[i],
                forall|i: int|
                    0 <= i < woken ==> (#[trigger] self.ready_queue@[r0 + i]) == old(
                        self,
                    ).timers@[i].task,
                self.current == old(self).current,
                self.wait_queues == old(self).wait_queues,
                self.processes == old(self).processes,
                self.pipes == old(self).pipes,
                self.time_ms == old(self).time_ms,
                self.timers@.len() == 0 || self.timers@[0].expire_ms > self.time_ms,
            decreases self.timers@.len(),
        {
            if self.timers.len() == 0 {
                break ;
            }
            if self.timers[0].expire_ms > self.time_ms {
                break ;
            }
            let ghost pre_loop = *self;
            let tc = self.timers.remove(0);
            proof {
                reveal(Kernel::c_timer_entries);
                reveal(Kernel::c_blocked);
                assert(pre_loop.timers@[0] == old(self).timers@[woken as int]);
                assert(pre_loop.task(tc.task as int).blocked_on@ == Some(WaitSite::Timer));
            }
            self.tasks[tc.task].blocked_on = Ghost(None);
            proof {
                lemma_sched_wf_after_timer_remove(pre_loop, *self, tc.task);
            }
            self.add_task(tc.task);
            proof {
                assert(woken < n0);
                assert(old(self).timers@.len() == old(self).timers.len());
                assert forall|i: int|
                    0 <= i < self.timers@.len() implies (#[trigger] self.timers@[i]) == old(
                    self,
                ).timers@[woken + 1 + i] by {
                    assert(self.timers@[i] == pre_loop.timers@[i + 1]);
                }
                assert(self.ready_queue@ == pre_loop.ready_queue@.push(tc.task));
                assert(pre_loop.ready_queue@.len() == r0 + woken);
                assert forall|i: int|
                    0 <= i < woken + 1 implies (#[trigger] self.ready_queue@[r0 + i]) == old(
                    self,
                ).timers@[i].task by {
                    if i < woken {
                        assert(0 <= r0 + i < pre_loop.ready_queue@.len());
                        assert(pre_loop.ready_queue@.push(tc.task)[r0 + i]
                            == pre_loop.ready_queue@[r0 + i]);
                        assert(self.ready_queue@[r0 + i] == pre_loop.ready_queue@[r0 + i]);
                        assert(pre_loop.ready_queue@[r0 + i] == old(self).timers@[i].task);
                    } else {
                        assert(self.ready_queue@[r0 + i] == tc.task);
                    }
                }
                assert(n0 <= usize::MAX);
                assert(woken + 1 <= n0);
            }
            woken = woken + 1;
        }
        proof {
            assert forall|i: int|
                0 <= i < self.timers@.len() implies (#[trigger] self.timers@[i]).expire_ms
                > self.time_ms by {
                lemma_timers_sorted_from(*self, 0, i);
            }
            assert(self.timers@ =~= old(self).timers@.subrange(woken as int, n0));
            let target = old(self).ready_queue@ + Seq::new(
                woken as nat,
                |i: int| old(self).timers@[i].task,
            );
            assert(self.ready_queue@.len() == target.len());
            assert forall|i: int|
                0 <= i < self.ready_queue@.len() implies self.ready_queue@[i] == target[i] by {
                if i < r0 {
                    assert(self.ready_queue@[i] == old(self).ready_queue@[i]);
                    assert(target[i] == old(self).ready_queue@[i]);
                } else {
                    assert(self.ready_queue@[i] == self.ready_queue@[r0 + (i - r0)]);
                    assert(self.ready_queue@[r0 + (i - r0)] == old(self).timers@[i - r0].task);
                    assert(target[i] == old(self).timers@[i - r0].task);
                }
            }
            assert(self.ready_queue@ =~= target);
        }
    }
}

/// In a sorted wheel, everything after a late entry is late too.
proof fn lemma_timers_sorted_from(k: Kernel, lo: int, i: int)
    requires
        k.c_timer_sorted(),
        0 <= lo <= i < k.timers@.len(),
    ensures
        k.timers@[lo].expire_ms <= k.timers@[i].expire_ms,
    decreases i - lo,
{
    reveal(Kernel::c_timer_sorted);
    if lo < i {
        lemma_timers_sorted_from(k, lo + 1, i);
    }
}


/// The invariant survives taking the front waiter out of a queue into
/// limbo.
proof fn lemma_sched_wf_after_dequeue(pre: Kernel, post: Kernel, t: usize, sid: usize)
    requires
        pre.sched_wf(),
        sid < pre.wait_queues@.len(),
        pre.wait_queues@[sid as int]@.len() > 0,
        t == pre.wait_queues@[sid as int]@[0],
        post.tasks@ == pre.tasks@.update(t as int, post.task(t as int)),
        post.task(t as int) == (TaskControlBlockInner { blocked_on: Ghost(None), ..pre.task(t as int) }),
        post.wait_queues@ == pre.wait_queues@.update(sid as int, post.wait_queues@[sid as int]),
        post.wait_queues@[sid as int]@ == pre.wait_queues@[sid as int]@.drop_first(),
        post.ready_queue == pre.ready_queue,
        post.current == pre.current,
        post.timers == pre.timers,
    ensures
        post.sched_wf(),
        post.task(t as int).task_status is Blocked,
        post.task(t as int).exit_code is None,
{
    reveal(Kernel::c_ready_entries);
    reveal(Kernel::c_ready_complete);
    reveal(Kernel::c_ready_nodup);
    reveal(Kernel::c_current);
    reveal(Kernel::c_running_current);
    reveal(Kernel::c_queue_entries);
    reveal(Kernel::c_queue_nodup);
    reveal(Kernel::c_blocked);
    reveal(Kernel::c_timer_entries);
    reveal(Kernel::c_timer_nodup);
    reveal(Kernel::c_timer_sorted);
    reveal(Kernel::c_exited);
    assert(t < pre.task_count());
    assert(pre.task(t as int).blocked_on@ == Some(WaitSite::Queue(sid)));
    assert(pre.task(t as int).task_status is Blocked);
    assert(pre.task(t as int).exit_code is None);
    assert(post.c_ready_entries()) by {
        assert forall|i: int|
            0 <= i < post.ready_queue@.len() implies (#[trigger] post.ready_queue@[i])
            < post.task_count() && post.task(post.ready_queue@[i] as int).task_status
            is Ready by {
            assert(pre.ready_queue@[i] != t);
        }
    }
    assert(post.c_ready_complete()) by {
        assert forall|t2: usize|
            t2 < post.task_count() && (#[trigger] post.task(t2 as int)).task_status
            is Ready implies post.ready_queue@.contains(t2) by {
            assert(t2 != t);
            assert(pre.task(t2 as int).task_status is Ready);
        }
    }
    assert(post.c_current()) by {
        if post.current is Some {
            assert(pre.task(post.current->Some_0 as int).task_status is Running);
            assert(post.current->Some_0 != t);
        }
    }
    assert(post.c_running_current()) by {
        assert forall|t2: usize|
            t2 < post.task_count() && (#[trigger] post.task(t2 as int)).task_status
            is Running implies post.current == Some(t2) by {
            assert(t2 != t);
            assert(pre.task(t2 as int).task_status is Running);
        }
    }
    assert(post.c_queue_entries()) by {
        assert forall|s: int, i: int|
            0 <= s < post.wait_queues@.len() && 0 <= i < post.wait_queues@[s]@.len() implies (
        #[trigger] post.wait_queues@[s]@[i]) < post.task_count() && post.task(
            post.wait_queues@[s]@[i] as int,
        ).blocked_on@ == Some(WaitSite::Queue(s as usize)) by {
            if s == sid {
                assert(post.wait_queues@[s]@[i] == pre.wait_queues@[s]@[i + 1]);
                assert(pre.wait_queues@[s]@[i + 1] != t) by {
                    if pre.wait_queues@[s]@[i + 1] == t {
                        assert(pre.wait_queues@[s]@[0] == pre.wait_queues@[s]@[i + 1]);
                    }
                }
            } else {
                assert(post.wait_queues@[s] == pre.wait_queues@[s]);
                let w = pre.wait_queues@[s]@[i];
                assert(pre.task(w as int).blocked_on@ == Some(WaitSite::Queue(s as usize)));
                assert(pre.wait_queues@.len() == pre.wait_queues.len());
                assert(s as usize != sid);
                assert(w != t);
            }
        }
    }
    assert(post.c_queue_nodup()) by {
        assert forall|s: int|
            0 <= s < post.wait_queues@.len() implies (
        #[trigger] post.wait_queues@[s]@).no_duplicates() by {
            if s == sid {
                lemma_drop_first_nodup(pre.wait_queues@[s]@);
            } else {
                assert(post.wait_queues@[s] == pre.wait_queues@[s]);
            }
        }
    }
    assert(post.c_blocked()) by {
        assert forall|t2: usize|
            t2 < post.task_count() && (#[trigger] post.task(t2 as int)).blocked_on@
            is Some implies {
            &&& post.task(t2 as int).task_status is Blocked
            &&& post.task(t2 as int).exit_code is None
            &&& match post.task(t2 as int).blocked_on@->Some_0 {
                WaitSite::Queue(sq) => post.in_queue(sq as int, t2),
                WaitSite::Timer => post.in_timers(t2),
            }
        } by {
            assert(t2 != t);
            match pre.task(t2 as int).blocked_on@->Some_0 {
                WaitSite::Queue(sq) => {
                    assert(pre.in_queue(sq as int, t2));
                    let j = choose|j: int|
                        0 <= j < pre.wait_queues@[sq as int]@.len() && pre.wait_queues@[
                        sq as int]@[j] == t2;
                    if sq == sid {
                        assert(j != 0);
                        assert(post.wait_queues@[sq as int]@[j - 1] == t2);
                    } else {
                        assert(post.wait_queues@[sq as int] == pre.wait_queues@[sq as int]);
                    }
                },
                WaitSite::Timer => {
                    assert(pre.in_timers(t2));
                },
            }
        }
    }
    assert(post.c_timer_entries()) by {
        assert forall|i: int|
            0 <= i < post.timers@.len() implies (#[trigger] post.timers@[i]).task
            < post.task_count() && post.task(post.timers@[i].task as int).blocked_on@ == Some(
            WaitSite::Timer,
        ) by {
            assert(pre.timers@[i].task != t);
        }
    }
    assert(post.c_exited()) by {
        assert forall|t2: usize|
            t2 < post.task_count() && (#[trigger] post.task(t2 as int)).exit_code
            is Some implies post.task(t2 as int).task_status is Blocked && post.task(
            t2 as int,
        ).blocked_on@ is None by {
            if t2 != t {
                assert(post.task(t2 as int) == pre.task(t2 as int));
            }
        }
    }
}

/// The invariant survives putting a limbo task on the wheel at the
/// given slot.
#[verifier::rlimit(100)]
#[verifier::spinoff_prover]
proof fn lemma_sched_wf_after_timer_insert(pre: Kernel, post: Kernel, c: usize, idx: int, expire_ms: u64)
    requires
        pre.sched_wf(),
        c < pre.task_count(),
        pre.task(c as int).task_status is Blocked,
        pre.task(c as int).blocked_on@ is None,
        pre.task(c as int).exit_code is None,
        0 <= idx <= pre.timers@.len(),
        forall|i: int| 0 <= i < idx ==> (#[trigger] pre.timers@[i]).expire_ms <= expire_ms,
        forall|i: int|
            idx <= i < pre.timers@.len() ==> (#[trigger] pre.timers@[i]).expire_ms > expire_ms,
        post.tasks@ == pre.tasks@.update(c as int, post.task(c as int)),
        post.task(c as int) == (TaskControlBlockInner {
            blocked_on: Ghost(Some(WaitSite::Timer)),
            ..pre.task(c as int)
        }),
        post.timers@ == pre.timers@.insert(idx, (TimerCondVar { expire_ms, task: c })),
        post.ready_queue == pre.ready_queue,
        post.current == pre.current,
        post.wait_queues == pre.wait_queues,
    ensures
        post.sched_wf(),
        post.in_timers(c),
{
    reveal(Kernel::c_ready_entries);
    reveal(Kernel::c_ready_complete);
    reveal(Kernel::c_ready_nodup);
    reveal(Kernel::c_current);
    reveal(Kernel::c_running_current);
    reveal(Kernel::c_queue_entries);
    reveal(Kernel::c_queue_nodup);
    reveal(Kernel::c_blocked);
    reveal(Kernel::c_timer_entries);
    reveal(Kernel::c_timer_nodup);
    reveal(Kernel::c_timer_sorted);
    reveal(Kernel::c_exited);
    assert(post.timers@[idx].task == c);
    assert(post.c_ready_entries()) by {
        assert forall|i: int|
            0 <= i < post.ready_queue@.len() implies (#[trigger] post.ready_queue@[i])
            < post.task_count() && post.task(post.ready_queue@[i] as int).task_status
            is Ready by {
            assert(pre.ready_queue@[i] != c);
        }
    }
    assert(post.c_ready_complete()) by {
        assert forall|t2: usize|
            t2 < post.task_count() && (#[trigger] post.task(t2 as int)).task_status
            is Ready implies post.ready_queue@.contains(t2) by {
            assert(t2 != c);
            assert(pre.task(t2 as int).task_status is Ready);
        }
    }
    assert(post.c_current()) by {
        if post.current is Some {
            assert(pre.task(post.current->Some_0 as int).task_status is Running);
            assert(post.current->Some_0 != c);
        }
    }
    assert(post.c_running_current()) by {
        assert forall|t2: usize|
            t2 < post.task_count() && (#[trigger] post.task(t2 as int)).task_status
            is Running implies post.current == Some(t2) by {
            assert(t2 != c);
            assert(pre.task(t2 as int).task_status is Running);
        }
    }
    assert(post.c_queue_entries()) by {
        assert forall|s: int, i: int|
            0 <= s < post.wait_queues@.len() && 0 <= i < post.wait_queues@[s]@.len() implies (
        #[trigger] post.wait_queues@[s]@[i]) < post.task_count() && post.task(
            post.wait_queues@[s]@[i] as int,
        ).blocked_on@ == Some(WaitSite::Queue(s as usize)) by {
            let w = pre.wait_queues@[s]@[i];
            assert(pre.task(w as int).blocked_on@ == Some(WaitSite::Queue(s as usize)));
            assert(w != c);
        }
    }
    assert(post.c_blocked()) by {
        assert forall|t2: usize|
            t2 < post.task_count() && (#[trigger] post.task(t2 as int)).blocked_on@
            is Some implies {
            &&& post.task(t2 as int).task_status is Blocked
            &&& post.task(t2 as int).exit_code is None
            &&& match post.task(t2 as int).blocked_on@->Some_0 {
                WaitSite::Queue(sq) => post.in_queue(sq as int, t2),
                WaitSite::Timer => post.in_timers(t2),
            }
        } by {
            if t2 == c {
                assert(post.timers@[idx].task == c);
            } else {
                match pre.task(t2 as int).blocked_on@->Some_0 {
                    WaitSite::Queue(sq) => {
                        assert(pre.in_queue(sq as int, t2));
                    },
                    WaitSite::Timer => {
                        assert(pre.in_timers(t2));
                        let i = choose|i: int|
                            0 <= i < pre.timers@.len() && pre.timers@[i].task == t2;
                        if i < idx {
                            assert(post.timers@[i].task == t2);
                        } else {
                            assert(post.timers@[i + 1].task == t2);
                        }
                    },
                }
            }
        }
    }
    assert(post.c_timer_entries()) by {
        assert forall|i: int|
            0 <= i < post.timers@.len() implies (#[trigger] post.timers@[i]).task
            < post.task_count() && post.task(post.timers@[i].task as int).blocked_on@ == Some(
            WaitSite::Timer,
        ) by {
            if i == idx {
            } else {
                let w = if i < idx {
                    pre.timers@[i].task
                } else {
                    pre.timers@[i - 1].task
                };
                assert(post.timers@[i].task == w);
                assert(pre.task(w as int).blocked_on@ == Some(WaitSite::Timer));
                assert(w != c);
            }
        }
    }
    assert(!pre.in_timers(c)) by {
        if pre.in_timers(c) {
            let i = choose|i: int| 0 <= i < pre.timers@.len() && pre.timers@[i].task == c;
        }
    }
    assert(post.c_timer_nodup()) by {
        assert forall|i: int, j: int|
            0 <= i < post.timers@.len() && 0 <= j < post.timers@.len() && i != j implies (
        #[trigger] post.timers@[i]).task != (#[trigger] post.timers@[j]).task by {
            let wi = if i < idx {
                pre.timers@[i].task
            } else if i == idx {
                c
            } else {
                pre.timers@[i - 1].task
            };
            let wj = if j < idx {
                pre.timers@[j].task
            } else if j == idx {
                c
            } else {
                pre.timers@[j - 1].task
            };
            assert(post.timers@[i].task == wi && post.timers@[j].task == wj);
            if i != idx && j != idx {
            } else if i == idx {
                if wj == c {
                    assert(pre.in_timers(c));
                }
            } else {
                if wi == c {
                    assert(pre.in_timers(c));
                }
            }
        }
    }
    assert(post.c_timer_sorted()) by {
        assert forall|i: int|
            0 <= i && i + 1 < post.timers@.len() implies (#[trigger] post.timers@[i]).expire_ms
            <= post.timers@[i + 1].expire_ms by {
            if i + 1 < idx {
                assert(post.timers@[i] == pre.timers@[i] && post.timers@[i + 1] == pre.timers@[
                    i + 1]);
            } else if i + 1 == idx {
                assert(post.timers@[i] == pre.timers@[i]);
            } else if i == idx {
                assert(post.timers@[i + 1] == pre.timers@[i]);
            } else {
                assert(post.timers@[i] == pre.timers@[i - 1] && post.timers@[i + 1]
                    == pre.timers@[i]);
            }
        }
    }
    assert(post.c_exited()) by {
        assert forall|t2: usize|
            t2 < post.task_count() && (#[trigger] post.task(t2 as int)).exit_code
            is Some implies post.task(t2 as int).task_status is Blocked && post.task(
            t2 as int,
        ).blocked_on@ is None by {
            assert(t2 != c);
        }
    }
}

/// The invariant survives taking the front sleeper off the wheel into
/// limbo.
proof fn lemma_sched_wf_after_timer_remove(pre: Kernel, post: Kernel, t: usize)
    requires
        pre.sched_wf(),
        pre.timers@.len() > 0,
        t == pre.timers@[0].task,
        post.tasks@ == pre.tasks@.update(t as int, post.task(t as int)),
        post.task(t as int) == (TaskControlBlockInner { blocked_on: Ghost(None), ..pre.task(t as int) }),
        post.timers@ == pre.timers@.remove(0),
        post.ready_queue == pre.ready_queue,
        post.current == pre.current,
        post.wait_queues == pre.wait_queues,
    ensures
        post.sched_wf(),
        post.task(t as int).task_status is Blocked,
        post.task(t as int).exit_code is None,
        post.task(t as int).blocked_on@ is None,
{
    reveal(Kernel::c_ready_entries);
    reveal(Kernel::c_ready_complete);
    reveal(Kernel::c_ready_nodup);
    reveal(Kernel::c_current);
    reveal(Kernel::c_running_current);
    reveal(Kernel::c_queue_entries);
    reveal(Kernel::c_queue_nodup);
    reveal(Kernel::c_blocked);
    reveal(Kernel::c_timer_entries);
    reveal(Kernel::c_timer_nodup);
    reveal(Kernel::c_timer_sorted);
    reveal(Kernel::c_exited);
    assert(t < pre.task_count());
    assert(pre.task(t as int).blocked_on@ == Some(WaitSite::Timer));
    assert(pre.task(t as int).task_status is Blocked);
    assert(pre.task(t as int).exit_code is None);
    assert(post.c_ready_entries()) by {
        assert forall|i: int|
            0 <= i < post.ready_queue@.len() implies (#[trigger] post.ready_queue@[i])
            < post.task_count() && post.task(post.ready_queue@[i] as int).task_status
            is Ready by {
            assert(pre.ready_queue@[i] != t);
        }
    }
    assert(post.c_ready_complete()) by {
        assert forall|t2: usize|
            t2 < post.task_count() && (#[trigger] post.task(t2 as int)).task_status
            is Ready implies post.ready_queue@.contains(t2) by {
            assert(t2 != t);
            assert(pre.task(t2 as int).task_status is Ready);
        }
    }
    assert(post.c_current()) by {
        if post.current is Some {
            assert(pre.task(post.current->Some_0 as int).task_status is Running);
            assert(post.current->Some_0 != t);
        }
    }
    assert(post.c_running_current()) by {
        assert forall|t2: usize|
            t2 < post.task_count() && (#[trigger] post.task(t2 as int)).task_status
            is Running implies post.current == Some(t2) by {
            assert(t2 != t);
            assert(pre.task(t2 as int).task_status is Running);
        }
    }
    assert(post.c_queue_entries()) by {
        assert forall|s: int, i: int|
            0 <= s < post.wait_queues@.len() && 0 <= i < post.wait_queues@[s]@.len() implies (
        #[trigger] post.wait_queues@[s]@[i]) < post.task_count() && post.task(
            post.wait_queues@[s]@[i] as int,
        ).blocked_on@ == Some(WaitSite::Queue(s as usize)) by {
            let w = pre.wait_queues@[s]@[i];
            assert(pre.task(w as int).blocked_on@ == Some(WaitSite::Queue(s as usize)));
            assert(w != t);
        }
    }
    assert(post.c_blocked()) by {
        assert forall|t2: usize|
            t2 < post.task_count() && (#[trigger] post.task(t2 as int)).blocked_on@
            is Some implies {
            &&& post.task(t2 as int).task_status is Blocked
            &&& post.task(t2 as int).exit_code is None
            &&& match post.task(t2 as int).blocked_on@->Some_0 {
                WaitSite::Queue(sq) => post.in_queue(sq as int, t2),
                WaitSite::Timer => post.in_timers(t2),
            }
        } by {
            assert(t2 != t);
            match pre.task(t2 as int).blocked_on@->Some_0 {
                WaitSite::Queue(sq) => {
                    assert(pre.in_queue(sq as int, t2));
                },
                WaitSite::Timer => {
                    assert(pre.in_timers(t2));
                    let i = choose|i: int|
                        0 <= i < pre.timers@.len() && pre.timers@[i].task == t2;
                    assert(i != 0);
                    assert(post.timers@[i - 1].task == t2);
                },
            }
        }
    }
    assert(post.c_timer_entries()) by {
        assert forall|i: int|
            0 <= i < post.timers@.len() implies (#[trigger] post.timers@[i]).task
            < post.task_count() && post.task(post.timers@[i].task as int).blocked_on@ == Some(
            WaitSite::Timer,
        ) by {
            assert(post.timers@[i] == pre.timers@[i + 1]);
            assert(pre.timers@[i + 1].task != t) by {
                if pre.timers@[i + 1].task == t {
                    assert(pre.timers@[0].task == pre.timers@[i + 1].task);
                }
            }
        }
    }
    assert(post.c_timer_nodup()) by {
        assert forall|i: int, j: int|
            0 <= i < post.timers@.len() && 0 <= j < post.timers@.len() && i != j implies (
        #[trigger] post.timers@[i]).task != (#[trigger] post.timers@[j]).task by {
            assert(post.timers@[i] == pre.timers@[i + 1] && post.timers@[j] == pre.timers@[
                j + 1]);
        }
    }
    assert(post.c_timer_sorted()) by {
        assert forall|i: int|
            0 <= i && i + 1 < post.timers@.len() implies (#[trigger] post.timers@[i]).expire_ms
            <= post.timers@[i + 1].expire_ms by {
            assert(post.timers@[i] == pre.timers@[i + 1] && post.timers@[i + 1] == pre.timers@[
                i + 2]);
        }
    }
    assert(post.c_exited()) by {
        assert forall|t2: usize|
            t2 < post.task_count() && (#[trigger] post.task(t2 as int)).exit_code
            is Some implies post.task(t2 as int).task_status is Blocked && post.task(
            t2 as int,
        ).blocked_on@ is None by {
            if t2 != t {
                assert(post.task(t2 as int) == pre.task(t2 as int));
            }
        }
    }
}


/// The scheduling invariant only reads the task table, the ready
/// queue, the running slot, the wait queues and the wheel: two kernels
/// equal there satisfy it together.
pub proof fn lemma_sched_wf_unchanged(pre: Kernel, post: Kernel)
    requires
        pre.sched_wf(),
        post.tasks == pre.tasks,
        post.ready_queue == pre.ready_queue,
        post.current == pre.current,
        post.wait_queues == pre.wait_queues,
        post.timers == pre.timers,
    ensures
        post.sched_wf(),
{
    reveal(Kernel::c_ready_entries);
    reveal(Kernel::c_ready_complete);
    reveal(Kernel::c_ready_nodup);
    reveal(Kernel::c_current);
    reveal(Kernel::c_running_current);
    reveal(Kernel::c_queue_entries);
    reveal(Kernel::c_queue_nodup);
    reveal(Kernel::c_blocked);
    reveal(Kernel::c_timer_entries);
    reveal(Kernel::c_timer_nodup);
    reveal(Kernel::c_timer_sorted);
    reveal(Kernel::c_exited);
    assert forall|t2: usize|
        t2 < post.task_count() && (#[trigger] post.task(t2 as int)).task_status
        is Ready implies post.ready_queue@.contains(t2) by {
        assert(pre.task(t2 as int).task_status is Ready);
    }
    assert forall|t2: usize|
        t2 < post.task_count() && (#[trigger] post.task(t2 as int)).task_status
        is Running implies post.current == Some(t2) by {
        assert(pre.task(t2 as int).task_status is Running);
    }
    assert forall|t2: usize|
        t2 < post.task_count() && (#[trigger] post.task(t2 as int)).blocked_on@
        is Some implies {
        &&& post.task(t2 as int).task_status is Blocked
        &&& post.task(t2 as int).exit_code is None
        &&& match post.task(t2 as int).blocked_on@->Some_0 {
            WaitSite::Queue(sq) => post.in_queue(sq as int, t2),
            WaitSite::Timer => post.in_timers(t2),
        }
    } by {
        assert(pre.task(t2 as int).blocked_on@ is Some);
        match pre.task(t2 as int).blocked_on@->Some_0 {
            WaitSite::Queue(sq) => {
                assert(pre.in_queue(sq as int, t2));
            },
            WaitSite::Timer => {
                assert(pre.in_timers(t2));
            },
        }
    }
    assert forall|t2: usize|
        t2 < post.task_count() && (#[trigger] post.task(t2 as int)).exit_code
        is Some implies post.task(t2 as int).task_status is Blocked && post.task(
        t2 as int,
    ).blocked_on@ is None by {
        assert(pre.task(t2 as int).exit_code is Some);
    }
}


/// The invariant survives editing a task record's payload — contexts,
/// resources — as long as its status, site and exit state stay put.
pub proof fn lemma_sched_wf_after_benign_update(pre: Kernel, post: Kernel, t: usize)
    requires
        pre.sched_wf(),
        t < pre.task_count(),
        post.tasks@ == pre.tasks@.update(t as int, post.task(t as int)),
        post.task(t as int).task_status == pre.task(t as int).task_status,
        post.task(t as int).blocked_on@ == pre.task(t as int).blocked_on@,
        post.task(t as int).exit_code == pre.task(t as int).exit_code,
        post.ready_queue == pre.ready_queue,
        post.current == pre.current,
        post.wait_queues == pre.wait_queues,
        post.timers == pre.timers,
    ensures
        post.sched_wf(),
{
    reveal(Kernel::c_ready_entries);
    reveal(Kernel::c_ready_complete);
    reveal(Kernel::c_ready_nodup);
    reveal(Kernel::c_current);
    reveal(Kernel::c_running_current);
    reveal(Kernel::c_queue_entries);
    reveal(Kernel::c_queue_nodup);
    reveal(Kernel::c_blocked);
    reveal(Kernel::c_timer_entries);
    reveal(Kernel::c_timer_nodup);
    reveal(Kernel::c_timer_sorted);
    reveal(Kernel::c_exited);
    assert forall|i: int|
        0 <= i < post.ready_queue@.len() implies (#[trigger] post.ready_queue@[i])
        < post.task_count() && post.task(post.ready_queue@[i] as int).task_status is Ready by {
        if post.ready_queue@[i] != t {
            assert(post.task(pre.ready_queue@[i] as int) == pre.task(pre.ready_queue@[i] as int));
        }
    }
    assert forall|t2: usize|
        t2 < post.task_count() && (#[trigger] post.task(t2 as int)).task_status
        is Ready implies post.ready_queue@.contains(t2) by {
        assert(pre.task(t2 as int).task_status is Ready);
    }
    assert forall|t2: usize|
        t2 < post.task_count() && (#[trigger] post.task(t2 as int)).task_status
        is Running implies post.current == Some(t2) by {
        assert(pre.task(t2 as int).task_status is Running);
    }
    assert forall|s: int, i: int|
        0 <= s < post.wait_queues@.len() && 0 <= i < post.wait_queues@[s]@.len() implies (
    #[trigger] post.wait_queues@[s]@[i]) < post.task_count() && post.task(
        post.wait_queues@[s]@[i] as int,
    ).blocked_on@ == Some(WaitSite::Queue(s as usize)) by {
        let w = pre.wait_queues@[s]@[i];
        assert(pre.task(w as int).blocked_on@ == Some(WaitSite::Queue(s as usize)));
    }
    assert forall|t2: usize|
        t2 < post.task_count() && (#[trigger] post.task(t2 as int)).blocked_on@
        is Some implies {
        &&& post.task(t2 as int).task_status is Blocked
        &&& post.task(t2 as int).exit_code is None
        &&& match post.task(t2 as int).blocked_on@->Some_0 {
            WaitSite::Queue(sq) => post.in_queue(sq as int, t2),
            WaitSite::Timer => post.in_timers(t2),
        }
    } by {
        assert(pre.task(t2 as int).blocked_on@ is Some);
        match pre.task(t2 as int).blocked_on@->Some_0 {
            WaitSite::Queue(sq) => {
                assert(pre.in_queue(sq as int, t2));
            },
            WaitSite::Timer => {
                assert(pre.in_timers(t2));
            },
        }
    }
    assert forall|i: int|
        0 <= i < post.timers@.len() implies (#[trigger] post.timers@[i]).task
        < post.task_count() && post.task(post.timers@[i].task as int).blocked_on@ == Some(
        WaitSite::Timer,
    ) by {
        let w = pre.timers@[i].task;
        assert(pre.task(w as int).blocked_on@ == Some(WaitSite::Timer));
    }
    assert forall|t2: usize|
        t2 < post.task_count() && (#[trigger] post.task(t2 as int)).exit_code
        is Some implies post.task(t2 as int).task_status is Blocked && post.task(
        t2 as int,
    ).blocked_on@ is None by {
        assert(pre.task(t2 as int).exit_code is Some);
    }
}


impl Kernel {
    /// A kernel right after boot: nothing scheduled, nothing mapped
    /// but the bare kernel space, the clock at zero.
    pub fn new(strampoline: PhysPageNum) -> (k: Kernel)
        ensures
            k.sched_wf(),
            k.task_count() == 0,
            k.processes@.len() == 0,
            k.ready_queue@.len() == 0,
            k.current is None,
            k.wait_queues@.len() == 0,
            k.timers@.len() == 0,
            k.time_ms == 0,
            k.pid_allocator.wf(),
            k.kstack_allocator.wf(),
            k.frame_allocator.wf(),
    {
        let k = Kernel {
            processes: Vec::new(),
            pid_allocator: RecycleAllocator::new(),
            kstack_allocator: RecycleAllocator::new(),
            frame_allocator: StackFrameAllocator::new(),
            kernel_space: MemorySet::new_bare(),
            tasks: Vec::new(),
            ready_queue: Vec::new(),
            current: None,
            wait_queues: Vec::new(),
            timers: Vec::new(),
            pipes: Vec::new(),
            time_ms: 0,
            strampoline,
            initproc_pid: 0,
        };
        proof {
            reveal(Kernel::c_ready_entries);
            reveal(Kernel::c_ready_complete);
            reveal(Kernel::c_ready_nodup);
            reveal(Kernel::c_current);
            reveal(Kernel::c_running_current);
            reveal(Kernel::c_queue_entries);
            reveal(Kernel::c_queue_nodup);
            reveal(Kernel::c_blocked);
            reveal(Kernel::c_timer_entries);
            reveal(Kernel::c_timer_nodup);
            reveal(Kernel::c_timer_sorted);
            reveal(Kernel::c_exited);
        }
        k
    }
}

/// A fresh thread record in limbo: not yet enqueued, blocked on
/// nothing, not exited.
pub fn new_task_record(
    res: Option<crate::task::TaskUserRes>,
    task_cx: crate::task::TaskContext,
    trap_cx: crate::task::TrapContext,
    trap_cx_ppn: u64,
    pid: u64,
    kstack_id: u64,
) -> (r: TaskControlBlockInner)
    ensures
        r.res == res,
        r.task_cx == task_cx,
        r.trap_cx == trap_cx,
        r.trap_cx_ppn == trap_cx_ppn,
        r.pid == pid,
        r.kstack_id == kstack_id,
        r.task_status is Blocked,
        r.blocked_on@ is None,
        r.exit_code is None,
{
    TaskControlBlockInner {
        res,
        task_status: TaskStatus::Blocked,
        task_cx,
        trap_cx_ppn,
        exit_code: None,
        trap_cx,
        blocked_on: Ghost(None),
        pid,
        kstack_id,
    }
}


/// The invariant survives recording an exit code on a parked task.
pub proof fn lemma_sched_wf_after_exit_mark(pre: Kernel, post: Kernel, t: usize)
    requires
        pre.sched_wf(),
        t < pre.task_count(),
        pre.task(t as int).task_status is Blocked,
        pre.task(t as int).blocked_on@ is None,
        post.tasks@ == pre.tasks@.update(t as int, post.task(t as int)),
        post.task(t as int).task_status is Blocked,
        post.task(t as int).blocked_on@ is None,
        post.ready_queue == pre.ready_queue,
        post.current == pre.current,
        post.wait_queues == pre.wait_queues,
        post.timers == pre.timers,
    ensures
        post.sched_wf(),
{
    reveal(Kernel::c_ready_entries);
    reveal(Kernel::c_ready_complete);
    reveal(Kernel::c_ready_nodup);
    reveal(Kernel::c_current);
    reveal(Kernel::c_running_current);
    reveal(Kernel::c_queue_entries);
    reveal(Kernel::c_queue_nodup);
    reveal(Kernel::c_blocked);
    reveal(Kernel::c_timer_entries);
    reveal(Kernel::c_timer_nodup);
    reveal(Kernel::c_timer_sorted);
    reveal(Kernel::c_exited);
    assert forall|i: int|
        0 <= i < post.ready_queue@.len() implies (#[trigger] post.ready_queue@[i])
        < post.task_count() && post.task(post.ready_queue@[i] as int).task_status is Ready by {
        assert(pre.ready_queue@[i] != t);
    }
    assert forall|t2: usize|
        t2 < post.task_count() && (#[trigger] post.task(t2 as int)).task_status
        is Ready implies post.ready_queue@.contains(t2) by {
        assert(t2 != t);
        assert(pre.task(t2 as int).task_status is Ready);
    }
    assert forall|t2: usize|
        t2 < post.task_count() && (#[trigger] post.task(t2 as int)).task_status
        is Running implies post.current == Some(t2) by {
        assert(t2 != t);
        assert(pre.task(t2 as int).task_status is Running);
    }
    assert forall|s: int, i: int|
        0 <= s < post.wait_queues@.len() && 0 <= i < post.wait_queues@[s]@.len() implies (
    #[trigger] post.wait_queues@[s]@[i]) < post.task_count() && post.task(
        post.wait_queues@[s]@[i] as int,
    ).blocked_on@ == Some(WaitSite::Queue(s as usize)) by {
        let w = pre.wait_queues@[s]@[i];
        assert(pre.task(w as int).blocked_on@ == Some(WaitSite::Queue(s as usize)));
        assert(w != t);
    }
    assert forall|t2: usize|
        t2 < post.task_count() && (#[trigger] post.task(t2 as int)).blocked_on@
        is Some implies {
        &&& post.task(t2 as int).task_status is Blocked
        &&& post.task(t2 as int).exit_code is None
        &&& match post.task(t2 as int).blocked_on@->Some_0 {
            WaitSite::Queue(sq) => post.in_queue(sq as int, t2),
            WaitSite::Timer => post.in_timers(t2),
        }
    } by {
        assert(t2 != t);
        match pre.task(t2 as int).blocked_on@->Some_0 {
            WaitSite::Queue(sq) => {
                assert(pre.in_queue(sq as int, t2));
            },
            WaitSite::Timer => {
                assert(pre.in_timers(t2));
            },
        }
    }
    assert forall|i: int|
        0 <= i < post.timers@.len() implies (#[trigger] post.timers@[i]).task
        < post.task_count() && post.task(post.timers@[i].task as int).blocked_on@ == Some(
        WaitSite::Timer,
    ) by {
        let w = pre.timers@[i].task;
        assert(pre.task(w as int).blocked_on@ == Some(WaitSite::Timer));
        assert(w != t);
    }
    assert forall|t2: usize|
        t2 < post.task_count() && (#[trigger] post.task(t2 as int)).exit_code
        is Some implies post.task(t2 as int).task_status is Blocked && post.task(
        t2 as int,
    ).blocked_on@ is None by {
        if t2 != t {
            assert(post.task(t2 as int) == pre.task(t2 as int));
        }
    }
}

} // verus!
