//! Process state: the process control block, its file-descriptor
//! table, signal state, synchronisation-object tables and thread
//! table.

use vstd::prelude::*;

use crate::id::RecycleAllocator;
use crate::memory_set::MemorySet;
use crate::signal::SignalState;
use crate::sync::{Condvar, MutexObj, Semaphore};

verus! {

/// What a file descriptor stands for.
#[derive(Clone, Copy, PartialEq, Eq, Structural, Debug)]
pub enum FdKind {
    /// The console input.
    Stdin,
    /// The console output.
    Stdout,
    /// The read end of the pipe with the given index.
    PipeRead(usize),
    /// The write end of the pipe with the given index.
    PipeWrite(usize),
    /// A listening network port slot.
    Port(usize),
}

/// The mutable state of a process.
pub struct ProcessControlBlockInner {
    /// Whether the process has exited and awaits reaping.
    pub is_zombie: bool,
    /// The process's address space.
    pub memory_set: MemorySet,
    /// Base of the user-stack region, from program load.
    pub base_size: u64,
    /// The parent process, if still recorded.
    pub parent: Option<u64>,
    /// The child processes, owned.
    pub children: Vec<u64>,
    /// The exit code, once zombie.
    pub exit_code: i64,
    /// Capabilities by file descriptor.
    pub fd_table: Vec<Option<FdKind>>,
    /// The process's signal state.
    pub signals: SignalState,
    /// Issues thread ids.
    pub task_res_allocator: RecycleAllocator,
    /// Thread table: thread id to the kernel's task index.
    pub tasks: Vec<Option<usize>>,
    /// Mutexes by handle.
    pub mutex_list: Vec<Option<MutexObj>>,
    /// Semaphores by handle.
    pub semaphore_list: Vec<Option<Semaphore>>,
    /// Condition variables by handle.
    pub condvar_list: Vec<Option<Condvar>>,
}

/// A process: its immutable id and its mutable state.
pub struct ProcessControlBlock {
    /// The process id.
    pub pid: u64,
    /// The mutable state.
    pub inner: ProcessControlBlockInner,
}

impl ProcessControlBlock {
    /// The process id.
    pub fn getpid(&self) -> (r: u64)
        ensures
            r == self.pid,
    {
        self.pid
    }
}

impl ProcessControlBlockInner {
    /// Hand out the lowest free file descriptor, growing the table by
    /// one empty slot when none is free. The returned slot is empty.
    pub fn alloc_fd(&mut self) -> (r: usize)
        ensures
            r < final(self).fd_table@.len(),
            final(self).fd_table@[r as int] is None,
            forall|i: int|
                0 <= i < old(self).fd_table@.len() ==> final(self).fd_table@[i] == old(
                    self,
                ).fd_table@[i],
            final(self).fd_table@.len() == old(self).fd_table@.len() || final(self).fd_table@.len()
                == old(self).fd_table@.len() + 1,
            forall|i: int| 0 <= i < r ==> (#[trigger] old(self).fd_table@[i]) is Some,
            final(self).memory_set == old(self).memory_set,
            final(self).signals == old(self).signals,
            final(self).tasks == old(self).tasks,
            final(self).is_zombie == old(self).is_zombie,
            final(self).children == old(self).children,
            final(self).mutex_list == old(self).mutex_list,
            final(self).semaphore_list == old(self).semaphore_list,
            final(self).condvar_list == old(self).condvar_list,
    {
        let count = self.fd_table.len();
        let mut i: usize = 0;
        while i < count
            invariant
                count == self.fd_table@.len(),
                i <= count,
                *self == *old(self),
                forall|j: int| 0 <= j < i ==> (#[trigger] self.fd_table@[j]) is Some,
            decreases count - i,
        {
            if self.fd_table[i].is_none() {
                return i;
            }
            i = i + 1;
        }
        self.fd_table.push(None);
        count
    }

    /// Issue a fresh thread id.
    pub fn alloc_tid(&mut self) -> (r: u64)
        requires
            old(self).task_res_allocator.wf(),
            old(self).task_res_allocator.spec_current() < 0x8000_0000_0000_0000,
        ensures
            final(self).task_res_allocator.wf(),
            !old(self).task_res_allocator.id_in_use(r),
            final(self).task_res_allocator.id_in_use(r),
            final(self).task_res_allocator.spec_current() <= old(
                self,
            ).task_res_allocator.spec_current() + 1,
            final(self).fd_table == old(self).fd_table,
            final(self).tasks == old(self).tasks,
            final(self).memory_set == old(self).memory_set,
            final(self).signals == old(self).signals,
    {
        self.task_res_allocator.alloc_id()
    }

    /// Free a thread id for reissue.
    pub fn dealloc_tid(&mut self, tid: u64)
        requires
            old(self).task_res_allocator.wf(),
            old(self).task_res_allocator.id_in_use(tid),
        ensures
            final(self).task_res_allocator.wf(),
            !final(self).task_res_allocator.id_in_use(tid),
            final(self).fd_table == old(self).fd_table,
            final(self).tasks == old(self).tasks,
            final(self).memory_set == old(self).memory_set,
            final(self).signals == old(self).signals,
    {
        self.task_res_allocator.dealloc_id(tid)
    }

    /// Number of thread slots of the process.
    pub fn thread_count(&self) -> (r: usize)
        ensures
            r == self.tasks@.len(),
    {
        self.tasks.len()
    }

    /// The kernel task index of the thread with the given id.
    pub fn get_task(&self, tid: usize) -> (r: usize)
        requires
            tid < self.tasks@.len(),
            self.tasks@[tid as int] is Some,
        ensures
            Some(r) == self.tasks@[tid as int],
    {
        let t = &self.tasks[tid];
        match t {
            Some(v) => *v,
            None => 0,
        }
    }
}

} // verus!
