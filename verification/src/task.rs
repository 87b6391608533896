//! Thread state: the saved kernel-side context of a suspended thread,
//! the trap context saved at user traps, the scheduler status, and the
//! per-thread user resources.

use vstd::prelude::*;

use crate::address::{VirtAddr, VirtPageNum};
use crate::config::{PAGE_SIZE, TRAMPOLINE, TRAMPOLINE_VPN, USER_STACK_SIZE, VPN_LIMIT};
use crate::frame_allocator::StackFrameAllocator;
use crate::memory_set::{MapType, MemorySet, MAP_PERM_R, MAP_PERM_U, MAP_PERM_W};

verus! {

/// Callee-saved registers, return address and kernel stack pointer of
/// a suspended thread: what the context switch saves and restores.
#[derive(Clone, Copy, Debug)]
pub struct TaskContext {
    /// Return address: where the switch resumes.
    pub ra: u64,
    /// Kernel stack pointer.
    pub sp: u64,
    /// Callee-saved registers s0 to s11.
    pub s: [u64; 12],
}

impl TaskContext {
    /// The all-zero context.
    pub fn zero_init() -> (r: Self)
        ensures
            r.ra == 0,
            r.sp == 0,
            forall|i: int| 0 <= i < 12 ==> r.s[i] == 0,
    {
        TaskContext { ra: 0, sp: 0, s: [0u64; 12] }
    }

    /// A context that resumes at the trap-return routine on the given
    /// kernel stack.
    pub fn goto_trap_return(kstack_ptr: u64, trap_return_pc: u64) -> (r: Self)
        ensures
            r.ra == trap_return_pc,
            r.sp == kstack_ptr,
            forall|i: int| 0 <= i < 12 ==> r.s[i] == 0,
    {
        TaskContext { ra: trap_return_pc, sp: kstack_ptr, s: [0u64; 12] }
    }
}

/// The register file and mode state saved when a thread traps into the
/// kernel, kept in the thread's trap-context page.
#[derive(Clone, Copy, Debug)]
pub struct TrapContext {
    /// General registers x0 to x31.
    pub x: [u64; 32],
    /// Saved supervisor status.
    pub sstatus: u64,
    /// Saved program counter.
    pub sepc: u64,
    /// The kernel's address-space token, for the trampoline.
    pub kernel_satp: u64,
    /// The thread's kernel stack pointer, for the trampoline.
    pub kernel_sp: u64,
    /// Address of the kernel's trap handler.
    pub trap_handler: u64,
}

impl TrapContext {
    /// The context a fresh user thread starts from: entry point in
    /// `sepc`, the user stack pointer in x2, and the kernel-side
    /// fields filled in.
    pub fn app_init_context(
        entry: u64,
        sp: u64,
        kernel_satp: u64,
        kernel_sp: u64,
        trap_handler: u64,
    ) -> (r: Self)
        ensures
            r.sepc == entry,
            r.x[2] == sp,
            forall|i: int| 0 <= i < 32 && i != 2 ==> r.x[i] == 0,
            r.kernel_satp == kernel_satp,
            r.kernel_sp == kernel_sp,
            r.trap_handler == trap_handler,
    {
        let mut x = [0u64; 32];
        x[2] = sp;
        TrapContext { x, sstatus: 0, sepc: entry, kernel_satp, kernel_sp, trap_handler }
    }

    /// Write a general register.
    pub fn set_reg(&mut self, i: usize, v: u64)
        requires
            i < 32,
        ensures
            final(self).x@ == old(self).x@.update(i as int, v),
            final(self).sstatus == old(self).sstatus,
            final(self).sepc == old(self).sepc,
            final(self).kernel_satp == old(self).kernel_satp,
            final(self).kernel_sp == old(self).kernel_sp,
            final(self).trap_handler == old(self).trap_handler,
    {
        self.x[i] = v;
    }
}

/// Scheduler state of a thread.
#[derive(Clone, Copy, PartialEq, Eq, Structural, Debug)]
pub enum TaskStatus {
    /// Waiting in the ready queue.
    Ready,
    /// Holding the processor.
    Running,
    /// Waiting on a synchronisation object or timer.
    Blocked,
}

/// Where a blocked thread waits: one of the kernel's wait queues, or
/// the timer wheel.
#[derive(Clone, Copy, PartialEq, Eq, Structural, Debug)]
pub enum WaitSite {
    /// The wait queue with the given index.
    Queue(usize),
    /// The timer wheel.
    Timer,
}

/// The per-thread user-space resources: the thread id, and the
/// placement of the thread's user stack and trap-context page.
#[derive(Clone, Copy, PartialEq, Eq, Structural, Debug)]
pub struct TaskUserRes {
    /// The thread id within its process.
    pub tid: u64,
    /// Base of the process's user-stack region.
    pub ustack_base: u64,
}

impl TaskUserRes {
    /// Low end of this thread's user stack: stacks follow each other
    /// upward from the base, a guard page between any two.
    pub open spec fn spec_ustack_bottom(self) -> int {
        self.ustack_base + self.tid * (PAGE_SIZE + USER_STACK_SIZE)
    }

    /// High end (exclusive) of this thread's user stack.
    pub open spec fn spec_ustack_top(self) -> int {
        self.spec_ustack_bottom() + USER_STACK_SIZE
    }

    /// Virtual address of this thread's trap-context page: pages grow
    /// downwards from just below the trampoline, one per thread id.
    pub open spec fn spec_trap_cx_va(self) -> int {
        TRAMPOLINE - (self.tid + 1) * PAGE_SIZE
    }

    /// See [`TaskUserRes::spec_ustack_bottom`].
    pub fn ustack_bottom(&self) -> (r: u64)
        requires
            self.ustack_base < 0x80_0000_0000,
            self.tid < 0x1000,
        ensures
            r == self.spec_ustack_bottom(),
    {
        proof {
            assert(self.tid * (PAGE_SIZE + USER_STACK_SIZE) <= 0x1000 * (PAGE_SIZE
                + USER_STACK_SIZE)) by (nonlinear_arith)
                requires
                    self.tid <= 0x1000,
            ;
        }
        self.ustack_base + self.tid * (4096 + 8192)
    }

    /// See [`TaskUserRes::spec_ustack_top`].
    pub fn ustack_top(&self) -> (r: u64)
        requires
            self.ustack_base < 0x80_0000_0000,
            self.tid < 0x1000,
        ensures
            r == self.spec_ustack_top(),
    {
        self.ustack_bottom() + 8192
    }

    /// See [`TaskUserRes::spec_trap_cx_va`].
    pub fn trap_cx_user_va(&self) -> (r: u64)
        requires
            self.tid < 0x1000,
        ensures
            r == self.spec_trap_cx_va(),
    {
        proof {
            assert((self.tid + 1) * PAGE_SIZE <= 0x1001 * PAGE_SIZE) by (nonlinear_arith)
                requires
                    self.tid < 0x1000,
            ;
        }
        let top: u64 = TRAMPOLINE - (self.tid + 1) * 4096;
        top
    }
}

/// The kernel-side record of one thread: its user resources, scheduler
/// status, saved contexts and exit state. The trap context lives in
/// the thread's trap-context page; here it is held by value.
pub struct TaskControlBlockInner {
    /// User resources, until the thread gives them up on exit.
    pub res: Option<TaskUserRes>,
    /// Scheduler status.
    pub task_status: TaskStatus,
    /// Saved kernel-side context while the thread is off the
    /// processor.
    pub task_cx: TaskContext,
    /// Physical page of the thread's trap context.
    pub trap_cx_ppn: u64,
    /// Exit code once the thread has exited.
    pub exit_code: Option<i64>,
    /// The thread's trap context.
    pub trap_cx: TrapContext,
    /// Which site the thread is blocked on, while it is.
    pub blocked_on: Ghost<Option<WaitSite>>,
    /// The process the thread belongs to.
    pub pid: u64,
    /// The kernel-stack slot the thread occupies.
    pub kstack_id: u64,
}

impl TaskControlBlockInner {
    /// The thread's trap context.
    pub fn get_trap_cx(&self) -> (r: TrapContext)
        ensures
            r == self.trap_cx,
    {
        self.trap_cx
    }
}

impl TaskUserRes {
    /// Map this thread's user resources into the given space: the
    /// user stack, user-reachable read-write, and the thread's
    /// trap-context page just below the trampoline, kernel-only
    /// read-write. The space's existing areas must all sit below the
    /// stack, as a process image does.
    pub fn alloc_user_res(&self, ms: &mut MemorySet, a: &mut StackFrameAllocator)
        requires
            old(ms).wf(),
            old(a).wf(),
            old(ms).frames_owned_by(*old(a)),
            self.tid < 0x1000,
            self.ustack_base < 0x80_0000_0000,
            self.ustack_base % PAGE_SIZE == 0,
            self.spec_ustack_top() <= (TRAMPOLINE_VPN - 1 - self.tid) * PAGE_SIZE,
            forall|k: int|
                0 <= k < old(ms).areas_view().len() ==> (#[trigger] old(
                    ms,
                ).areas_view()[k]).end() <= self.spec_ustack_bottom() / (PAGE_SIZE as int),
            old(a).spec_avail() >= 3,
        ensures
            final(ms).wf(),
            final(a).wf(),
            final(ms).frames_owned_by(*final(a)),
            final(ms).tramp() == old(ms).tramp(),
            final(ms).pt().spec_token() == old(ms).pt().spec_token(),
            final(a).spec_end() == old(a).spec_end(),
            final(a).spec_avail() == old(a).spec_avail() - 3,
            final(ms).areas_view().len() == old(ms).areas_view().len() + 2,
            forall|k: int|
                0 <= k < old(ms).areas_view().len() ==> final(ms).areas_view()[k] == old(
                    ms,
                ).areas_view()[k],
            ({
                let st = final(ms).areas_view()[old(ms).areas_view().len() as int];
                &&& st.start() == self.spec_ustack_bottom() / (PAGE_SIZE as int)
                &&& st.end() == self.spec_ustack_top() / (PAGE_SIZE as int)
                &&& st.spec_map_type() == MapType::Framed
                &&& st.perm() == (MAP_PERM_R | MAP_PERM_W | MAP_PERM_U)
            }),
            ({
                let tp = final(ms).areas_view().last();
                &&& tp.start() == TRAMPOLINE_VPN - 1 - self.tid
                &&& tp.end() == TRAMPOLINE_VPN - self.tid
                &&& tp.spec_map_type() == MapType::Framed
                &&& tp.perm() == (MAP_PERM_R | MAP_PERM_W)
            }),
            forall|v: u64| v < VPN_LIMIT && old(ms).spec_mapped(v) ==> final(ms).spec_mapped(v),
    {
        proof {
            assert(self.tid * (PAGE_SIZE + USER_STACK_SIZE) <= 0x1000 * (PAGE_SIZE
                + USER_STACK_SIZE)) by (nonlinear_arith)
                requires
                    self.tid <= 0x1000,
            ;
            let bot = self.spec_ustack_bottom();
            assert(bot % 4096 == 0 && (bot + 8192) % 4096 == 0) by (nonlinear_arith)
                requires
                    bot == self.ustack_base + self.tid * 12288,
                    self.ustack_base % 4096 == 0,
                    self.tid >= 0,
                    self.ustack_base >= 0,
            ;
            assert((bot + 8192 + 4095) / 4096 == (bot + 8192) / 4096 && (bot + 8192) / 4096
                == bot / 4096 + 2) by (nonlinear_arith)
                requires
                    bot % 4096 == 0,
                    bot >= 0,
            ;
            vstd::arithmetic::div_mod::lemma_div_is_ordered(
                bot + 8192,
                (TRAMPOLINE_VPN - 1 - self.tid) * 4096,
                4096,
            );
            assert(((TRAMPOLINE_VPN - 1 - self.tid) as int * 4096) / 4096 == TRAMPOLINE_VPN - 1
                - self.tid) by (nonlinear_arith)
                requires
                    self.tid < 0x1000,
            ;
        }
        let bottom = self.ustack_bottom();
        let top = self.ustack_top();
        ms.insert_framed_area(
            VirtAddr(bottom),
            VirtAddr(top),
            MAP_PERM_R | MAP_PERM_W | MAP_PERM_U,
            a,
        );
        let tp_lo: u64 = (0x7ff_fffe - self.tid) * 4096;
        proof {
            assert(tp_lo / 4096 == 0x7ff_fffe - self.tid && (tp_lo + 4096 + 4095) / 4096
                == 0x7ff_ffff - self.tid) by (nonlinear_arith)
                requires
                    tp_lo == (0x7ff_fffe - self.tid) * 4096,
                    self.tid < 0x1000,
            ;
        }
        ms.insert_framed_area(VirtAddr(tp_lo), VirtAddr(tp_lo + 4096), MAP_PERM_R | MAP_PERM_W, a);
    }

    /// Unmap this thread's user resources: the user stack and the
    /// trap-context page leave the space, if present, and their
    /// frames return to the pool. Each flag reports whether the
    /// matching area was there.
    pub fn dealloc_user_res(&self, ms: &mut MemorySet, a: &mut StackFrameAllocator) -> (r: (
        bool,
        bool,
    ))
        requires
            old(ms).wf(),
            old(a).wf(),
            old(ms).frames_owned_by(*old(a)),
            self.tid < 0x1000,
            self.ustack_base < 0x80_0000_0000,
            self.spec_ustack_top() <= (TRAMPOLINE_VPN - 1 - self.tid) * PAGE_SIZE,
        ensures
            final(ms).wf(),
            final(a).wf(),
            final(ms).frames_owned_by(*final(a)),
            final(ms).tramp() == old(ms).tramp(),
            final(ms).pt().spec_token() == old(ms).pt().spec_token(),
            final(a).spec_end() == old(a).spec_end(),
            final(a).spec_current() == old(a).spec_current(),
            r.0 <==> exists|k: int|
                0 <= k < old(ms).areas_view().len() && (#[trigger] old(
                    ms,
                ).areas_view()[k].start()) == self.spec_ustack_bottom() / (PAGE_SIZE as int),
            r.1 <==> exists|k: int|
                0 <= k < old(ms).areas_view().len() && (#[trigger] old(
                    ms,
                ).areas_view()[k].start()) == TRAMPOLINE_VPN - 1 - self.tid,
            !r.0 && !r.1 ==> *final(ms) == *old(ms) && *final(a) == *old(a),
    {
        proof {
            assert(self.tid * (PAGE_SIZE + USER_STACK_SIZE) <= 0x1000 * (PAGE_SIZE
                + USER_STACK_SIZE)) by (nonlinear_arith)
                requires
                    self.tid <= 0x1000,
            ;
            let bot = self.spec_ustack_bottom();
            assert(bot / 4096 < TRAMPOLINE_VPN - 1 - self.tid) by (nonlinear_arith)
                requires
                    0 <= bot,
                    bot + 8192 <= (TRAMPOLINE_VPN - 1 - self.tid) * 4096,
                    self.tid < 0x1000,
                    TRAMPOLINE_VPN == 0x7ff_ffff,
            ;
        }
        let bottom = self.ustack_bottom();
        let ghost pre = *ms;
        let ghost stack_vpn: u64 = (self.spec_ustack_bottom() / (PAGE_SIZE as int)) as u64;
        let ghost trap_vpn: u64 = (TRAMPOLINE_VPN - 1 - self.tid) as u64;
        let r0 = ms.remove_area_with_start_vpn(VirtPageNum(bottom / 4096), a);
        proof {
            if r0 {
                let kk = choose|k: int|
                    {
                        &&& 0 <= k < pre.areas_view().len()
                        &&& (#[trigger] pre.areas_view()[k].start()) == stack_vpn
                        &&& ms.areas_view() == pre.areas_view().remove(k)
                        &&& forall|v: u64|
                            pre.areas_view()[k].covers(v) ==> !ms.spec_mapped(v)
                        &&& forall|v: u64|
                            v < VPN_LIMIT && !pre.areas_view()[k].covers(v)
                                ==> #[trigger] ms.spec_mapped(v) == pre.spec_mapped(v)
                        &&& forall|q: u64|
                            pre.areas_view()[k].owns_frame(q) ==> !a.allocated(q)
                        &&& forall|q: u64|
                            !pre.areas_view()[k].owns_frame(q) ==> a.allocated(q) == old(
                                a,
                            ).allocated(q)
                        &&& a.spec_avail() == old(a).spec_avail() + pre.areas_view()[
                            k].frames().len()
                    };
                assert(pre.areas_view()[kk].start() != trap_vpn);
                assert forall|j: int|
                    0 <= j < ms.areas_view().len() && (#[trigger] ms.areas_view()[j].start())
                        == trap_vpn implies exists|k2: int|
                    0 <= k2 < pre.areas_view().len() && (#[trigger] pre.areas_view()[k2].start())
                        == trap_vpn by {
                    let o = if j < kk {
                        j
                    } else {
                        j + 1
                    };
                    assert(pre.areas_view()[o].start() == trap_vpn);
                }
                assert forall|j: int|
                    0 <= j < pre.areas_view().len() && (#[trigger] pre.areas_view()[j].start())
                        == trap_vpn implies exists|k2: int|
                    0 <= k2 < ms.areas_view().len() && (#[trigger] ms.areas_view()[k2].start())
                        == trap_vpn by {
                    assert(j != kk);
                    let n = if j < kk {
                        j
                    } else {
                        j - 1
                    };
                    assert(ms.areas_view()[n].start() == trap_vpn);
                }
            } else {
                assert(*ms == pre);
            }
        }
        let tpv: u64 = 0x7ff_fffe - self.tid;
        let r1 = ms.remove_area_with_start_vpn(VirtPageNum(tpv), a);
        (r0, r1)
    }
}

} // verus!
