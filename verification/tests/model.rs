use rvos::address::{PhysAddr, PhysPageNum, VirtAddr, VirtPageNum};
use rvos::frame_allocator::{frame_alloc, frame_dealloc, StackFrameAllocator};
use rvos::id::{kernel_stack_position, RecycleAllocator};
use rvos::kernel::{new_task_record, Kernel};
use rvos::memory_set::{MapArea, MapType, MemorySet, MAP_PERM_R, MAP_PERM_U, MAP_PERM_W};
use rvos::net::{
    accept, get_seq_ack_by_index, listen, pop_data, port_acceptable, push_data, remove_socket,
    set_seq_ack_by_index, NetTables, PortFd, Socket,
};
use rvos::page_table::{PageTableEntry, PTE_V, PTE_W};
use rvos::pipe::Pipe;
use rvos::process::{ProcessControlBlock, ProcessControlBlockInner};
use rvos::signal::{check_pending_signals, SignalAction, SignalState};
use rvos::syscall::{
    check_signal_error_of_current, current_add_signal, handle_signals, sys_condvar_create,
    sys_condvar_signal, sys_get_time, sys_getpid, sys_kill, sys_mutex_create, sys_mutex_lock,
    sys_mutex_unlock, sys_semaphore_create, sys_semaphore_down, sys_semaphore_up, sys_sigaction,
    sys_sigprocmask, sys_sigreturn, sys_sleep, sys_yield,
};
use rvos::syscall::{
    exit_current_and_run_next, sys_close, sys_dup, sys_fork, sys_pipe, sys_read, sys_waitpid,
    sys_thread_create, sys_waittid, sys_write, trap_dispatch, TrapAction, TrapCause,
};
use rvos::task::{TaskContext, TaskStatus, TrapContext};

fn fresh_allocator(frames: u64) -> StackFrameAllocator {
    let mut a = StackFrameAllocator::new();
    a.init(PhysPageNum(0x80000), PhysPageNum(0x80000 + frames));
    a
}

fn bare_process(pid: u64) -> ProcessControlBlock {
    ProcessControlBlock {
        pid,
        inner: ProcessControlBlockInner {
            is_zombie: false,
            memory_set: MemorySet::new_bare(),
            base_size: 0,
            parent: None,
            children: Vec::new(),
            exit_code: 0,
            fd_table: Vec::new(),
            signals: SignalState::new(),
            task_res_allocator: RecycleAllocator::new(),
            tasks: Vec::new(),
            mutex_list: Vec::new(),
            semaphore_list: Vec::new(),
            condvar_list: Vec::new(),
        },
    }
}

/// A kernel with one process and `n` threads; thread 0 is running.
fn boot_kernel(n: usize) -> Kernel {
    let mut k = Kernel::new(PhysPageNum(0x80200));
    k.processes.push(Some(bare_process(0)));
    for i in 0..n {
        let rec = new_task_record(
            None,
            TaskContext::zero_init(),
            TrapContext::app_init_context(0x1000, 0x2000, 0, 0, 0),
            0x81000 + i as u64,
            0,
            i as u64,
        );
        let t = k.spawn_task(rec);
        k.add_task(t);
    }
    k.fetch_next();
    k
}

#[test]
fn address_floor_ceil_offsets() {
    assert_eq!(VirtAddr(0x1234).floor().0, 1);
    assert_eq!(VirtAddr(0x1234).ceil().0, 2);
    assert_eq!(VirtAddr(0x2000).ceil().0, 2);
    assert_eq!(VirtAddr(0x1234).page_offset(), 0x234);
    assert!(VirtAddr(0x3000).aligned());
    assert!(!PhysAddr(0x3001).aligned());
    assert_eq!(PhysAddr(0x80200123).floor().0, 0x80200);
}

#[test]
fn vpn_three_level_indexes() {
    let vpn = VirtPageNum((3 << 18) | (5 << 9) | 7);
    let idx = vpn.indexes();
    assert_eq!(idx, [3, 5, 7]);
    let top = VirtPageNum(0x7ff_ffff);
    assert_eq!(top.indexes(), [511, 511, 511]);
}

#[test]
fn pte_packs_ppn_and_flags() {
    let pte = PageTableEntry::new(PhysPageNum(0x80200), PTE_V | PTE_W);
    assert_eq!(pte.ppn().0, 0x80200);
    assert!(pte.is_valid());
    assert!(pte.writable());
    assert!(!pte.executable());
    assert!(!PageTableEntry::empty().is_valid());
}

#[test]
fn frame_allocator_returns_each_frame_once() {
    let mut a = fresh_allocator(4);
    let f0 = frame_alloc(&mut a).unwrap();
    let f1 = frame_alloc(&mut a).unwrap();
    assert_ne!(f0.ppn.0, f1.ppn.0);
    let p0 = f0.ppn;
    frame_dealloc(&mut a, f0);
    // the freed frame is handed out again, zeroed
    let f2 = frame_alloc(&mut a).unwrap();
    assert_eq!(f2.ppn.0, p0.0);
    assert_eq!(f2.read_byte(0), 0);
    assert_eq!(f2.read_byte(4095), 0);
}

#[test]
fn frame_allocator_exhausts_exactly() {
    let mut a = fresh_allocator(2);
    assert!(frame_alloc(&mut a).is_some());
    assert!(frame_alloc(&mut a).is_some());
    assert!(frame_alloc(&mut a).is_none());
}

#[test]
fn recycle_allocator_reissues_freed_ids() {
    let mut r = RecycleAllocator::new();
    let a = r.alloc_id();
    let b = r.alloc_id();
    assert_eq!((a, b), (0, 1));
    r.dealloc_id(a);
    assert_eq!(r.alloc_id(), 0);
    assert_eq!(r.alloc_id(), 2);
}

#[test]
fn kernel_stacks_descend_with_guard_gaps() {
    let (b0, t0) = kernel_stack_position(0);
    let (_b1, t1) = kernel_stack_position(1);
    assert_eq!(t0, 0xffff_ffff_ffff_f000);
    assert_eq!(t0 - b0, 8192);
    assert_eq!(t0 - t1, 8192 + 4096);
    assert!(t1 < b0);
}

#[test]
fn translate_covers_exactly_the_mapped_area() {
    let mut a = fresh_allocator(16);
    let mut ms = MemorySet::new_bare();
    ms.map_trampoline(PhysPageNum(0x80200));
    ms.insert_framed_area(
        VirtAddr(0x10000),
        VirtAddr(0x13000),
        MAP_PERM_R | MAP_PERM_W | MAP_PERM_U,
        &mut a,
    );
    // pages 0x10..0x12 are covered, their entries valid
    for v in 0x10u64..0x13u64 {
        let pte = ms.translate(VirtPageNum(v)).unwrap();
        assert!(pte.is_valid());
    }
    // a page outside every area is not mapped
    let outside = ms.translate(VirtPageNum(0x20));
    assert!(outside.is_none() || !outside.unwrap().is_valid());
}

#[test]
fn child_space_shares_no_frame_with_parent() {
    let mut a = fresh_allocator(64);
    let mut parent = MemorySet::new_bare();
    parent.map_trampoline(PhysPageNum(0x80200));
    let data: Vec<u8> = vec![0xde, 0xad, 0xbe, 0xef];
    let area = MapArea::new(
        VirtAddr(0x10000),
        VirtAddr(0x12000),
        MapType::Framed,
        MAP_PERM_R | MAP_PERM_W | MAP_PERM_U,
    );
    parent.push(area, Some(&data), &mut a);
    let child = MemorySet::from_existed_user(&parent, &mut a);
    for v in 0x10u64..0x12u64 {
        let ppn_parent = parent.translate(VirtPageNum(v)).unwrap().ppn().0;
        let ppn_child = child.translate(VirtPageNum(v)).unwrap().ppn().0;
        assert_ne!(ppn_parent, ppn_child);
    }
    assert_eq!(child.token(), parent.token());
}

#[test]
fn scheduler_rotates_fifo() {
    let mut k = boot_kernel(3);
    assert_eq!(k.current, Some(0));
    assert_eq!(k.ready_queue, vec![1, 2]);
    sys_yield(&mut k);
    assert_eq!(k.current, Some(1));
    assert_eq!(k.ready_queue, vec![2, 0]);
    sys_yield(&mut k);
    assert_eq!(k.current, Some(2));
    assert_eq!(k.ready_queue, vec![0, 1]);
}

#[test]
fn a_thread_sits_in_one_place_only() {
    let mut k = boot_kernel(2);
    let m = sys_mutex_create(&mut k, true) as usize;
    sys_mutex_lock(&mut k, m); // thread 0 takes the mutex
    sys_yield(&mut k); // thread 1 runs
    sys_mutex_lock(&mut k, m); // thread 1 blocks on the mutex
    // thread 1 is in exactly one wait queue and nowhere else
    let t1_in_ready = k.ready_queue.iter().filter(|t| **t == 1).count();
    let t1_in_queues: usize = k.wait_queues.iter().map(|q| {
        q.iter().filter(|t| **t == 1).count()
    }).sum();
    let t1_in_timers = k.timers.iter().filter(|tc| tc.task == 1).count();
    let t1_running = if k.current == Some(1) { 1 } else { 0 };
    assert_eq!(t1_in_ready + t1_in_queues + t1_in_timers + t1_running, 1);
    assert_eq!(t1_in_queues, 1);
    assert!(matches!(k.tasks[1].task_status, TaskStatus::Blocked));
}

#[test]
fn blocking_mutex_wakes_waiters_in_arrival_order() {
    let mut k = boot_kernel(3);
    let m = sys_mutex_create(&mut k, true) as usize;
    sys_mutex_lock(&mut k, m); // thread 0 holds the mutex
    sys_yield(&mut k); // thread 1 runs
    sys_mutex_lock(&mut k, m); // thread 1 queues first
    assert_eq!(k.current, Some(2));
    sys_mutex_lock(&mut k, m); // thread 2 queues second
    assert_eq!(k.current, Some(0));
    let ready_before = k.ready_queue.clone();
    sys_mutex_unlock(&mut k, m); // hands the mutex to thread 1, not thread 2
    assert_eq!(k.ready_queue.last(), Some(&1));
    assert_eq!(&k.ready_queue[..ready_before.len()], &ready_before[..]);
    sys_mutex_unlock(&mut k, m); // then thread 2
    assert_eq!(k.ready_queue.last(), Some(&2));
}

#[test]
fn semaphore_counts_and_blocks() {
    let mut k = boot_kernel(2);
    let s = sys_semaphore_create(&mut k, 1) as usize;
    sys_semaphore_down(&mut k, s); // takes the unit, stays running
    assert_eq!(k.current, Some(0));
    sys_yield(&mut k);
    assert_eq!(k.current, Some(1));
    sys_semaphore_down(&mut k, s); // no unit left: thread 1 blocks
    assert!(matches!(k.tasks[1].task_status, TaskStatus::Blocked));
    assert_eq!(k.current, Some(0));
    sys_semaphore_up(&mut k, s); // wakes thread 1
    assert!(matches!(k.tasks[1].task_status, TaskStatus::Ready));
}

#[test]
fn condvar_signal_on_empty_queue_is_a_no_op() {
    let mut k = boot_kernel(1);
    let cv = sys_condvar_create(&mut k) as usize;
    let before_ready = k.ready_queue.clone();
    sys_condvar_signal(&mut k, cv);
    assert_eq!(k.ready_queue, before_ready);
}

#[test]
fn sleepers_wake_in_expiry_order() {
    let mut k = boot_kernel(3);
    sys_sleep(&mut k, 30); // thread 0 wakes at 30
    sys_sleep(&mut k, 10); // thread 1 wakes at 10
    assert_eq!(k.current, Some(2));
    assert_eq!(k.timers.len(), 2);
    k.time_ms = 50;
    k.check_timer();
    // both expired: the earlier expiry is enqueued first
    let n = k.ready_queue.len();
    assert_eq!(&k.ready_queue[n - 2..], &[1, 0]);
    assert_eq!(k.timers.len(), 0);
}

#[test]
fn signal_delivery_never_nests_into_a_masked_signal() {
    let mut st = SignalState::new();
    let mut cx = TrapContext::app_init_context(0x5000, 0x6000, 0, 0, 0);
    // a handler for signal 10 is running and masks signal 12
    st.signal_actions[10] = SignalAction { handler: 0x7000, mask: 1 << 12 };
    st.signal_actions[12] = SignalAction { handler: 0x7100, mask: 0 };
    st.handling_sig = 10;
    st.signal_recv = 1 << 12;
    let sepc_before = cx.sepc;
    check_pending_signals(&mut st, &mut cx);
    // signal 12 is covered by the running handler's mask: not entered
    assert_eq!(st.handling_sig, 10);
    assert_eq!(cx.sepc, sepc_before);
    assert_eq!(st.signal_recv, 1 << 12);
    // an uncovered signal is entered
    st.signal_recv |= 1 << 13;
    st.signal_actions[13] = SignalAction { handler: 0x7200, mask: 0 };
    check_pending_signals(&mut st, &mut cx);
    assert_eq!(st.handling_sig, 13);
    assert_eq!(cx.sepc, 0x7200);
    assert_eq!(cx.x[10], 13);
}

#[test]
fn sigreturn_restores_the_saved_trap_context() {
    let mut k = boot_kernel(1);
    let mut st = SignalState::new();
    st.signal_actions[10] = SignalAction { handler: 0x7000, mask: 0 };
    st.signal_recv = 1 << 10;
    let mut cx = k.tasks[0].get_trap_cx();
    let saved = cx;
    check_pending_signals(&mut st, &mut cx);
    assert_eq!(cx.sepc, 0x7000);
    // install the post-handler state into the kernel and return
    k.tasks[0].trap_cx = cx;
    if let Some(p) = &mut k.processes[0] {
        p.inner.signals = st;
    }
    sys_sigreturn(&mut k);
    let restored = k.tasks[0].get_trap_cx();
    assert_eq!(restored.sepc, saved.sepc);
    assert_eq!(restored.x, saved.x);
    assert_eq!(restored.kernel_sp, saved.kernel_sp);
    if let Some(p) = &k.processes[0] {
        assert_eq!(p.inner.signals.handling_sig, -1);
    }
}

#[test]
fn a_memory_fault_maps_to_its_exit_code() {
    let mut k = boot_kernel(1);
    current_add_signal(&mut k, rvos::signal::SIGSEGV);
    assert_eq!(check_signal_error_of_current(&k), Some(-11));
    handle_signals(&mut k);
}

#[test]
fn kill_posts_once_and_rejects_repeats() {
    let mut k = boot_kernel(1);
    assert_eq!(sys_kill(&mut k, 0, 10), 0);
    assert_eq!(sys_kill(&mut k, 0, 10), -1);
    assert_eq!(sys_kill(&mut k, 7, 10), -1); // no such process
    assert_eq!(sys_kill(&mut k, 0, 32), -1); // no such signal
}

#[test]
fn sigprocmask_returns_the_old_mask() {
    let mut k = boot_kernel(1);
    assert_eq!(sys_sigprocmask(&mut k, 0x55), 0);
    assert_eq!(sys_sigprocmask(&mut k, 0xaa), 0x55);
}

#[test]
fn sigaction_rejects_kill_and_stop() {
    let mut k = boot_kernel(1);
    let act = SignalAction { handler: 0x7000, mask: 0 };
    assert_eq!(sys_sigaction(&mut k, 9, act).0, -1);
    assert_eq!(sys_sigaction(&mut k, 19, act).0, -1);
    assert_eq!(sys_sigaction(&mut k, 10, act).0, 0);
    let (r, prev) = sys_sigaction(&mut k, 10, SignalAction { handler: 0, mask: 0 });
    assert_eq!(r, 0);
    assert_eq!(prev.handler, 0x7000);
}

#[test]
fn pipe_round_trips_bytes_in_order() {
    let mut p = Pipe::new();
    for b in 0x41u8..0x45u8 {
        assert!(p.push_byte(b));
    }
    let mut out = Vec::new();
    while let Some(b) = p.pop_byte() {
        out.push(b);
    }
    assert_eq!(out, vec![0x41, 0x42, 0x43, 0x44]);
    assert_eq!(out.len(), 4);
}

#[test]
fn pipe_fills_and_respects_closure() {
    let mut p = Pipe::new();
    for i in 0..32u8 {
        assert!(p.push_byte(i));
    }
    assert!(!p.push_byte(99)); // full
    p.write_closed = true;
    assert_eq!(p.pop_byte(), Some(0));
    assert!(!p.push_byte(99)); // closed
}

#[test]
fn listen_accept_and_socket_tables() {
    let mut nt = NetTables { listen_table: Vec::new(), socket_table: Vec::new() };
    let idx = listen(&mut nt, 8080).unwrap();
    assert!(!port_acceptable(&nt, idx));
    accept(&mut nt, idx, 3);
    assert!(port_acceptable(&nt, idx));
    let _fd = PortFd::new(idx);

    nt.socket_table.push(Some(Socket {
        raddr: 0x0a00020f,
        lport: 8080,
        rport: 40000,
        buffers: Vec::new(),
        seq: 0,
        ack: 0,
    }));
    push_data(&mut nt, 0, vec![1, 2]);
    push_data(&mut nt, 0, vec![3]);
    assert_eq!(pop_data(&mut nt, 0), Some(vec![1, 2]));
    assert_eq!(pop_data(&mut nt, 0), Some(vec![3]));
    assert_eq!(pop_data(&mut nt, 0), None);
    set_seq_ack_by_index(&mut nt, 0, 7, 9);
    assert_eq!(get_seq_ack_by_index(&nt, 0), Some((7, 9)));
    remove_socket(&mut nt, 0);
    assert_eq!(get_seq_ack_by_index(&nt, 0), None);
}

fn minimal_elf() -> Vec<u8> {
    let mut v = vec![0u8; 124];
    v[0..4].copy_from_slice(&[0x7f, 0x45, 0x4c, 0x46]);
    v[4] = 2; // 64-bit
    v[5] = 1; // little endian
    v[6] = 1; // version
    v[16] = 2; // executable
    v[18] = 0xf3; // RISC-V
    v[20] = 1; // version
    v[24..32].copy_from_slice(&0x10000u64.to_le_bytes()); // entry
    v[32..40].copy_from_slice(&64u64.to_le_bytes()); // phoff
    v[52] = 64; // ehsize
    v[54] = 56; // phentsize
    v[56] = 1; // phnum
    // one loadable segment
    v[64..68].copy_from_slice(&1u32.to_le_bytes()); // PT_LOAD
    v[68..72].copy_from_slice(&5u32.to_le_bytes()); // R + X
    v[72..80].copy_from_slice(&120u64.to_le_bytes()); // offset
    v[80..88].copy_from_slice(&0x10000u64.to_le_bytes()); // vaddr
    v[88..96].copy_from_slice(&0x10000u64.to_le_bytes()); // paddr
    v[96..104].copy_from_slice(&4u64.to_le_bytes()); // filesz
    v[104..112].copy_from_slice(&8u64.to_le_bytes()); // memsz
    v[112..120].copy_from_slice(&0x1000u64.to_le_bytes()); // align
    v[120..124].copy_from_slice(&[0x13, 0x00, 0x00, 0x00]); // data
    v
}

#[test]
fn load_elf_builds_the_described_space() {
    let mut a = fresh_allocator(64);
    let bytes = minimal_elf();
    let (ms, ustack_base, entry) =
        rvos::memory_set::load_elf(&bytes, PhysPageNum(0x80200), &mut a).unwrap();
    assert_eq!(entry, 0x10000);
    // one page of the segment, then a guard page, then the stack base
    assert_eq!(ustack_base, 0x11000 + 0x1000);
    let pte = ms.translate(VirtPageNum(0x10)).unwrap();
    assert!(pte.is_valid());
}

#[test]
fn load_elf_rejects_garbage() {
    let mut a = fresh_allocator(8);
    let avail_before = a.avail_frames();
    let bytes = vec![0u8; 40];
    assert!(rvos::memory_set::load_elf(&bytes, PhysPageNum(0x80200), &mut a).is_none());
    assert_eq!(a.avail_frames(), avail_before);
}

#[test]
fn leader_exit_makes_a_zombie_and_frees_its_frames() {
    let mut k = boot_kernel(2);
    k.frame_allocator = fresh_allocator(32);
    // give thread 0 user resources as the process leader
    k.tasks[0].res = Some(rvos::task::TaskUserRes { tid: 0, ustack_base: 0x20000 });
    // the exiting process must not be the first process: register one
    k.processes.push(Some(bare_process(1)));
    k.tasks[0].pid = 1;
    k.tasks[1].pid = 1;
    if let Some(p) = &mut k.processes[1] {
        let area = MapArea::new(
            VirtAddr(0x10000),
            VirtAddr(0x12000),
            MapType::Framed,
            MAP_PERM_R | MAP_PERM_W | MAP_PERM_U,
        );
        p.inner.memory_set.map_trampoline(PhysPageNum(0x80200));
        p.inner.memory_set.push(area, None, &mut k.frame_allocator);
        p.inner.children.push(7);
    }
    let avail_before = k.frame_allocator.avail_frames();
    rvos::syscall::exit_current_and_run_next(&mut k, 5);
    assert_eq!(k.tasks[0].exit_code, Some(5));
    assert!(k.tasks[0].res.is_none());
    if let Some(p) = &k.processes[1] {
        assert!(p.inner.is_zombie);
        assert_eq!(p.inner.exit_code, 5);
        assert!(p.inner.fd_table.is_empty());
        assert!(p.inner.children.is_empty());
    }
    if let Some(init) = &k.processes[0] {
        assert_eq!(init.inner.children, vec![7]);
    }
    // the two user frames went back to the pool
    assert_eq!(k.frame_allocator.avail_frames(), avail_before + 2);
    assert_eq!(k.current, Some(1));
}


#[test]
fn fork_copies_the_process_and_shares_no_frame() {
    let mut k = boot_kernel(1);
    k.frame_allocator = fresh_allocator(64);
    let ppid = k.pid_allocator.alloc_id(); // the parent's pid is on record
    assert_eq!(ppid, 0);
    if let Some(p) = &mut k.processes[0] {
        p.inner.tasks.push(Some(0));
        p.inner.signals.signal_mask = 0x30;
        p.inner.memory_set.map_trampoline(PhysPageNum(0x80200));
        let area = MapArea::new(
            VirtAddr(0x10000),
            VirtAddr(0x11000),
            MapType::Framed,
            MAP_PERM_R | MAP_PERM_W | MAP_PERM_U,
        );
        let data: Vec<u8> = vec![1, 2, 3];
        p.inner.memory_set.push(area, Some(&data), &mut k.frame_allocator);
    }
    let child = sys_fork(&mut k, 0x8020_4000);
    assert!(child >= 0);
    let cid = child as usize;
    assert_ne!(cid, 0);
    if let Some(p) = &k.processes[0] {
        assert_eq!(p.inner.children, vec![cid as u64]);
    }
    let (pp, cp) = {
        let pp = k.processes[0].as_ref().unwrap();
        let cp = k.processes[cid].as_ref().unwrap();
        (
            pp.inner.memory_set.translate(VirtPageNum(0x10)).unwrap().ppn().0,
            cp.inner.memory_set.translate(VirtPageNum(0x10)).unwrap().ppn().0,
        )
    };
    assert_ne!(pp, cp); // deep copy: no shared frame
    if let Some(cpb) = &k.processes[cid] {
        assert_eq!(cpb.inner.signals.signal_mask, 0x30);
        assert_eq!(cpb.inner.signals.signal_recv, 0);
        assert_eq!(cpb.inner.parent, Some(0));
    }
    // the child's thread sees 0 in its return register
    let t = k.tasks.len() - 1;
    assert_eq!(k.tasks[t].trap_cx.x[10], 0);
    assert!(matches!(k.tasks[t].task_status, TaskStatus::Ready));
}

#[test]
fn waitpid_reaps_the_first_matching_zombie() {
    let mut k = boot_kernel(1);
    let mut child = bare_process(1);
    child.inner.is_zombie = true;
    child.inner.exit_code = 7;
    k.processes.push(Some(child));
    k.processes.push(Some(bare_process(2)));
    if let Some(p) = &mut k.processes[0] {
        p.inner.children.push(2);
        p.inner.children.push(1);
    }
    // child 2 exists but runs on: a match that is not ready yet
    assert_eq!(sys_waitpid(&mut k, 2).0, -2);
    // no child with this pid at all
    assert_eq!(sys_waitpid(&mut k, 5).0, -1);
    // any child: the zombie is reaped, slot freed, exit code returned
    let (rp, code) = sys_waitpid(&mut k, -1);
    assert_eq!((rp, code), (1, 7));
    assert!(k.processes[1].is_none());
    if let Some(p) = &k.processes[0] {
        assert_eq!(p.inner.children, vec![2]);
    }
}

#[test]
fn process_creation_loads_and_enqueues_thread_zero() {
    let mut k = boot_kernel(1);
    k.frame_allocator = fresh_allocator(64);
    let pid = rvos::process::ProcessControlBlock::new(
        &mut k,
        &minimal_elf(),
        0x8020_3000,
        0x8020_4000,
    )
    .unwrap();
    assert!(k.processes[pid as usize].is_some());
    let t = k.tasks.len() - 1;
    assert_eq!(k.tasks[t].trap_cx.sepc, 0x10000);
    assert_eq!(k.tasks[t].trap_cx.trap_handler, 0x8020_3000);
    assert!(matches!(k.tasks[t].task_status, TaskStatus::Ready));
    assert_eq!(k.ready_queue.last(), Some(&t));
    // garbage bytes create nothing
    assert!(rvos::process::ProcessControlBlock::new(&mut k, &vec![0u8; 40], 0, 0).is_none());
}

#[test]
fn trap_dispatch_routes_each_cause() {
    let mut k = boot_kernel(2);
    k.tasks[0].trap_cx.x[17] = 124;
    k.tasks[0].trap_cx.x[10] = 5;
    let sepc0 = k.tasks[0].trap_cx.sepc;
    let act = trap_dispatch(&mut k, TrapCause::UserEnvCall);
    assert_eq!(act, TrapAction::Syscall(124, 5, 0, 0));
    assert_eq!(k.tasks[0].trap_cx.sepc, sepc0 + 4);
    // a store page fault posts the segmentation signal (exit code -11)
    let act = trap_dispatch(&mut k, TrapCause::StorePageFault);
    assert_eq!(act, TrapAction::Continue);
    assert_eq!(check_signal_error_of_current(&k), Some(-11));
    // the timer preempts: the running thread rotates to the back
    let act = trap_dispatch(&mut k, TrapCause::SupervisorTimer);
    assert_eq!(act, TrapAction::Continue);
    assert_eq!(k.current, Some(1));
}

#[test]
fn sync_calls_reject_a_bad_handle() {
    let mut k = boot_kernel(1);
    assert_eq!(rvos::syscall::sys_mutex_lock(&mut k, 3), -1);
    assert_eq!(rvos::syscall::sys_mutex_unlock(&mut k, 3), -1);
    assert_eq!(rvos::syscall::sys_semaphore_up(&mut k, 3), -1);
    assert_eq!(rvos::syscall::sys_semaphore_down(&mut k, 3), -1);
    assert_eq!(rvos::syscall::sys_condvar_signal(&mut k, 3), -1);
    assert_eq!(rvos::syscall::sys_condvar_wait(&mut k, 3, 0), -1);
}

#[test]
fn parser_rejects_truncated_and_misplaced_headers() {
    let mut a = fresh_allocator(8);
    // valid magic and 64-bit class, but only 16 bytes of header
    let mut short = vec![0u8; 16];
    short[0..4].copy_from_slice(&[0x7f, 0x45, 0x4c, 0x46]);
    short[4] = 2;
    short[5] = 1;
    assert!(rvos::elf::parse_elf(&short).is_none());
    assert!(rvos::memory_set::load_elf(&short, PhysPageNum(0x80200), &mut a).is_none());
    // program headers pointing past the end of the file
    let mut bad = minimal_elf();
    bad[32..40].copy_from_slice(&0xffff_ffff_ffff_0000u64.to_le_bytes());
    assert!(rvos::elf::parse_elf(&bad).is_none());
    // a loadable segment whose file bytes run past the end
    let mut bad2 = minimal_elf();
    bad2[96..104].copy_from_slice(&4096u64.to_le_bytes());
    assert!(rvos::elf::parse_elf(&bad2).is_none());
}


#[test]
fn pipe_syscalls_round_trip_bytes() {
    let mut k = boot_kernel(1);
    let (rfd, wfd) = sys_pipe(&mut k);
    assert!(rfd >= 0 && wfd >= 0 && rfd != wfd);
    let payload: Vec<u8> = vec![0x41, 0x42, 0x43, 0x44];
    let written = sys_write(&mut k, wfd as usize, &payload);
    assert_eq!(written, 4);
    assert_eq!(sys_close(&mut k, wfd as usize), 0);
    let (count, bytes) = sys_read(&mut k, rfd as usize, 16);
    assert_eq!(count, 4);
    assert_eq!(bytes, payload);
    // drained and the write end closed: nothing more arrives
    let (count2, _) = sys_read(&mut k, rfd as usize, 16);
    assert_eq!(count2, 0);
    // wrong directions and bad descriptors fail
    assert_eq!(sys_write(&mut k, rfd as usize, &payload), -1);
    assert_eq!(sys_read(&mut k, 99, 4).0, -1);
    let dup = sys_dup(&mut k, rfd as usize);
    assert!(dup >= 0);
}

#[test]
fn waittid_joins_an_exited_thread() {
    let mut k = boot_kernel(2);
    k.tasks[0].res = Some(rvos::task::TaskUserRes { tid: 0, ustack_base: 0x20000 });
    if let Some(p) = &mut k.processes[0] {
        p.inner.tasks.push(Some(0));
        p.inner.tasks.push(Some(1));
    }
    assert_eq!(sys_waittid(&mut k, 0), -1); // own thread
    assert_eq!(sys_waittid(&mut k, 5), -1); // no such thread
    assert_eq!(sys_waittid(&mut k, 1), -2); // still running
    k.tasks[1].exit_code = Some(9);
    k.tasks[1].task_status = TaskStatus::Blocked;
    assert_eq!(sys_waittid(&mut k, 1), 9);
    if let Some(p) = &k.processes[0] {
        assert!(p.inner.tasks[1].is_none());
    }
}


#[test]
fn thread_create_starts_at_entry_with_its_argument() {
    let mut k = boot_kernel(1);
    k.tasks[0].res = Some(rvos::task::TaskUserRes { tid: 0, ustack_base: 0x20000 });
    if let Some(p) = &mut k.processes[0] {
        p.inner.tasks.push(Some(0));
        p.inner.alloc_tid(); // thread id 0 is taken by the leader
    }
    let tid = sys_thread_create(&mut k, 0x5000, 77, 0x8020_0000, 0x8020_4000);
    assert_eq!(tid, 1);
    let t = k.tasks.len() - 1;
    assert_eq!(k.tasks[t].trap_cx.sepc, 0x5000);
    assert_eq!(k.tasks[t].trap_cx.x[10], 77);
    assert_eq!(k.tasks[t].trap_cx.trap_handler, 0x8020_0000);
    // the fresh kernel stack hangs below the trampoline by one
    // stack-plus-guard slot per allocated id
    let kid = k.tasks[t].kstack_id;
    assert_eq!(
        k.tasks[t].trap_cx.kernel_sp,
        rvos::config::TRAMPOLINE - kid * (8192 + 4096)
    );
    // the second thread's stack sits one stack-plus-guard above the base
    assert_eq!(k.tasks[t].trap_cx.x[2], 0x20000 + 12288 + 8192);
    assert!(matches!(k.tasks[t].task_status, TaskStatus::Ready));
    if let Some(p) = &k.processes[0] {
        assert_eq!(p.inner.tasks[1], Some(t));
    }
}

#[test]
fn simple_process_queries() {
    let mut k = boot_kernel(1);
    assert_eq!(sys_getpid(&k), 0);
    k.time_ms = 42;
    assert_eq!(sys_get_time(&k), 42);
}

#[test]
fn fork_fails_cleanly_without_frames() {
    let mut k = boot_kernel(1);
    k.frame_allocator = fresh_allocator(4);
    let ppid = k.pid_allocator.alloc_id();
    assert_eq!(ppid, 0);
    if let Some(p) = &mut k.processes[0] {
        p.inner.tasks.push(Some(0));
        p.inner.memory_set.map_trampoline(PhysPageNum(0x80200));
        let area = MapArea::new(
            VirtAddr(0x10000),
            VirtAddr(0x13000),
            MapType::Framed,
            MAP_PERM_R | MAP_PERM_W | MAP_PERM_U,
        );
        p.inner.memory_set.push(area, None, &mut k.frame_allocator);
    }
    // three pages are mapped and only one frame is left: the copy
    // cannot be made
    assert_eq!(k.frame_allocator.avail_frames(), 1);
    let tasks_before = k.tasks.len();
    assert_eq!(sys_fork(&mut k, 0x8020_4000), -1);
    assert_eq!(k.tasks.len(), tasks_before);
    assert_eq!(k.frame_allocator.avail_frames(), 1);
    if let Some(p) = &k.processes[0] {
        assert!(p.inner.children.is_empty());
    }
}

#[test]
fn leader_exit_tears_down_every_thread() {
    let mut k = boot_kernel(3);
    k.frame_allocator = fresh_allocator(8);
    k.processes.push(Some(bare_process(1)));
    for t in 0..3 {
        k.tasks[t].pid = 1;
        k.tasks[t].res = Some(rvos::task::TaskUserRes {
            tid: t as u64,
            ustack_base: 0x20000,
        });
    }
    if let Some(p) = &mut k.processes[1] {
        p.inner.tasks.push(Some(0));
        p.inner.tasks.push(Some(1));
        p.inner.tasks.push(Some(2));
        p.inner.mutex_list.push(None);
        p.inner.semaphore_list.push(None);
        p.inner.condvar_list.push(None);
    }
    exit_current_and_run_next(&mut k, 9);
    // every thread of the process lost its user resources and left
    // the scheduler
    for t in 0..3 {
        assert!(k.tasks[t].res.is_none());
        assert!(matches!(k.tasks[t].task_status, TaskStatus::Blocked));
        assert!(!k.ready_queue.contains(&t));
    }
    assert_eq!(k.current, None);
    if let Some(p) = &k.processes[1] {
        assert!(p.inner.is_zombie);
        assert_eq!(p.inner.exit_code, 9);
        assert_eq!(p.inner.tasks.len(), 1);
        assert!(p.inner.tasks[0].is_none());
        assert!(p.inner.mutex_list.is_empty());
        assert!(p.inner.semaphore_list.is_empty());
        assert!(p.inner.condvar_list.is_empty());
    }
}

#[test]
fn leader_exit_scrubs_the_wait_queues() {
    let mut k = boot_kernel(2);
    let sid = k.alloc_wait_queue();
    k.tasks[1].res = Some(rvos::task::TaskUserRes { tid: 1, ustack_base: 0x20000 });
    k.block_current_and_run_next(sid); // thread 0 waits, thread 1 runs
    assert_eq!(k.current, Some(1));
    assert_eq!(k.wait_queues[sid], vec![0]);
    k.processes.push(Some(bare_process(1)));
    k.tasks[0].pid = 1;
    k.tasks[1].pid = 1;
    k.tasks[1].res = Some(rvos::task::TaskUserRes { tid: 0, ustack_base: 0x20000 });
    if let Some(p) = &mut k.processes[1] {
        p.inner.tasks.push(Some(1));
        p.inner.tasks.push(Some(0));
    }
    exit_current_and_run_next(&mut k, 3);
    // the blocked sibling left its wait queue for good
    assert!(k.wait_queues[sid].is_empty());
    assert!(k.tasks[0].res.is_none());
    assert!(matches!(k.tasks[0].task_status, TaskStatus::Blocked));
}

#[test]
fn remove_area_returns_its_pages_and_frames() {
    let mut a = fresh_allocator(16);
    let mut ms = MemorySet::new_bare();
    ms.map_trampoline(PhysPageNum(0x80200));
    ms.insert_framed_area(
        VirtAddr(0x10000),
        VirtAddr(0x12000),
        MAP_PERM_R | MAP_PERM_W,
        &mut a,
    );
    let avail_mapped = a.avail_frames();
    assert_eq!(avail_mapped, 14);
    assert!(ms.translate(VirtPageNum(0x10)).unwrap().is_valid());
    // no area starts at this page
    assert!(!ms.remove_area_with_start_vpn(VirtPageNum(0x11), &mut a));
    // the area starting at 0x10 goes away with its two frames
    assert!(ms.remove_area_with_start_vpn(VirtPageNum(0x10), &mut a));
    assert_eq!(a.avail_frames(), 16);
    let gone = ms.translate(VirtPageNum(0x10));
    assert!(gone.is_none() || !gone.unwrap().is_valid());
    // the trampoline survives
    assert!(ms.translate(VirtPageNum(0x7ff_ffff)).unwrap().is_valid());
}

#[test]
fn new_kernel_identity_maps_sections_and_windows() {
    let mut a = fresh_allocator(8);
    let sections: Vec<(u64, u64, u8)> = vec![
        (0x8020_0000, 0x8020_4000, MAP_PERM_R | rvos::memory_set::MAP_PERM_X),
        (0x8020_4000, 0x8030_0000, MAP_PERM_R),
        (0x8030_0000, 0x8800_0000, MAP_PERM_R | MAP_PERM_W),
    ];
    let mmio: Vec<(u64, u64)> = vec![(0x1000_1000, 0x1000_9000)];
    let ms = rvos::memory_set::new_kernel(&sections, &mmio, PhysPageNum(0x80200), &mut a);
    // identity mapping: each section's first page maps to itself
    let pte = ms.translate(VirtPageNum(0x8020_0000 / 4096)).unwrap();
    assert!(pte.is_valid());
    assert_eq!(pte.ppn().0, 0x8020_0000 / 4096);
    let dev = ms.translate(VirtPageNum(0x1000_1000 / 4096)).unwrap();
    assert!(dev.is_valid());
    assert_eq!(dev.ppn().0, 0x1000_1000 / 4096);
    assert!(dev.writable());
    // identity areas take no frames
    assert_eq!(a.avail_frames(), 8);
    assert!(ms.translate(VirtPageNum(0x7ff_ffff)).unwrap().is_valid());
}

#[test]
fn pipe_write_reports_the_exact_count() {
    let mut k = boot_kernel(1);
    let (rfd, wfd) = sys_pipe(&mut k);
    let big: Vec<u8> = (0u8..40).collect();
    // only the ring's capacity goes in
    assert_eq!(sys_write(&mut k, wfd as usize, &big), 32);
    // a full ring takes nothing more
    assert_eq!(sys_write(&mut k, wfd as usize, &vec![9u8; 4]), 0);
    // drain three bytes: exactly three fit now
    let (got, bytes) = sys_read(&mut k, rfd as usize, 3);
    assert_eq!(got, 3);
    assert_eq!(bytes, vec![0, 1, 2]);
    assert_eq!(sys_write(&mut k, wfd as usize, &vec![9u8; 8]), 3);
    // after the read end closes, a write moves nothing
    assert_eq!(sys_close(&mut k, rfd as usize), 0);
    assert_eq!(sys_write(&mut k, wfd as usize, &vec![7u8; 2]), 0);
}

#[test]
fn kill_rejects_a_zombie() {
    let mut k = boot_kernel(1);
    let mut z = bare_process(1);
    z.inner.is_zombie = true;
    k.processes.push(Some(z));
    assert_eq!(sys_kill(&mut k, 1, 10), -1);
    if let Some(p) = &k.processes[1] {
        assert_eq!(p.inner.signals.signal_recv, 0);
    }
}

#[test]
fn virtio_slots_sit_one_page_apart() {
    assert_eq!(rvos::config::virtio_mmio_bus_addr(0), 0x1000_1000);
    assert_eq!(rvos::config::virtio_mmio_bus_addr(4), 0x1000_5000);
    assert_eq!(rvos::config::virtio_mmio_bus_addr(7), 0x1000_8000);
}

#[test]
fn allocator_init_keeps_the_recycle_stack() {
    let mut a = StackFrameAllocator::new();
    assert_eq!(a.avail_frames(), 0);
    a.init(PhysPageNum(0x100), PhysPageNum(0x110));
    assert_eq!(a.avail_frames(), 16);
    // frames come out in address order from a fresh allocator
    let f1 = frame_alloc(&mut a).unwrap();
    let f2 = frame_alloc(&mut a).unwrap();
    assert_eq!(f1.ppn.0, 0x100);
    assert_eq!(f2.ppn.0, 0x101);
    frame_dealloc(&mut a, f1);
    frame_dealloc(&mut a, f2);
}

#[test]
fn exec_replaces_the_image_and_lays_out_argv() {
    let mut k = boot_kernel(1);
    k.frame_allocator = fresh_allocator(64);
    if let Some(p) = &mut k.processes[0] {
        p.inner.tasks.push(Some(0));
        p.inner.fd_table.push(Some(rvos::process::FdKind::Stdin));
    }
    let bytes = minimal_elf();
    let args: Vec<Vec<u8>> = vec![b"hi".to_vec(), b"ab".to_vec()];
    let r = rvos::syscall::sys_exec(&mut k, &bytes, &args, 0x8020_0000, 0x8020_4000);
    assert_eq!(r, 0);
    // the thread restarts at the new entry with argc and argv set
    assert_eq!(k.tasks[0].trap_cx.sepc, 0x10000);
    assert_eq!(k.tasks[0].trap_cx.x[10], 2);
    // stack base 0x12000: the argv array sits 3 entries below the top
    let argv_base = 0x12000u64 + 8192 - 24;
    assert_eq!(k.tasks[0].trap_cx.x[11], argv_base);
    // two strings of three bytes each, then aligned down to 8
    assert_eq!(k.tasks[0].trap_cx.x[2], (argv_base - 6) & !7);
    assert_eq!(k.tasks[0].trap_cx.trap_handler, 0x8020_0000);
    if let Some(p) = &k.processes[0] {
        assert_eq!(p.inner.base_size, 0x12000);
        assert_eq!(p.inner.fd_table.len(), 1);
        // code page and stack pages are mapped
        assert!(p.inner.memory_set.translate(VirtPageNum(0x10)).unwrap().is_valid());
        assert!(p.inner.memory_set.translate(VirtPageNum(0x12)).unwrap().is_valid());
        assert!(p.inner.memory_set.translate(VirtPageNum(0x13)).unwrap().is_valid());
    }
}

#[test]
fn exec_rejects_garbage_bytes() {
    let mut k = boot_kernel(1);
    k.frame_allocator = fresh_allocator(8);
    if let Some(p) = &mut k.processes[0] {
        p.inner.tasks.push(Some(0));
    }
    let avail = k.frame_allocator.avail_frames();
    let args: Vec<Vec<u8>> = Vec::new();
    assert_eq!(
        rvos::syscall::sys_exec(&mut k, &vec![0u8; 40], &args, 0x8020_0000, 0x8020_4000),
        -1
    );
    assert_eq!(k.frame_allocator.avail_frames(), avail);
}

#[test]
fn condvar_wait_resume_retakes_the_mutex() {
    let mut k = boot_kernel(2);
    let m = sys_mutex_create(&mut k, true) as usize;
    let cv = sys_condvar_create(&mut k) as usize;
    sys_mutex_lock(&mut k, m); // thread 0 holds the mutex
    assert_eq!(rvos::syscall::sys_condvar_wait(&mut k, cv, m), 0);
    // the wait released the mutex and parked thread 0; thread 1 runs
    assert_eq!(k.current, Some(1));
    sys_condvar_signal(&mut k, cv); // thread 0 becomes ready again
    sys_yield(&mut k); // thread 0 is dispatched
    assert_eq!(k.current, Some(0));
    // the woken waiter's second half: the mutex is taken again
    assert_eq!(rvos::syscall::sys_condvar_wait_resume(&mut k, m), 0);
    if let Some(p) = &k.processes[0] {
        match &p.inner.mutex_list[m] {
            Some(rvos::sync::MutexObj::Blocking(b)) => assert!(b.locked),
            _ => panic!("expected a blocking mutex"),
        }
    }
}

#[test]
fn user_res_maps_and_unmaps_stack_and_trap_page() {
    let mut a = fresh_allocator(8);
    let mut ms = MemorySet::new_bare();
    ms.map_trampoline(PhysPageNum(0x80200));
    let res = rvos::task::TaskUserRes { tid: 0, ustack_base: 0x20000 };
    res.alloc_user_res(&mut ms, &mut a);
    // two stack pages and the trap-context page took three frames
    assert_eq!(a.avail_frames(), 5);
    assert!(ms.translate(VirtPageNum(0x20)).unwrap().is_valid());
    assert!(ms.translate(VirtPageNum(0x21)).unwrap().is_valid());
    assert!(ms.translate(VirtPageNum(0x7ff_fffe)).unwrap().is_valid());
    let (had_stack, had_trap) = res.dealloc_user_res(&mut ms, &mut a);
    assert!(had_stack && had_trap);
    assert_eq!(a.avail_frames(), 8);
    let gone = ms.translate(VirtPageNum(0x20));
    assert!(gone.is_none() || !gone.unwrap().is_valid());
    assert!(ms.translate(VirtPageNum(0x7ff_ffff)).unwrap().is_valid());
}
