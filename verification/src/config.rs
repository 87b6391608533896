//! Memory-layout and platform constants of the kernel model.
//!
//! Addresses and page numbers are carried as `u64`: the kernel targets
//! RV64, where the machine word is 64 bits wide.

use vstd::prelude::*;

verus! {

/// Log2 of the page size.
pub const PAGE_SIZE_BITS: u64 = 12;

/// Size of one page in bytes.
pub const PAGE_SIZE: u64 = 4096;

/// Size of one user stack in bytes.
pub const USER_STACK_SIZE: u64 = 8192;

/// Size of one kernel stack in bytes.
pub const KERNEL_STACK_SIZE: u64 = 8192;

/// Size of the guard gap left between two kernel stacks.
pub const KERNEL_STACK_GUARD: u64 = 4096;

/// Size of the kernel heap in bytes.
pub const KERNEL_HEAP_SIZE: u64 = 0x30_0000;

/// First physical address past usable RAM.
pub const MEMORY_END: u64 = 0x8800_0000;

/// Virtual address of the trampoline page: the highest page of the
/// address space.
pub const TRAMPOLINE: u64 = 0xffff_ffff_ffff_f000;

/// Virtual page number of the trampoline page under SV39: the highest
/// of the 27-bit page numbers.
pub const TRAMPOLINE_VPN: u64 = 0x7ff_ffff;

/// Virtual address of the trap-context page of thread 0, directly below
/// the trampoline.
pub const TRAP_CONTEXT_BASE: u64 = 0xffff_ffff_ffff_e000;

/// Timebase frequency of the platform clock, in ticks per second.
pub const CLOCK_FREQ: u64 = 12500000;

/// Timer interrupts per second.
pub const TICKS_PER_SEC: u64 = 100;

/// Milliseconds per second.
pub const MSEC_PER_SEC: u64 = 1000;

/// Number of virtual pages of an SV39 address space: three 9-bit levels.
pub const VPN_LIMIT: u64 = 0x800_0000;

/// Number of physical pages addressable under SV39: a 44-bit frame index.
pub const PPN_LIMIT: u64 = 0x1000_0000_0000;

/// Physical base address of the first virtio MMIO slot on the board.
pub const VIRT_MMIO: u64 = 0x1000_1000;

/// Physical address of virtio MMIO slot `i`: the slots sit one page
/// apart from the base, eight in all.
pub fn virtio_mmio_bus_addr(i: u8) -> (r: u64)
    requires
        i <= 7,
    ensures
        r == VIRT_MMIO + i * 0x1000,
{
    VIRT_MMIO + (i as u64) * 0x1000
}

} // verus!
