//! A verified model of a small preemptive RISC-V (SV39) operating-system
//! kernel: physical-frame allocation, three-level page tables, address
//! spaces, the thread/process lifecycle, a FIFO scheduler, blocking
//! synchronisation primitives, POSIX-style signals, and the syscall layer
//! over them.

pub mod address;
pub mod config;
pub mod elf;
pub mod id;
pub mod kernel;
pub mod task;
pub mod frame_allocator;
pub mod memory_set;
pub mod net;
pub mod page_table;
pub mod pipe;
pub mod process;
pub mod signal;
pub mod sync;
pub mod syscall;
