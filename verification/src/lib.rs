//! The verified core of the Qunix kernel: physical and virtual memory
//! management (with copy-on-write fork and mremap), page compression, IPC
//! objects, file systems (the ext4 journal, ext4 reading and mounting,
//! tmpfs, FAT32 cluster chains), the procfs text, ELF loading and the initial user stack, interrupt and device
//! tables, console and framebuffer state machines, DRM mode setting,
//! io_uring geometry and the Linux compatibility layer. Each operation
//! works on plain values and states its effect in its contract; the
//! kernel around it supplies memory, ports and locks.
use vstd::prelude::*;

pub mod abi_compat;
pub mod arch;
pub mod boot;
pub mod device;
pub mod drivers;
pub mod bytes;
pub mod flag_bits;
pub mod elf;
pub mod fs;
pub mod errno;
pub mod ipc;
pub mod table;
pub mod memory;
pub mod module;
pub mod io_uring;
pub mod drm;

verus! {
} // verus!
