//! Device drivers: the IRQ dispatch table, the PS/2 keyboard decoder, the
//! consoles and framebuffers, PCI, and the registry of driver-provided devices.
use vstd::prelude::*;

pub mod console;
pub mod gpu;
pub mod irq;
pub mod keyboard;
pub mod pcie;
pub mod vga;
pub mod driver_host;
pub mod nvme;
pub mod acpi;

verus! {
} // verus!
