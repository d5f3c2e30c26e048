//! Data handed from the bootloader to the kernel.
use vstd::prelude::*;

pub mod uefi_memory_type;
pub mod kernel_image;

verus! {

/// What the bootloader tells the kernel about the machine.
pub struct BootInfo {
    pub memory_map_addr: u64,
    pub memory_map_count: u64,
    pub memory_map_descriptor_size: u64,
    pub framebuffer_addr: u64,
    pub framebuffer_width: u32,
    pub framebuffer_height: u32,
    pub framebuffer_pitch: u32,
    pub framebuffer_format: u32,
    pub kernel_phys_start: u64,
    pub kernel_phys_end: u64,
    pub rsdp_addr: u64,
    pub init_phys_start: u64,
    pub init_size: u64,
    pub qshell_phys_start: u64,
    pub qshell_size: u64,
}

/// One entry of the UEFI memory map.
#[derive(Clone, Copy)]
pub struct UefiMemoryDescriptor {
    pub mem_type: u32,
    pub _pad: u32,
    pub phys_start: u64,
    pub virt_start: u64,
    pub num_pages: u64,
    pub attribute: u64,
}

} // verus!
