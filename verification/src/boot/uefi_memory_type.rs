//! UEFI memory types.
use vstd::prelude::*;

verus! {

pub const CONVENTIONAL: u32 = 7;
pub const BOOT_SERVICES_CODE: u32 = 3;
pub const BOOT_SERVICES_DATA: u32 = 4;
pub const LOADER_CODE: u32 = 1;
pub const LOADER_DATA: u32 = 2;
pub const ACPI_RECLAIM: u32 = 9;
pub const RESERVED: u32 = 0;

} // verus!
