//! Physical and virtual memory management.
use vstd::prelude::*;

pub mod buddy;
pub mod lz4;
pub mod numa;
pub mod thp;
pub mod phys;
pub mod slab;
pub mod vmm;
pub mod zswap;

verus! {
} // verus!
