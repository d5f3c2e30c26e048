//! x86-64 architecture support: page-table entries and interrupt
//! descriptors.
use vstd::prelude::*;

pub mod idt;
pub mod paging;

verus! {
} // verus!
