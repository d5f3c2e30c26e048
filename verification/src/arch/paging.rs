//! x86-64 four-level paging: page flags, page-table entries and the index
//! of a virtual address at each level.
use vstd::prelude::*;

verus! {

pub const PAGE_SIZE: u64 = 4096;
pub const KERNEL_VIRT_OFFSET: u64 = 0xFFFF_8000_0000_0000;
pub const KERNEL_HEAP_START: u64 = 0xFFFF_C000_0000_0000;
pub const KERNEL_HEAP_SIZE: u64 = 0x4000_0000;
pub const USER_STACK_TOP: u64 = 0x0000_7FFF_FFFF_F000;
pub const USER_HEAP_START: u64 = 0x0000_0001_0000_0000;
/// Bits 12..52 of an entry: the physical frame.
pub const ENTRY_ADDR_MASK: u64 = 0x000F_FFFF_FFFF_F000;

pub const FLAG_PRESENT: u64 = 1;
pub const FLAG_WRITABLE: u64 = 2;
pub const FLAG_USER: u64 = 4;
pub const FLAG_WRITE_THROUGH: u64 = 8;
pub const FLAG_NO_CACHE: u64 = 16;
pub const FLAG_ACCESSED: u64 = 32;
pub const FLAG_DIRTY: u64 = 64;
pub const FLAG_HUGE: u64 = 128;
pub const FLAG_GLOBAL: u64 = 256;
/// Software bit: the page is shared copy-on-write.
pub const FLAG_COW: u64 = 512;
pub const FLAG_NO_EXECUTE: u64 = 0x8000_0000_0000_0000;
/// Every defined flag bit.
pub const FLAGS_ALL: u64 = 0x8000_0000_0000_03FF;

/// A set of page-table flags.
#[derive(Clone, Copy, PartialEq, Eq, Structural)]
pub struct PageFlags {
    pub bits: u64,
}

impl PageFlags {
    pub fn empty() -> (r: PageFlags)
        ensures
            r.bits == 0,
    {
        PageFlags { bits: 0 }
    }

    /// The flags of `bits`, dropping undefined bits.
    pub fn from_bits_truncate(bits: u64) -> (r: PageFlags)
        ensures
            r.bits == bits & FLAGS_ALL,
    {
        PageFlags { bits: bits & FLAGS_ALL }
    }

    pub fn bits(&self) -> (r: u64)
        ensures
            r == self.bits,
    {
        self.bits
    }

    /// Every flag of `other` is set in `self`.
    pub fn contains(&self, other: PageFlags) -> (r: bool)
        ensures
            r == (self.bits & other.bits == other.bits),
    {
        self.bits & other.bits == other.bits
    }

    pub fn union(self, other: PageFlags) -> (r: PageFlags)
        ensures
            r.bits == self.bits | other.bits,
    {
        PageFlags { bits: self.bits | other.bits }
    }

    /// `self` without the flags of `other`.
    pub fn difference(self, other: PageFlags) -> (r: PageFlags)
        ensures
            r.bits == self.bits & !other.bits,
    {
        PageFlags { bits: self.bits & !other.bits }
    }
}

/// One 64-bit page-table entry.
#[derive(Clone, Copy, PartialEq, Eq, Structural)]
pub struct PageTableEntry(pub u64);

impl PageTableEntry {
    /// An entry that maps nothing.
    pub fn unused() -> (r: PageTableEntry)
        ensures
            r.0 == 0,
    {
        PageTableEntry(0)
    }

    /// Points the entry at frame `phys` with `flags`; bits of `phys`
    /// outside the frame field, and bits of `flags` that name no flag, are
    /// dropped.
    pub fn set_frame(&mut self, phys: u64, flags: PageFlags)
        ensures
            final(self).0 == (phys & ENTRY_ADDR_MASK) | (flags.bits & FLAGS_ALL),
    {
        self.0 = (phys & ENTRY_ADDR_MASK) | (flags.bits & FLAGS_ALL);
    }

    /// The physical frame the entry points at.
    pub fn frame(&self) -> (r: u64)
        ensures
            r == self.0 & ENTRY_ADDR_MASK,
    {
        self.0 & ENTRY_ADDR_MASK
    }

    /// The defined flag bits of the entry.
    pub fn flags(&self) -> (r: PageFlags)
        ensures
            r.bits == self.0 & FLAGS_ALL,
    {
        PageFlags::from_bits_truncate(self.0)
    }

    pub fn is_present(&self) -> (r: bool)
        ensures
            r == (self.0 & FLAG_PRESENT != 0),
    {
        let f = self.flags();
        let r = f.contains(PageFlags { bits: FLAG_PRESENT });
        let v = self.0;
        assert(((v & 0x8000_0000_0000_03FFu64) & 1u64 == 1u64) == (v & 1u64 != 0)) by (bit_vector);
        r
    }

    pub fn is_huge(&self) -> (r: bool)
        ensures
            r == (self.0 & FLAG_HUGE != 0),
    {
        let f = self.flags();
        let r = f.contains(PageFlags { bits: FLAG_HUGE });
        let v = self.0;
        assert(((v & 0x8000_0000_0000_03FFu64) & 128u64 == 128u64) == (v & 128u64 != 0)) by (bit_vector);
        r
    }
}

/// Setting a frame and reading it back gives the frame's address bits,
/// and reading the flags back gives the flags (their defined bits).
pub proof fn law_set_frame_roundtrip(phys: u64, flags: PageFlags)
    ensures
        ((phys & ENTRY_ADDR_MASK) | (flags.bits & FLAGS_ALL)) & ENTRY_ADDR_MASK == phys & ENTRY_ADDR_MASK,
        ((phys & ENTRY_ADDR_MASK) | (flags.bits & FLAGS_ALL)) & FLAGS_ALL == flags.bits & FLAGS_ALL,
{
    let f = flags.bits;
    assert(((phys & 0x000F_FFFF_FFFF_F000u64) | (f & 0x8000_0000_0000_03FFu64)) & 0x000F_FFFF_FFFF_F000u64
        == phys & 0x000F_FFFF_FFFF_F000u64) by (bit_vector);
    assert(((phys & 0x000F_FFFF_FFFF_F000u64) | (f & 0x8000_0000_0000_03FFu64)) & 0x8000_0000_0000_03FFu64
        == f & 0x8000_0000_0000_03FFu64) by (bit_vector);
}

/// A table of 512 entries.
pub struct PageTable {
    pub entries: Vec<PageTableEntry>,
}

impl PageTable {
    /// A table of unused entries.
    pub fn new() -> (r: PageTable)
        ensures
            r.entries@.len() == 512,
            forall|i: int| 0 <= i < 512 ==> #[trigger] r.entries@[i].0 == 0,
    {
        let mut v: Vec<PageTableEntry> = Vec::with_capacity(512);
        let mut i: usize = 0;
        while i < 512
            invariant
                i <= 512,
                v@.len() == i,
                forall|k: int| 0 <= k < i ==> #[trigger] v@[k].0 == 0,
            decreases 512 - i,
        {
            v.push(PageTableEntry::unused());
            i = i + 1;
        }
        PageTable { entries: v }
    }
}

/// The index of `virt` in the table of level `shift` (39, 30, 21 or 12).
pub open spec fn spec_level_index(virt: u64, shift: u64) -> u64 {
    (virt >> shift) & 0x1FF
}

pub fn pml4_index(virt: u64) -> (r: usize)
    ensures
        r == spec_level_index(virt, 39),
        r < 512,
{
    let r = (virt >> 39u64) & 0x1FF;
    assert(r < 512) by (bit_vector)
        requires r == (virt >> 39u64) & 0x1FFu64;
    r as usize
}

pub fn pdpt_index(virt: u64) -> (r: usize)
    ensures
        r == spec_level_index(virt, 30),
        r < 512,
{
    let r = (virt >> 30u64) & 0x1FF;
    assert(r < 512) by (bit_vector)
        requires r == (virt >> 30u64) & 0x1FFu64;
    r as usize
}

pub fn pd_index(virt: u64) -> (r: usize)
    ensures
        r == spec_level_index(virt, 21),
        r < 512,
{
    let r = (virt >> 21u64) & 0x1FF;
    assert(r < 512) by (bit_vector)
        requires r == (virt >> 21u64) & 0x1FFu64;
    r as usize
}

pub fn pt_index(virt: u64) -> (r: usize)
    ensures
        r == spec_level_index(virt, 12),
        r < 512,
{
    let r = (virt >> 12u64) & 0x1FF;
    assert(r < 512) by (bit_vector)
        requires r == (virt >> 12u64) & 0x1FFu64;
    r as usize
}

/// The physical address `virt` translates to through leaf `entry`: the
/// entry's frame plus the offset inside the page, when present.
pub fn translate_entry(entry: PageTableEntry, virt: u64) -> (r: Option<u64>)
    ensures
        entry.0 & FLAG_PRESENT != 0 ==> r == Some((entry.0 & ENTRY_ADDR_MASK) | (virt & 0xFFF)),
        entry.0 & FLAG_PRESENT == 0 ==> r is None,
{
    if entry.is_present() {
        Some(entry.frame() | (virt & 0xFFF))
    } else {
        None
    }
}

/// The kernel's virtual address of physical address `phys`.
pub fn phys_to_virt(phys: u64) -> (r: u64)
    requires
        phys + KERNEL_VIRT_OFFSET <= u64::MAX,
    ensures
        r == phys + KERNEL_VIRT_OFFSET,
{
    phys + KERNEL_VIRT_OFFSET
}

/// The physical address behind kernel virtual address `virt`.
pub fn virt_to_phys(virt: u64) -> (r: u64)
    requires
        virt >= KERNEL_VIRT_OFFSET,
    ensures
        r == virt - KERNEL_VIRT_OFFSET,
{
    virt - KERNEL_VIRT_OFFSET
}

/// A page-table walker rooted at a PML4 frame.
pub struct PageMapper {
    pub pml4_phys: u64,
}

impl PageMapper {
    pub fn new(pml4_phys: u64) -> (r: PageMapper)
        ensures
            r.pml4_phys == pml4_phys,
    {
        PageMapper { pml4_phys }
    }

    /// The walker for the address space whose PML4 frame is in CR3.
    pub fn current(cr3: u64) -> (r: PageMapper)
        ensures
            r.pml4_phys == cr3 & !0xFFFu64,
    {
        PageMapper { pml4_phys: cr3 & !0xFFFu64 }
    }
}

} // verus!
