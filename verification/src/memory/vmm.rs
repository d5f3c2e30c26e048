//! Virtual memory: copy-on-write frame reference counts, memory
//! protections, and the region list of an address space.
use vstd::prelude::*;
use crate::arch::paging::FLAG_COW;
use crate::arch::paging::{
    PageFlags, PAGE_SIZE, FLAG_PRESENT, FLAG_USER, FLAG_WRITABLE, FLAG_NO_EXECUTE,
};

verus! {

pub const MAX_COW_FRAMES: usize = 1048576;
pub const MMAP_BASE: u64 = 0x0000_4000_0000_0000;
pub const BRK_START: u64 = 0x0000_0001_0000_0000;
pub const STACK_TOP: u64 = 0x0000_7FFF_FFFF_0000;

pub const MAP_SHARED: u32 = 0x01;
pub const MAP_PRIVATE: u32 = 0x02;
pub const MAP_FIXED: u32 = 0x10;
pub const MAP_ANONYMOUS: u32 = 0x20;
pub const MREMAP_MAYMOVE: u32 = 1;
pub const MREMAP_FIXED: u32 = 2;

pub const PROT_NONE: u32 = 0;
pub const PROT_READ: u32 = 1;
pub const PROT_WRITE: u32 = 2;
pub const PROT_EXEC: u32 = 4;

// ── Copy-on-write reference counts ──────────────────────────────────────

/// Reference counts of shared frames, indexed by frame number. A count of
/// 0 means one private owner; `n > 0` means `n` mappings share the frame.
pub struct CowTable {
    pub counts: Vec<u16>,
}

impl CowTable {
    pub open spec fn wf(&self) -> bool {
        self.counts@.len() == MAX_COW_FRAMES
    }

    /// The count of the frame holding `phys` (0 past the table).
    pub open spec fn count(&self, phys: u64) -> u16 {
        let f = phys / PAGE_SIZE;
        if f < MAX_COW_FRAMES { self.counts@[f as int] } else { 0 }
    }

    pub fn new() -> (r: CowTable)
        ensures
            r.wf(),
            forall|p: u64| #[trigger] r.count(p) == 0,
    {
        CowTable { counts: vec![0u16; MAX_COW_FRAMES] }
    }
}

/// The table after setting frame `f`'s count to `v` (frames past the end
/// are not tracked).
pub open spec fn cow_after(t: Seq<u16>, phys: u64, v: u16) -> Seq<u16> {
    let f = phys / PAGE_SIZE;
    if f < MAX_COW_FRAMES { t.update(f as int, v) } else { t }
}

/// One more sharer of the frame holding `phys`, saturating.
pub fn cow_inc(t: &mut CowTable, phys: u64)
    requires
        old(t).wf(),
    ensures
        final(t).wf(),
        final(t).counts@ == cow_after(old(t).counts@, phys, if old(t).count(phys) < u16::MAX {
            (old(t).count(phys) + 1) as u16
        } else {
            u16::MAX
        }),
{
    let frame = (phys / PAGE_SIZE) as usize;
    if phys / PAGE_SIZE < MAX_COW_FRAMES as u64 {
        let c = t.counts[frame];
        if c < u16::MAX {
            t.counts.set(frame, c + 1);
        }
    }
}

/// A private frame becomes shared by a forked child: 0 jumps to 2 (two
/// owners), other counts grow by one, saturating.
pub fn cow_share(t: &mut CowTable, phys: u64)
    requires
        old(t).wf(),
    ensures
        final(t).wf(),
        final(t).counts@ == cow_after(old(t).counts@, phys, if old(t).count(phys) == 0 {
            2u16
        } else if old(t).count(phys) < u16::MAX {
            (old(t).count(phys) + 1) as u16
        } else {
            u16::MAX
        }),
{
    if phys / PAGE_SIZE < MAX_COW_FRAMES as u64 {
        let frame = (phys / PAGE_SIZE) as usize;
        let c = t.counts[frame];
        let n: u16 = if c == 0 {
            2
        } else if c < u16::MAX {
            c + 1
        } else {
            c
        };
        t.counts.set(frame, n);
    }
}

/// One sharer fewer; returns the new count (0 past the table).
pub fn cow_dec(t: &mut CowTable, phys: u64) -> (r: u16)
    requires
        old(t).wf(),
    ensures
        final(t).wf(),
        r == if old(t).count(phys) > 0 { (old(t).count(phys) - 1) as u16 } else { 0 },
        phys / PAGE_SIZE < MAX_COW_FRAMES ==> final(t).counts@ == cow_after(old(t).counts@, phys, r),
        phys / PAGE_SIZE >= MAX_COW_FRAMES ==> final(t).counts@ == old(t).counts@,
{
    if phys / PAGE_SIZE < MAX_COW_FRAMES as u64 {
        let frame = (phys / PAGE_SIZE) as usize;
        let c = t.counts[frame];
        let n = if c > 0 { c - 1 } else { 0 };
        t.counts.set(frame, n);
        n
    } else {
        0
    }
}

/// The current count of the frame holding `phys`.
pub fn cow_refcount(t: &CowTable, phys: u64) -> (r: u16)
    requires
        t.wf(),
    ensures
        r == t.count(phys),
{
    if phys / PAGE_SIZE < MAX_COW_FRAMES as u64 {
        t.counts[(phys / PAGE_SIZE) as usize]
    } else {
        0
    }
}

/// After a fork shares a private frame, the first writer still finds
/// another owner (so it copies), and the second one finds itself the last
/// owner (so it keeps the frame).
pub proof fn law_cow_first_writer_copies(c: u16)
    requires
        c == 0,
    ensures
        ({
            let shared: u16 = 2;
            let after_first: u16 = (shared - 1) as u16;
            let after_second: u16 = (after_first - 1) as u16;
            after_first > 0 && after_second == 0
        }),
{
}

// ── Protections ─────────────────────────────────────────────────────────

/// A memory protection: `PROT_READ | PROT_WRITE | PROT_EXEC` bits.
#[derive(Clone, Copy, PartialEq, Eq, Structural)]
pub struct Prot {
    pub bits: u32,
}

impl Prot {
    pub fn empty() -> (r: Prot)
        ensures
            r.bits == 0,
    {
        Prot { bits: 0 }
    }

    pub fn contains(&self, other: Prot) -> (r: bool)
        ensures
            r == (self.bits & other.bits == other.bits),
    {
        self.bits & other.bits == other.bits
    }

    pub fn union(self, other: Prot) -> (r: Prot)
        ensures
            r.bits == self.bits | other.bits,
    {
        Prot { bits: self.bits | other.bits }
    }

    pub fn without(self, other: Prot) -> (r: Prot)
        ensures
            r.bits == self.bits & !other.bits,
    {
        Prot { bits: self.bits & !other.bits }
    }

    pub open spec fn can_write(self) -> bool {
        self.bits & PROT_WRITE == PROT_WRITE
    }

    pub open spec fn can_exec(self) -> bool {
        self.bits & PROT_EXEC == PROT_EXEC
    }
}

/// Page flags of a user mapping: present and user, writable when the
/// protection allows writes, no-execute unless it allows execution.
pub open spec fn spec_prot_to_flags(prot: Prot) -> PageFlags {
    PageFlags {
        bits: FLAG_PRESENT | FLAG_USER | (if prot.can_write() { FLAG_WRITABLE } else { 0 }) | (if prot.can_exec() {
            0
        } else {
            FLAG_NO_EXECUTE
        }),
    }
}

pub fn prot_to_flags(prot: Prot) -> (f: PageFlags)
    ensures
        f == spec_prot_to_flags(prot),
{
    let mut f = PageFlags { bits: FLAG_PRESENT | FLAG_USER };
    if prot.contains(Prot { bits: PROT_WRITE }) {
        f = f.union(PageFlags { bits: FLAG_WRITABLE });
    }
    if !prot.contains(Prot { bits: PROT_EXEC }) {
        f = f.union(PageFlags { bits: FLAG_NO_EXECUTE });
    }
    proof {
        assert(forall|x: u64| #[trigger] (x | 0u64) == x) by (bit_vector);
    }
    f
}

// ── Regions ─────────────────────────────────────────────────────────────

/// What backs a region of an address space.
#[derive(Clone, Copy, PartialEq, Eq, Structural)]
pub enum RegionKind {
    Anonymous,
    Stack,
    Heap,
    File { dev: u64, ino: u64, offset: u64 },
    Shared,
    Device,
    Vdso,
}

/// A mapped range `[start, end)` of an address space.
pub struct VmaRegion {
    pub start: u64,
    pub end: u64,
    pub prot: Prot,
    pub kind: RegionKind,
    pub flags: u32,
    pub name: String,
    /// Marked copy-on-write: no writes until a private copy is made.
    pub cow: bool,
}

impl VmaRegion {
    pub open spec fn spec_contains(&self, addr: u64) -> bool {
        self.start <= addr < self.end
    }

    pub fn len(&self) -> (r: u64)
        requires
            self.start <= self.end,
        ensures
            r == self.end - self.start,
    {
        self.end - self.start
    }

    pub fn contains(&self, addr: u64) -> (r: bool)
        ensures
            r == self.spec_contains(addr),
    {
        addr >= self.start && addr < self.end
    }

    /// The same region cut to `[start, end)`.
    pub fn with_bounds(&self, start: u64, end: u64) -> (r: VmaRegion)
        ensures
            r == (VmaRegion { start, end, ..*self }),
    {
        VmaRegion {
            start,
            end,
            prot: self.prot,
            kind: self.kind,
            flags: self.flags,
            name: self.name.clone(),
            cow: self.cow,
        }
    }
}

/// Some region of `rs` contains `addr`.
pub open spec fn covered(rs: Seq<VmaRegion>, addr: u64) -> bool {
    exists|i: int| 0 <= i < rs.len() && (#[trigger] rs[i]).spec_contains(addr)
}

/// What is left of region `r` outside `[a, e)`: nothing, the part before
/// `a`, the part after `e`, or both.
pub open spec fn cut_region(r: VmaRegion, a: u64, e: u64) -> Seq<VmaRegion> {
    if r.end <= a || r.start >= e {
        seq![r]
    } else {
        (if r.start < a { seq![VmaRegion { end: a, ..r }] } else { Seq::empty() }) + (if r.end > e {
            seq![VmaRegion { start: e, ..r }]
        } else {
            Seq::empty()
        })
    }
}

/// The region list after cutting `[a, e)` out of each of the first `n`
/// regions, in order.
pub open spec fn cut_regions(rs: Seq<VmaRegion>, a: u64, e: u64, n: int) -> Seq<VmaRegion>
    decreases n,
{
    if n <= 0 { Seq::empty() } else { cut_regions(rs, a, e, n - 1) + cut_region(rs[n - 1], a, e) }
}

pub proof fn lemma_cut_region_covers(r: VmaRegion, a: u64, e: u64, addr: u64)
    ensures
        covered(cut_region(r, a, e), addr) == (r.spec_contains(addr) && !(a <= addr < e)),
{
    let c = cut_region(r, a, e);
    if r.end <= a || r.start >= e {
        assert(c[0] == r);
    } else {
        if r.spec_contains(addr) && !(a <= addr < e) {
            if addr < a {
                assert(c[0].spec_contains(addr));
            } else {
                let k = if r.start < a { 1int } else { 0int };
                assert(c[k].spec_contains(addr));
            }
        }
    }
}

pub proof fn lemma_covered_concat(p: Seq<VmaRegion>, q: Seq<VmaRegion>, addr: u64)
    ensures
        covered(p + q, addr) == (covered(p, addr) || covered(q, addr)),
{
    if covered(p + q, addr) {
        let i = choose|i: int| 0 <= i < (p + q).len() && (#[trigger] (p + q)[i]).spec_contains(addr);
        if i < p.len() {
            assert(p[i] == (p + q)[i]);
        } else {
            assert(q[i - p.len()] == (p + q)[i]);
        }
    }
    if covered(p, addr) {
        let i = choose|i: int| 0 <= i < p.len() && (#[trigger] p[i]).spec_contains(addr);
        assert((p + q)[i] == p[i]);
    }
    if covered(q, addr) {
        let i = choose|i: int| 0 <= i < q.len() && (#[trigger] q[i]).spec_contains(addr);
        assert((p + q)[p.len() + i] == q[i]);
    }
}

pub proof fn lemma_cut_regions_covers(rs: Seq<VmaRegion>, a: u64, e: u64, n: int, addr: u64)
    requires
        0 <= n <= rs.len(),
    ensures
        covered(cut_regions(rs, a, e, n), addr) == (covered(rs.subrange(0, n), addr) && !(a <= addr < e)),
    decreases n,
{
    if n > 0 {
        lemma_cut_regions_covers(rs, a, e, n - 1, addr);
        lemma_cut_region_covers(rs[n - 1], a, e, addr);
        let p = cut_regions(rs, a, e, n - 1);
        let q = cut_region(rs[n - 1], a, e);
        lemma_covered_concat(p, q, addr);
        let pre = rs.subrange(0, n - 1);
        let all = rs.subrange(0, n);
        assert(all =~= pre + seq![rs[n - 1]]);
        lemma_covered_concat(pre, seq![rs[n - 1]], addr);
        if covered(seq![rs[n - 1]], addr) {
            let i = choose|i: int| 0 <= i < 1 && (#[trigger] seq![rs[n - 1]][i]).spec_contains(addr);
        }
        if rs[n - 1].spec_contains(addr) {
            assert(seq![rs[n - 1]][0].spec_contains(addr));
        }
    } else {
        assert(rs.subrange(0, 0) =~= Seq::<VmaRegion>::empty());
    }
}

/// The page-aligned range `[start, end)` covering `len` bytes from `addr`.
pub open spec fn unmap_range(addr: u64, len: u64) -> (u64, u64) {
    (
        (addr - addr % PAGE_SIZE) as u64,
        ((addr + len + PAGE_SIZE - 1) - (addr + len + PAGE_SIZE - 1) % (PAGE_SIZE as int)) as u64,
    )
}

fn page_align_down(x: u64) -> (r: u64)
    ensures
        r == x - x % PAGE_SIZE,
{
    assert(x & !4095u64 == x - x % 4096) by (bit_vector);
    x & !(PAGE_SIZE - 1)
}

/// An address space: its page-table root and its regions.
pub struct AddressSpace {
    pub pml4_phys: u64,
    pub regions: Vec<VmaRegion>,
    pub brk: u64,
    pub brk_start: u64,
    pub mmap_base: u64,
    pub stack_start: u64,
    pub stack_end: u64,
    pub is_shared: bool,
}

/// A mapping of `size` bytes placed at `addr` by a hint and the mmap
/// area's next address `base`, which becomes `new_base`: the page-aligned
/// hint when it is non-zero, ends below the stack and overlaps no region
/// of `regions` (the area stays); otherwise `base`, and the area moves
/// past the mapping and one guard page.
pub open spec fn placed(regions: Seq<VmaRegion>, base: u64, hint: Option<u64>, size: int, addr: int, new_base: int) -> bool {
    let ok = hint matches Some(h) && (h - h % PAGE_SIZE) > 0
        && (h - h % PAGE_SIZE) + size < STACK_TOP
        && range_free(regions, h - h % PAGE_SIZE, size);
    if ok {
        addr == hint->0 - hint->0 % PAGE_SIZE && new_base == base
    } else {
        addr == base && new_base == base + size + PAGE_SIZE
    }
}

impl AddressSpace {
    /// The kernel's own address space, rooted at `pml4_phys`.
    pub fn new_kernel(pml4_phys: u64) -> (r: AddressSpace)
        ensures
            r.pml4_phys == pml4_phys,
            r.regions@.len() == 0,
            r.brk == 0 && r.brk_start == 0,
            r.mmap_base == MMAP_BASE,
            r.stack_start == 0 && r.stack_end == 0,
            !r.is_shared,
    {
        AddressSpace {
            pml4_phys,
            regions: Vec::new(),
            brk: 0,
            brk_start: 0,
            mmap_base: MMAP_BASE,
            stack_start: 0,
            stack_end: 0,
            is_shared: false,
        }
    }

    /// A fresh user address space rooted at `pml4_phys`.
    pub fn new_user_layout(pml4_phys: u64) -> (r: AddressSpace)
        ensures
            r.pml4_phys == pml4_phys,
            r.regions@.len() == 0,
            r.brk == BRK_START && r.brk_start == BRK_START,
            r.mmap_base == MMAP_BASE,
            r.stack_start == 0 && r.stack_end == STACK_TOP,
            !r.is_shared,
    {
        AddressSpace {
            pml4_phys,
            regions: Vec::new(),
            brk: BRK_START,
            brk_start: BRK_START,
            mmap_base: MMAP_BASE,
            stack_start: 0,
            stack_end: STACK_TOP,
            is_shared: false,
        }
    }

    /// An address space that shares the page tables at `pml4_phys` and is
    /// never torn down by `release`.
    pub fn shared(pml4_phys: u64) -> (r: AddressSpace)
        ensures
            r.pml4_phys == pml4_phys,
            r.regions@.len() == 0,
            r.brk == BRK_START && r.brk_start == BRK_START,
            r.mmap_base == MMAP_BASE,
            r.stack_start == 0 && r.stack_end == STACK_TOP,
            r.is_shared,
    {
        AddressSpace {
            pml4_phys,
            regions: Vec::new(),
            brk: BRK_START,
            brk_start: BRK_START,
            mmap_base: MMAP_BASE,
            stack_start: 0,
            stack_end: STACK_TOP,
            is_shared: true,
        }
    }

    /// The first region containing `addr`.
    pub fn find_region(&self, addr: u64) -> (r: Option<&VmaRegion>)
        ensures
            r is None ==> !covered(self.regions@, addr),
            r is Some ==> exists|i: int| 0 <= i < self.regions@.len() && self.regions@[i] == *r->0
                && r->0.spec_contains(addr)
                && forall|j: int| 0 <= j < i ==> !(#[trigger] self.regions@[j]).spec_contains(addr),
    {
        let mut i: usize = 0;
        while i < self.regions.len()
            invariant
                i <= self.regions@.len(),
                forall|j: int| 0 <= j < i ==> !(#[trigger] self.regions@[j]).spec_contains(addr),
            decreases self.regions@.len() - i,
        {
            if self.regions[i].contains(addr) {
                return Some(&self.regions[i]);
            }
            i = i + 1;
        }
        None
    }

    /// Removes `[addr, addr + len)`, rounded out to pages, from the region
    /// list: regions outside are kept, regions inside dropped, regions
    /// straddling an edge cut back to the part outside. Returns the page
    /// range whose mappings the caller tears down (`None` for `len == 0`).
    pub fn munmap(&mut self, addr: u64, len: u64) -> (r: Option<(u64, u64)>)
        requires
            addr + len + PAGE_SIZE - 1 <= u64::MAX,
        ensures
            len == 0 ==> r is None && final(self).regions@ == old(self).regions@,
            len > 0 ==> r == Some(unmap_range(addr, len))
                && final(self).regions@ == cut_regions(old(self).regions@, unmap_range(addr, len).0,
                    unmap_range(addr, len).1, old(self).regions@.len() as int),
            final(self).pml4_phys == old(self).pml4_phys,
            final(self).brk == old(self).brk,
            final(self).brk_start == old(self).brk_start,
            final(self).mmap_base == old(self).mmap_base,
            final(self).stack_start == old(self).stack_start,
            final(self).stack_end == old(self).stack_end,
            final(self).is_shared == old(self).is_shared,
    {
        if len == 0 {
            return None;
        }
        let a = page_align_down(addr);
        let e = page_align_down(addr + len + (PAGE_SIZE - 1));
        let ghost old_rs = self.regions@;
        let mut out: Vec<VmaRegion> = Vec::new();
        let mut i: usize = 0;
        while i < self.regions.len()
            invariant
                self.regions@ == old_rs,
                i <= old_rs.len(),
                out@ == cut_regions(old_rs, a, e, i as int),
            decreases old_rs.len() - i,
        {
            let r = &self.regions[i];
            let ghost piece = cut_region(*r, a, e);
            if r.end <= a || r.start >= e {
                out.push(r.with_bounds(r.start, r.end));
                proof {
                    assert(out@ =~= cut_regions(old_rs, a, e, i as int) + piece);
                }
            } else {
                let ghost before = out@;
                if r.start < a {
                    out.push(r.with_bounds(r.start, a));
                }
                if r.end > e {
                    out.push(r.with_bounds(e, r.end));
                }
                proof {
                    assert(out@ =~= before + piece);
                }
            }
            i = i + 1;
        }
        self.regions = out;
        Some((a, e))
    }
}

/// After `munmap(addr, len)`, an address is covered by a region exactly
/// when it was covered before and lies outside the unmapped pages.
pub proof fn law_munmap_coverage(rs: Seq<VmaRegion>, a: u64, e: u64, addr: u64)
    ensures
        covered(cut_regions(rs, a, e, rs.len() as int), addr) == (covered(rs, addr) && !(a <= addr < e)),
{
    lemma_cut_regions_covers(rs, a, e, rs.len() as int, addr);
    assert(rs.subrange(0, rs.len() as int) =~= rs);
}


/// No region of `rs` overlaps `[a, a + size)`.
pub open spec fn range_free(rs: Seq<VmaRegion>, a: int, size: int) -> bool {
    forall|i: int| 0 <= i < rs.len() ==> !((#[trigger] rs[i]).start < a + size && rs[i].end > a)
}

/// The first heap region, or -1.
pub open spec fn first_heap(rs: Seq<VmaRegion>, i: int) -> int
    decreases rs.len() - i,
{
    if i < 0 || i >= rs.len() {
        -1
    } else if rs[i].kind is Heap {
        i
    } else {
        first_heap(rs, i + 1)
    }
}

proof fn lemma_first_heap_range(rs: Seq<VmaRegion>, i: int)
    requires
        0 <= i,
    ensures
        first_heap(rs, i) == -1 || (i <= first_heap(rs, i) < rs.len() && rs[first_heap(rs, i)].kind is Heap),
    decreases rs.len() - i,
{
    if i < rs.len() && !(rs[i].kind is Heap) {
        lemma_first_heap_range(rs, i + 1);
    }
}

/// `x` rounded up to a page boundary.
pub open spec fn page_up(x: int) -> int {
    (x + PAGE_SIZE - 1) / (PAGE_SIZE as int) * (PAGE_SIZE as int)
}

fn page_align_up(x: u64) -> (r: u64)
    requires
        x + PAGE_SIZE - 1 <= u64::MAX,
    ensures
        r == page_up(x as int),
{
    (x + (PAGE_SIZE - 1)) / PAGE_SIZE * PAGE_SIZE
}

/// What a change of the program break asks of the page tables: a range to
/// unmap, or `pages` fresh zeroed pages to map from `map_at`.
pub struct BrkOutcome {
    pub brk: u64,
    pub unmap: Option<(u64, u64)>,
    pub map_at: u64,
    pub pages: u64,
}

impl AddressSpace {
    /// The page tables this address space runs on, for CR3.
    pub fn activate(&self) -> (r: u64)
        ensures
            r == self.pml4_phys,
    {
        self.pml4_phys
    }

    /// Where a mapping of `size` bytes goes (see `placed`): the page-aligned hint when it
    /// is non-zero, ends below the stack and overlaps no region; otherwise
    /// the next address of the mmap area, which then moves past it and a
    /// guard page.
    pub fn pick_addr(&mut self, hint: Option<u64>, size: u64) -> (r: Option<u64>)
        requires
            old(self).mmap_base + size + PAGE_SIZE <= u64::MAX,
            size <= STACK_TOP,
        ensures
            r is Some,
            final(self).regions@ == old(self).regions@,
            final(self).brk == old(self).brk && final(self).brk_start == old(self).brk_start,
            final(self).pml4_phys == old(self).pml4_phys,
            placed(old(self).regions@, old(self).mmap_base, hint, size as int, r->0 as int, final(self).mmap_base as int),
    {
        match hint {
            Some(h) => {
                let aligned = h / PAGE_SIZE * PAGE_SIZE;
                assert(aligned == h - h % PAGE_SIZE);
                if aligned > 0 && aligned < STACK_TOP && size < STACK_TOP - aligned {
                    let mut i: usize = 0;
                    let mut clash = false;
                    while i < self.regions.len()
                        invariant
                            i <= self.regions@.len(),
                            !clash ==> forall|k: int| 0 <= k < i ==> !((#[trigger] self.regions@[k]).start < aligned + size
                                && self.regions@[k].end > aligned),
                            clash ==> !range_free(self.regions@, aligned as int, size as int),
                            aligned + size < STACK_TOP,
                        decreases self.regions@.len() - i,
                    {
                        let r = &self.regions[i];
                        if r.start < aligned + size && r.end > aligned {
                            clash = true;
                        }
                        i = i + 1;
                    }
                    if !clash {
                        return Some(aligned);
                    }
                }
            },
            None => {},
        }
        let base = self.mmap_base;
        self.mmap_base = self.mmap_base + size + PAGE_SIZE;
        Some(base)
    }

    /// Reserves an anonymous private mapping of `len` bytes (whole pages)
    /// at the address `pick_addr` chooses; the caller backs its pages with
    /// fresh zeroed frames, and unmaps it again if it cannot.
    pub fn mmap(&mut self, hint: Option<u64>, len: u64, prot: Prot) -> (r: Option<u64>)
        requires
            len + PAGE_SIZE - 1 <= u64::MAX,
            page_up(len as int) <= STACK_TOP,
            old(self).mmap_base + page_up(len as int) + PAGE_SIZE <= u64::MAX,
            old(self).mmap_base + page_up(len as int) <= u64::MAX - PAGE_SIZE,
        ensures
            r is Some,
            final(self).regions@.len() == old(self).regions@.len() + 1,
            final(self).regions@.drop_last() == old(self).regions@,
            ({
                let reg = final(self).regions@.last();
                &&& reg.start == r->0
                &&& reg.end == r->0 + page_up(len as int)
                &&& reg.prot == prot
                &&& reg.kind is Anonymous
                &&& reg.flags == MAP_PRIVATE | MAP_ANONYMOUS
                &&& reg.name@.len() == 0
                &&& !reg.cow
            }),
            final(self).brk == old(self).brk && final(self).brk_start == old(self).brk_start,
            placed(old(self).regions@, old(self).mmap_base, hint, page_up(len as int), r->0 as int,
                final(self).mmap_base as int),
    {
        let map_len = page_align_up(len);
        assert(map_len == page_up(len as int));
        let addr = self.pick_addr(hint, map_len).unwrap();
        let ghost before = self.regions@;
        assert(addr + map_len <= u64::MAX) by {
            assert(addr <= STACK_TOP || addr == old(self).mmap_base);
        }
        self.regions.push(VmaRegion {
            start: addr,
            end: addr + map_len,
            prot,
            kind: RegionKind::Anonymous,
            flags: MAP_PRIVATE | MAP_ANONYMOUS,
            name: String::new(),
            cow: false,
        });
        assert(self.regions@.drop_last() =~= before);
        Some(addr)
    }

    /// Moves the program break to `new_brk`. Below the heap's start it is
    /// refused (the old break is returned). Shrinking unmaps whole pages
    /// past the new end and trims the heap region (never below its start);
    /// growing maps the pages up to the new end (`grown` says whether the
    /// caller could back them) and extends or creates the heap region.
    pub fn set_brk(&mut self, new_brk: u64, grown: bool) -> (r: BrkOutcome)
        requires
            new_brk + PAGE_SIZE - 1 <= u64::MAX,
            old(self).brk + PAGE_SIZE - 1 <= u64::MAX,
            old(self).brk_start + PAGE_SIZE - 1 <= u64::MAX,
            old(self).brk + 2 * PAGE_SIZE <= u64::MAX,
        ensures
            new_brk < old(self).brk_start ==> r.brk == old(self).brk && final(self).regions@ == old(self).regions@
                && final(self).brk == old(self).brk,
            old(self).brk_start <= new_brk && new_brk < old(self).brk ==> r.brk == new_brk && final(self).brk == new_brk && ({
                let ne = page_up(new_brk as int);
                let oe = page_up(old(self).brk as int);
                let cut = if ne < oe {
                    cut_regions(old(self).regions@, unmap_range(ne as u64, (oe - ne) as u64).0,
                        unmap_range(ne as u64, (oe - ne) as u64).1, old(self).regions@.len() as int)
                } else {
                    old(self).regions@
                };
                let h = first_heap(cut, 0);
                let bsa = page_up(old(self).brk_start as int);
                &&& r.unmap == if ne < oe { Some(unmap_range(ne as u64, (oe - ne) as u64)) } else { None::<(u64, u64)> }
                &&& h >= 0 ==> final(self).regions@ == cut.update(h, final(self).regions@[h])
                    && final(self).regions@[h].end == (if ne > bsa { ne } else { bsa })
                    && final(self).regions@[h].start == cut[h].start
                &&& h < 0 ==> final(self).regions@ == cut
            }),
            new_brk == old(self).brk && old(self).brk_start <= new_brk ==> r.brk == old(self).brk
                && final(self).regions@ == old(self).regions@ && r.pages == 0 && r.unmap is None
                && final(self).brk == old(self).brk,
            old(self).brk_start <= new_brk && new_brk > old(self).brk ==> {
                &&& r.map_at == page_up(old(self).brk as int)
                &&& r.pages == if page_up(old(self).brk as int) < page_up(new_brk as int) {
                    (page_up(new_brk as int) - page_up(old(self).brk as int)) / (PAGE_SIZE as int)
                } else { 0 }
                &&& (r.pages > 0 && !grown) ==> r.brk == old(self).brk && final(self).brk == old(self).brk
                    && final(self).regions@ == old(self).regions@
                &&& (r.pages == 0 || grown) ==> r.brk == new_brk && final(self).brk == new_brk && ({
                    let h = first_heap(old(self).regions@, 0);
                    if h >= 0 {
                        final(self).regions@ == old(self).regions@.update(h, final(self).regions@[h])
                            && final(self).regions@[h].end == page_up(new_brk as int)
                            && final(self).regions@[h].start == old(self).regions@[h].start
                    } else {
                        final(self).regions@.drop_last() == old(self).regions@
                            && final(self).regions@.last().start == page_up(old(self).brk_start as int)
                            && final(self).regions@.last().end == page_up(new_brk as int)
                            && final(self).regions@.last().kind is Heap
                    }
                })
            },
    {
        let none = BrkOutcome { brk: self.brk, unmap: None, map_at: 0, pages: 0 };
        if new_brk < self.brk_start {
            return none;
        }
        let old_brk = self.brk;
        let old_end = page_align_up(old_brk);
        let new_end = page_align_up(new_brk);
        let bsa = page_align_up(self.brk_start);
        proof {
            lemma_first_heap_range(self.regions@, 0);
        }
        if new_brk < old_brk {
            let mut unmap: Option<(u64, u64)> = None;
            if new_end < old_end {
                unmap = self.munmap(new_end, old_end - new_end);
            }
            proof {
                lemma_first_heap_range(self.regions@, 0);
            }
            let ghost cut = self.regions@;
            let h = self.find_heap();
            match h {
                Some(i) => {
                    let mut reg = self.regions.remove(i);
                    reg.end = if new_end > bsa { new_end } else { bsa };
                    self.regions.insert(i, reg);
                    assert(self.regions@ =~= cut.update(i as int, self.regions@[i as int]));
                },
                None => {},
            }
            self.brk = new_brk;
            return BrkOutcome { brk: new_brk, unmap, map_at: 0, pages: 0 };
        }
        if new_brk == old_brk {
            return none;
        }
        let pages: u64 = if old_end < new_end { (new_end - old_end) / PAGE_SIZE } else { 0 };
        if pages > 0 && !grown {
            return BrkOutcome { brk: old_brk, unmap: None, map_at: old_end, pages };
        }
        let ghost before = self.regions@;
        match self.find_heap() {
            Some(i) => {
                let mut reg = self.regions.remove(i);
                reg.end = new_end;
                self.regions.insert(i, reg);
                assert(self.regions@ =~= before.update(i as int, self.regions@[i as int]));
            },
            None => {
                self.regions.push(VmaRegion {
                    start: bsa,
                    end: new_end,
                    prot: Prot { bits: PROT_READ | PROT_WRITE },
                    kind: RegionKind::Heap,
                    flags: MAP_PRIVATE,
                    name: "[heap]".to_owned(),
                    cow: false,
                });
                assert(self.regions@.drop_last() =~= before);
            },
        }
        self.brk = new_brk;
        BrkOutcome { brk: new_brk, unmap: None, map_at: old_end, pages }
    }

    /// The index of the first heap region.
    fn find_heap(&self) -> (r: Option<usize>)
        ensures
            r is None <==> first_heap(self.regions@, 0) == -1,
            r matches Some(i) ==> i as int == first_heap(self.regions@, 0),
    {
        proof {
            lemma_first_heap_range(self.regions@, 0);
        }
        let mut i: usize = 0;
        while i < self.regions.len()
            invariant
                i <= self.regions@.len(),
                first_heap(self.regions@, 0) == first_heap(self.regions@, i as int),
            decreases self.regions@.len() - i,
        {
            let is_heap = match self.regions[i].kind {
                RegionKind::Heap => true,
                _ => false,
            };
            if is_heap {
                return Some(i);
            }
            i = i + 1;
        }
        None
    }
}

/// Nothing to set up: address spaces are created with their processes.
pub fn init() {
}

// ── mmap with flags ─────────────────────────────────────────────────────

/// The page work of a mapping: `pages` fresh zeroed frames (holding the
/// file's bytes for a file mapping) mapped from `addr` with `flags`.
pub struct MmapPlan {
    pub addr: u64,
    pub pages: u64,
    pub flags: PageFlags,
}

/// The kind of region a mapping makes: shared for a shared file mapping,
/// else anonymous (a private file mapping keeps no link to the file).
pub open spec fn mmap_kind(file_backed: bool, flags: u32) -> RegionKind {
    if file_backed && flags & MAP_SHARED != 0 { RegionKind::Shared } else { RegionKind::Anonymous }
}

impl AddressSpace {
    /// Maps `len` bytes (whole pages) with `prot` and the Linux `flags`.
    /// With `MAP_FIXED` the mapping goes at the page-aligned hint, which is
    /// required, must be non-zero and must end below the stack; whatever
    /// was mapped there is unmapped first. Otherwise `pick_addr` chooses.
    /// `backed` says whether the frames for the pages can be had; without
    /// them the call fails after the address was chosen, adding no region.
    pub fn mmap_full(&mut self, hint: Option<u64>, len: u64, prot: Prot, flags: u32, file_backed: bool, backed: bool)
        -> (r: Option<MmapPlan>)
        requires
            len + PAGE_SIZE - 1 <= u64::MAX,
            page_up(len as int) <= STACK_TOP,
            old(self).mmap_base + page_up(len as int) + PAGE_SIZE <= u64::MAX,
        ensures
            ({
                let size = page_up(len as int);
                let fixed = flags & MAP_FIXED != 0;
                let at = if hint is Some { hint->0 - hint->0 % PAGE_SIZE } else { 0 };
                let refused = fixed && (hint is None || at == 0 || at + size > STACK_TOP);
                let rs = if fixed && size > 0 {
                    cut_regions(old(self).regions@, at as u64, (at + size) as u64, old(self).regions@.len() as int)
                } else {
                    old(self).regions@
                };
                &&& refused ==> r is None && final(self).regions@ == old(self).regions@
                    && final(self).mmap_base == old(self).mmap_base
                &&& !refused ==> {
                    let addr = if fixed { at } else { r->0.addr as int };
                    &&& fixed ==> final(self).mmap_base == old(self).mmap_base
                    &&& !fixed && r is Some ==> placed(old(self).regions@, old(self).mmap_base, hint, size, addr,
                        final(self).mmap_base as int)
                    &&& !fixed ==> exists|a: int| #[trigger] placed(old(self).regions@, old(self).mmap_base, hint, size, a,
                        final(self).mmap_base as int)
                    &&& !backed ==> r is None && final(self).regions@ == rs
                    &&& backed ==> r is Some && r->0.addr == addr && r->0.pages == size / PAGE_SIZE as int
                        && r->0.flags == spec_prot_to_flags(prot)
                        && final(self).regions@.drop_last() == rs
                        && final(self).regions@.last() == (VmaRegion { start: addr as u64, end: (addr + size) as u64,
                            prot, kind: mmap_kind(file_backed, flags), flags, name: final(self).regions@.last().name,
                            cow: false })
                        && final(self).regions@.last().name@.len() == 0
                }
            }),
            final(self).brk == old(self).brk && final(self).brk_start == old(self).brk_start,
            final(self).pml4_phys == old(self).pml4_phys,
    {
        let size = page_align_up(len);
        let fixed = flags & MAP_FIXED != 0;
        let addr = if fixed {
            let h = match hint {
                Some(h) => h,
                None => {
                    return None;
                },
            };
            let at = h / PAGE_SIZE * PAGE_SIZE;
            assert(at == h - h % PAGE_SIZE);
            if at == 0 || at > STACK_TOP || size > STACK_TOP - at {
                return None;
            }
            if size > 0 {
                let _ = self.munmap(at, size);
                proof {
                    assert(unmap_range(at, size) == (at, (at + size) as u64)) by {
                        assert(at % PAGE_SIZE == 0);
                        assert(size % PAGE_SIZE == 0);
                        assert((at + size + PAGE_SIZE - 1) - (at + size + PAGE_SIZE - 1) % (PAGE_SIZE as int) == at + size);
                    }
                }
            }
            at
        } else {
            let ghost before = self.regions@;
            let a = self.pick_addr(hint, size).unwrap();
            proof {
                assert(self.regions@ == before);
                assert(placed(old(self).regions@, old(self).mmap_base, hint, size as int, a as int, self.mmap_base as int));
            }
            a
        };
        if !backed {
            return None;
        }
        let kind = if file_backed && flags & MAP_SHARED != 0 { RegionKind::Shared } else { RegionKind::Anonymous };
        let ghost rs = self.regions@;
        assert(addr + size <= u64::MAX) by {
            assert(addr <= STACK_TOP || addr == old(self).mmap_base);
        }
        self.regions.push(VmaRegion { start: addr, end: addr + size, prot, kind, flags, name: String::new(), cow: false });
        assert(self.regions@.drop_last() =~= rs);
        Some(MmapPlan { addr, pages: size / PAGE_SIZE, flags: prot_to_flags(prot) })
    }
}

// ── mremap ──────────────────────────────────────────────────────────────

/// The first region from `i` on that covers `[a, e)`, or -1.
pub open spec fn find_cover(rs: Seq<VmaRegion>, a: int, e: int, i: int) -> int
    decreases rs.len() - i,
{
    if i < 0 || i >= rs.len() { -1 } else if rs[i].start <= a && rs[i].end >= e { i } else { find_cover(rs, a, e, i + 1) }
}

/// The first region from `i` on that starts at `a` (and, when `exact`,
/// ends at `e`), or -1.
pub open spec fn find_start(rs: Seq<VmaRegion>, a: int, e: int, exact: bool, i: int) -> int
    decreases rs.len() - i,
{
    if i < 0 || i >= rs.len() {
        -1
    } else if rs[i].start == a && (!exact || rs[i].end == e) {
        i
    } else {
        find_start(rs, a, e, exact, i + 1)
    }
}

proof fn lemma_find_start(rs: Seq<VmaRegion>, a: int, e: int, exact: bool, i: int)
    requires
        0 <= i,
    ensures
        find_start(rs, a, e, exact, i) == -1 || (i <= find_start(rs, a, e, exact, i) < rs.len()),
    decreases rs.len() - i,
{
    if i < rs.len() && !(rs[i].start == a && (!exact || rs[i].end == e)) {
        lemma_find_start(rs, a, e, exact, i + 1);
    }
}

proof fn lemma_find_cover(rs: Seq<VmaRegion>, a: int, e: int, i: int)
    requires
        0 <= i,
    ensures
        find_cover(rs, a, e, i) == -1 || (i <= find_cover(rs, a, e, i) < rs.len()),
    decreases rs.len() - i,
{
    if i < rs.len() && !(rs[i].start <= a && rs[i].end >= e) {
        lemma_find_cover(rs, a, e, i + 1);
    }
}

/// `rs` with the end of its first region starting at `a` (ending at `e`
/// when `exact`) moved to `end`; unchanged when there is none.
pub open spec fn set_end(rs: Seq<VmaRegion>, a: int, e: int, exact: bool, end: u64) -> Seq<VmaRegion> {
    let k = find_start(rs, a, e, exact, 0);
    if k < 0 { rs } else { rs.update(k, VmaRegion { end, ..rs[k] }) }
}

/// `rs` without `[a, e)`.
pub open spec fn cut_all(rs: Seq<VmaRegion>, a: int, e: int) -> Seq<VmaRegion> {
    cut_regions(rs, a as u64, e as u64, rs.len() as int)
}

/// The page work of `mremap`.
pub enum MremapPlan {
    /// The mapping at `addr` is gone: unmap `[addr, end)`.
    Unmapped { addr: u64, end: u64 },
    /// Kept at `addr`, cut back: unmap the pages in `unmap`, if any.
    InPlace { addr: u64, unmap: Option<(u64, u64)> },
    /// Grown at `addr`: map `pages` fresh zeroed pages from `map_at`.
    Grown { addr: u64, map_at: u64, pages: u64, flags: PageFlags },
    /// Moved to `dest`: map `pages` fresh zeroed pages there, copying the
    /// first `copy` pages from `from`; then unmap `[from, from_end)`.
    Moved { dest: u64, pages: u64, copy: u64, from: u64, from_end: u64, flags: PageFlags },
}

pub fn find_cover_exec(rs: &Vec<VmaRegion>, a: u64, e: u64) -> (r: Option<usize>)
    ensures
        match r { Some(i) => find_cover(rs@, a as int, e as int, 0) == i, None => find_cover(rs@, a as int, e as int, 0) == -1 },
{
    let mut i: usize = 0;
    while i < rs.len()
        invariant
            i <= rs@.len(),
            find_cover(rs@, a as int, e as int, 0) == find_cover(rs@, a as int, e as int, i as int),
        decreases rs@.len() - i,
    {
        if rs[i].start <= a && rs[i].end >= e {
            return Some(i);
        }
        i = i + 1;
    }
    None
}

pub fn find_start_exec(rs: &Vec<VmaRegion>, a: u64, e: u64, exact: bool) -> (r: Option<usize>)
    ensures
        match r { Some(i) => find_start(rs@, a as int, e as int, exact, 0) == i,
            None => find_start(rs@, a as int, e as int, exact, 0) == -1 },
{
    let mut i: usize = 0;
    while i < rs.len()
        invariant
            i <= rs@.len(),
            find_start(rs@, a as int, e as int, exact, 0) == find_start(rs@, a as int, e as int, exact, i as int),
        decreases rs@.len() - i,
    {
        if rs[i].start == a && (!exact || rs[i].end == e) {
            return Some(i);
        }
        i = i + 1;
    }
    None
}

impl AddressSpace {
    fn set_region_end(&mut self, i: usize, end: u64)
        requires
            i < old(self).regions@.len(),
        ensures
            final(self).regions@ == old(self).regions@.update(i as int, VmaRegion { end, ..old(self).regions@[i as int] }),
            final(self).pml4_phys == old(self).pml4_phys && final(self).brk == old(self).brk
                && final(self).brk_start == old(self).brk_start && final(self).mmap_base == old(self).mmap_base,
    {
        let g = &self.regions[i];
        let n = g.with_bounds(g.start, end);
        self.regions.set(i, n);
    }

    /// Resizes or moves the mapping at `old_addr` (`old_len` bytes, whole
    /// pages) to `new_len` bytes. A mapping starting at page 0 or reaching
    /// past the stack is refused. The protection, kind and flags come from
    /// the first region covering it (read-write private anonymous without
    /// one). A new length of 0 unmaps it; a smaller one cuts it back in
    /// place. A larger one grows in place when the pages after it are free
    /// and `can_extend` says they can be backed; otherwise, with
    /// `MREMAP_MAYMOVE`, it moves: to the page-aligned `new_addr` with
    /// `MREMAP_FIXED` (unmapping what was there) or to where `pick_addr`
    /// chooses, provided `can_alloc` says its pages can be backed.
    #[verifier::rlimit(60)]
    pub fn mremap(&mut self, old_addr: u64, old_len: u64, new_len: u64, flags: u32, new_addr: u64, can_extend: bool,
        can_alloc: bool) -> (r: Option<MremapPlan>)
        requires
            old_addr + PAGE_SIZE <= u64::MAX,
            old_len + PAGE_SIZE - 1 <= u64::MAX,
            new_len + PAGE_SIZE - 1 <= u64::MAX,
            page_up(new_len as int) <= STACK_TOP,
            old(self).mmap_base + page_up(new_len as int) + PAGE_SIZE <= u64::MAX,
            new_addr + page_up(new_len as int) + PAGE_SIZE <= u64::MAX,
        ensures
            final(self).pml4_phys == old(self).pml4_phys && final(self).brk == old(self).brk
                && final(self).brk_start == old(self).brk_start,
            ({
                let rs = old(self).regions@;
                let oa = old_addr - old_addr % PAGE_SIZE;
                let olen = page_up(old_len as int);
                let nlen = page_up(new_len as int);
                let c = find_cover(rs, oa, oa + olen, 0);
                let prot = if c >= 0 { rs[c].prot } else { Prot { bits: PROT_READ | PROT_WRITE } };
                let kind = if c >= 0 { rs[c].kind } else { RegionKind::Anonymous };
                let mflags = if c >= 0 { rs[c].flags } else { MAP_PRIVATE };
                let ext = oa + olen;
                let grow_ok = range_free(rs, ext, nlen - olen) && can_extend;
                let fixed = flags & MREMAP_FIXED != 0 && new_addr != 0;
                let na = new_addr - new_addr % PAGE_SIZE;
                let rs2 = if fixed && nlen > 0 { cut_all(rs, na, na + nlen) } else { rs };
                if oa == 0 || oa + olen > STACK_TOP {
                    r is None && final(self).regions@ == rs && final(self).mmap_base == old(self).mmap_base
                } else if new_len == 0 {
                    &&& r == Some(MremapPlan::Unmapped { addr: oa as u64, end: (oa + olen) as u64 })
                    &&& final(self).regions@ == if olen > 0 { cut_all(rs, oa, oa + olen) } else { rs }
                    &&& final(self).mmap_base == old(self).mmap_base
                } else if nlen <= olen {
                    let cut = if nlen < olen { cut_all(rs, oa + nlen, oa + olen) } else { rs };
                    &&& r == Some(MremapPlan::InPlace { addr: oa as u64,
                        unmap: if nlen < olen { Some(((oa + nlen) as u64, (oa + olen) as u64)) } else { None } })
                    &&& final(self).regions@ == set_end(cut, oa, 0, false, (oa + nlen) as u64)
                    &&& final(self).mmap_base == old(self).mmap_base
                } else if grow_ok {
                    let k = find_start(rs, oa, oa + olen, true, 0);
                    &&& r == Some(MremapPlan::Grown { addr: oa as u64, map_at: ext as u64,
                        pages: ((nlen - olen) / PAGE_SIZE as int) as u64, flags: spec_prot_to_flags(prot) })
                    &&& final(self).mmap_base == old(self).mmap_base
                    &&& k >= 0 ==> final(self).regions@ == set_end(rs, oa, oa + olen, true, (oa + nlen) as u64)
                    &&& k < 0 ==> final(self).regions@.drop_last() == rs
                        && final(self).regions@.last() == (VmaRegion { start: oa as u64, end: (oa + nlen) as u64,
                            prot, kind, flags: mflags, name: final(self).regions@.last().name, cow: false })
                        && final(self).regions@.last().name@.len() == 0
                } else if flags & MREMAP_MAYMOVE == 0 {
                    r is None && final(self).regions@ == rs && final(self).mmap_base == old(self).mmap_base
                } else {
                    let dest: int = if fixed { na } else { old(self).mmap_base as int };
                    &&& fixed ==> final(self).mmap_base == old(self).mmap_base
                    &&& !fixed ==> final(self).mmap_base == old(self).mmap_base + nlen + PAGE_SIZE
                    &&& !can_alloc ==> r is None && final(self).regions@ == rs2
                    &&& can_alloc ==> {
                        &&& r == Some(MremapPlan::Moved { dest: dest as u64, pages: (nlen / PAGE_SIZE as int) as u64,
                            copy: (olen / PAGE_SIZE as int) as u64, from: oa as u64, from_end: (oa + olen) as u64,
                            flags: spec_prot_to_flags(prot) })
                        &&& final(self).regions@.drop_last() == (if olen > 0 { cut_all(rs2, oa, oa + olen) } else { rs2 })
                        &&& final(self).regions@.last() == (VmaRegion { start: dest as u64, end: (dest + nlen) as u64,
                            prot, kind, flags: mflags, name: final(self).regions@.last().name, cow: false })
                        &&& final(self).regions@.last().name@.len() == 0
                    }
                }
            }),
    {
        let oa = old_addr / PAGE_SIZE * PAGE_SIZE;
        assert(oa == old_addr - old_addr % PAGE_SIZE);
        let olen = page_align_up(old_len);
        let nlen = page_align_up(new_len);
        if oa == 0 || oa > STACK_TOP || olen > STACK_TOP - oa {
            return None;
        }
        proof {
            lemma_find_cover(self.regions@, oa as int, oa + olen, 0);
        }
        let (prot, kind, mflags) = match find_cover_exec(&self.regions, oa, oa + olen) {
            Some(i) => (self.regions[i].prot, self.regions[i].kind, self.regions[i].flags),
            None => (Prot { bits: PROT_READ | PROT_WRITE }, RegionKind::Anonymous, MAP_PRIVATE),
        };
        proof {
            lemma_find_cover(self.regions@, oa as int, oa + olen, 0);
        }
        if new_len == 0 {
            if olen > 0 {
                let _ = self.munmap(oa, olen);
                proof {
                    assert(unmap_range(oa, olen) == (oa, (oa + olen) as u64)) by {
                        assert((oa + olen + PAGE_SIZE - 1) - (oa + olen + PAGE_SIZE - 1) % (PAGE_SIZE as int) == oa + olen);
                    }
                }
            }
            return Some(MremapPlan::Unmapped { addr: oa, end: oa + olen });
        }
        if nlen <= olen {
            let unmap = if nlen < olen {
                let _ = self.munmap(oa + nlen, olen - nlen);
                proof {
                    assert(unmap_range((oa + nlen) as u64, (olen - nlen) as u64) == ((oa + nlen) as u64, (oa + olen) as u64)) by {
                        assert((oa + olen + PAGE_SIZE - 1) - (oa + olen + PAGE_SIZE - 1) % (PAGE_SIZE as int) == oa + olen);
                    }
                }
                Some((oa + nlen, oa + olen))
            } else {
                None
            };
            match find_start_exec(&self.regions, oa, 0, false) {
                Some(i) => {
                    proof {
                        lemma_find_start(self.regions@, oa as int, 0, false, 0);
                    }
                    self.set_region_end(i, oa + nlen);
                },
                None => {},
            }
            return Some(MremapPlan::InPlace { addr: oa, unmap });
        }
        let ext = oa + olen;
        let grow = nlen - olen;
        let mut free = true;
        let mut j: usize = 0;
        while j < self.regions.len()
            invariant
                j <= self.regions@.len(),
                free == forall|k: int| 0 <= k < j ==> !((#[trigger] self.regions@[k]).start < ext + grow
                    && self.regions@[k].end > ext),
                ext + grow <= u64::MAX,
            decreases self.regions@.len() - j,
        {
            let g = &self.regions[j];
            if g.start < ext + grow && g.end > ext {
                free = false;
            }
            j = j + 1;
        }
        if free && can_extend {
            match find_start_exec(&self.regions, oa, oa + olen, true) {
                Some(i) => {
                    proof {
                        lemma_find_start(self.regions@, oa as int, oa + olen, true, 0);
                    }
                    self.set_region_end(i, oa + nlen);
                },
                None => {
                    let ghost rs = self.regions@;
                    self.regions.push(VmaRegion { start: oa, end: oa + nlen, prot, kind, flags: mflags,
                        name: String::new(), cow: false });
                    assert(self.regions@.drop_last() =~= rs);
                },
            }
            return Some(MremapPlan::Grown { addr: oa, map_at: ext, pages: grow / PAGE_SIZE, flags: prot_to_flags(prot) });
        }
        if flags & MREMAP_MAYMOVE == 0 {
            return None;
        }
        let fixed = flags & MREMAP_FIXED != 0 && new_addr != 0;
        let dest = if fixed {
            let na = new_addr / PAGE_SIZE * PAGE_SIZE;
            assert(na == new_addr - new_addr % PAGE_SIZE);
            let _ = self.munmap(na, nlen);
            proof {
                assert(unmap_range(na, nlen) == (na, (na + nlen) as u64)) by {
                    assert((na + nlen + PAGE_SIZE - 1) - (na + nlen + PAGE_SIZE - 1) % (PAGE_SIZE as int) == na + nlen);
                }
            }
            na
        } else {
            let base = self.mmap_base;
            self.mmap_base = self.mmap_base + nlen + PAGE_SIZE;
            base
        };
        if !can_alloc {
            return None;
        }
        if olen > 0 {
            let _ = self.munmap(oa, olen);
            proof {
                assert(unmap_range(oa, olen) == (oa, (oa + olen) as u64)) by {
                    assert((oa + olen + PAGE_SIZE - 1) - (oa + olen + PAGE_SIZE - 1) % (PAGE_SIZE as int) == oa + olen);
                }
            }
        }
        let ghost rs = self.regions@;
        self.regions.push(VmaRegion { start: dest, end: dest + nlen, prot, kind, flags: mflags, name: String::new(),
            cow: false });
        assert(self.regions@.drop_last() =~= rs);
        Some(MremapPlan::Moved { dest, pages: nlen / PAGE_SIZE, copy: olen / PAGE_SIZE, from: oa, from_end: oa + olen,
            flags: prot_to_flags(prot) })
    }
}

// ── Fork ────────────────────────────────────────────────────────────────

/// A region whose pages a fork shares copy-on-write: writable, not device
/// memory and not a shared mapping.
pub open spec fn can_cow(r: VmaRegion) -> bool {
    r.prot.bits & PROT_WRITE == PROT_WRITE && !(r.kind is Device) && r.flags & 1 == 0
}

/// A region as it stands on both sides of a fork.
pub open spec fn forked(r: VmaRegion) -> VmaRegion {
    if can_cow(r) { VmaRegion { cow: true, ..r } } else { r }
}

/// The page flags both sides of a fork map a region's pages with:
/// read-only and copy-on-write for a region shared that way, else its own.
pub open spec fn fork_flags(r: VmaRegion) -> PageFlags {
    if can_cow(r) {
        PageFlags { bits: spec_prot_to_flags(Prot { bits: r.prot.bits & !PROT_WRITE }).bits | FLAG_COW }
    } else {
        spec_prot_to_flags(r.prot)
    }
}

/// The page work of a fork for one region: its `pages` pages from
/// `start`, each frame mapped in the child with `flags` and given one
/// more sharer; with `cow`, the parent's mapping is remapped with the same
/// flags.
pub struct ForkMap {
    pub start: u64,
    pub pages: u64,
    pub cow: bool,
    pub flags: PageFlags,
}

/// What a fork decides: the child's address space and, region by region,
/// the page work to carry out.
pub struct ForkPlan {
    pub child: AddressSpace,
    pub maps: Vec<ForkMap>,
}

impl AddressSpace {
    /// Forks this address space into a child rooted at `child_pml4`: the
    /// child gets the same layout and regions; every writable private
    /// non-device region becomes copy-on-write on both sides.
    pub fn copy_on_fork(&mut self, child_pml4: u64) -> (r: ForkPlan)
        requires
            forall|i: int| 0 <= i < old(self).regions@.len() ==> (#[trigger] old(self).regions@[i]).start
                <= old(self).regions@[i].end,
        ensures
            final(self).regions@.len() == old(self).regions@.len(),
            forall|i: int| 0 <= i < old(self).regions@.len() ==> #[trigger] final(self).regions@[i]
                == forked(old(self).regions@[i]),
            r.child.regions@ == final(self).regions@,
            r.child.pml4_phys == child_pml4,
            r.child.brk == old(self).brk && r.child.brk_start == old(self).brk_start,
            r.child.mmap_base == old(self).mmap_base,
            r.child.stack_start == old(self).stack_start && r.child.stack_end == old(self).stack_end,
            !r.child.is_shared,
            final(self).pml4_phys == old(self).pml4_phys && final(self).brk == old(self).brk
                && final(self).brk_start == old(self).brk_start && final(self).mmap_base == old(self).mmap_base
                && final(self).stack_start == old(self).stack_start && final(self).stack_end == old(self).stack_end
                && final(self).is_shared == old(self).is_shared,
            r.maps@.len() == old(self).regions@.len(),
            forall|i: int| 0 <= i < r.maps@.len() ==> {
                let g = old(self).regions@[i];
                &&& (#[trigger] r.maps@[i]).start == g.start
                &&& r.maps@[i].pages == (g.end - g.start) / PAGE_SIZE as int
                &&& r.maps@[i].cow == can_cow(g)
                &&& r.maps@[i].flags == fork_flags(g)
            },
    {
        let mut regions: Vec<VmaRegion> = Vec::new();
        let mut maps: Vec<ForkMap> = Vec::new();
        let ghost old_rs = self.regions@;
        let mut i: usize = 0;
        while i < self.regions.len()
            invariant
                self.regions@ == old_rs,
                forall|k: int| 0 <= k < old_rs.len() ==> (#[trigger] old_rs[k]).start <= old_rs[k].end,
                i <= old_rs.len(),
                regions@.len() == i && maps@.len() == i,
                forall|k: int| 0 <= k < i ==> #[trigger] regions@[k] == forked(old_rs[k]),
                forall|k: int| 0 <= k < i ==> {
                    let g = old_rs[k];
                    &&& (#[trigger] maps@[k]).start == g.start
                    &&& maps@[k].pages == (g.end - g.start) / PAGE_SIZE as int
                    &&& maps@[k].cow == can_cow(g)
                    &&& maps@[k].flags == fork_flags(g)
                },
            decreases old_rs.len() - i,
        {
            let g = &self.regions[i];
            let write = g.prot.contains(Prot { bits: PROT_WRITE });
            let device = match g.kind {
                RegionKind::Device => true,
                _ => false,
            };
            let cow = write && !device && g.flags & 1 == 0;
            let flags = if cow {
                prot_to_flags(g.prot.without(Prot { bits: PROT_WRITE })).union(PageFlags { bits: FLAG_COW })
            } else {
                prot_to_flags(g.prot)
            };
            maps.push(ForkMap { start: g.start, pages: (g.end - g.start) / PAGE_SIZE, cow, flags });
            let mut n = g.with_bounds(g.start, g.end);
            if cow {
                n.cow = true;
            }
            regions.push(n);
            i = i + 1;
        }
        let child_regions = clone_regions(&regions);
        self.regions = regions;
        ForkPlan {
            child: AddressSpace {
                pml4_phys: child_pml4,
                regions: child_regions,
                brk: self.brk,
                brk_start: self.brk_start,
                mmap_base: self.mmap_base,
                stack_start: self.stack_start,
                stack_end: self.stack_end,
                is_shared: false,
            },
            maps,
        }
    }
}

/// A copy of the region list.
pub fn clone_regions(rs: &Vec<VmaRegion>) -> (r: Vec<VmaRegion>)
    ensures
        r@ == rs@,
{
    let mut out: Vec<VmaRegion> = Vec::new();
    let mut i: usize = 0;
    while i < rs.len()
        invariant
            i <= rs@.len(),
            out@ == rs@.take(i as int),
        decreases rs@.len() - i,
    {
        let g = &rs[i];
        out.push(g.with_bounds(g.start, g.end));
        assert(out@ =~= rs@.take(i + 1));
        i = i + 1;
    }
    assert(rs@.take(rs@.len() as int) =~= rs@);
    out
}


/// The page flags of a user mapping: present and user always, writable
/// exactly when the protection has `PROT_WRITE`, no-execute exactly when it
/// lacks `PROT_EXEC`, and no other bit.
pub proof fn law_page_flags_follow_prot(prot: Prot)
    ensures
        ({
            let f = spec_prot_to_flags(prot).bits;
            &&& f & FLAG_PRESENT == FLAG_PRESENT
            &&& f & FLAG_USER == FLAG_USER
            &&& (f & FLAG_WRITABLE != 0) == (prot.bits & PROT_WRITE != 0)
            &&& (f & FLAG_NO_EXECUTE != 0) == (prot.bits & PROT_EXEC == 0)
            &&& f & !0x8000_0000_0000_0007u64 == 0
        }),
{
    crate::flag_bits::lemma_flag_bits(prot.bits, 0, 0, 0);
}


/// Fork shares a region copy-on-write exactly when it is writable, private
/// (not `MAP_SHARED`) and not device memory: then both sides map its pages
/// read-only, marked COW, keeping its execute permission. Any other region
/// keeps its own flags, never marked COW. The region itself only gains
/// the COW mark.
pub proof fn law_fork_cow(r: VmaRegion)
    ensures
        ({
            let cow = r.prot.bits & PROT_WRITE != 0 && r.flags & MAP_SHARED == 0 && !(r.kind is Device);
            let f = fork_flags(r).bits;
            let g = forked(r);
            &&& g.cow == (r.cow || cow)
            &&& g.start == r.start && g.end == r.end && g.prot == r.prot && g.kind == r.kind
                && g.flags == r.flags && g.name == r.name
            &&& (f & FLAG_COW != 0) == cow
            &&& (f & FLAG_WRITABLE != 0) == (r.prot.bits & PROT_WRITE != 0 && !cow)
            &&& (f & FLAG_NO_EXECUTE != 0) == (r.prot.bits & PROT_EXEC == 0)
            &&& f & FLAG_PRESENT == FLAG_PRESENT && f & FLAG_USER == FLAG_USER
        }),
{
    crate::flag_bits::lemma_flag_bits(r.prot.bits, 0, 0, r.prot.bits);
}

/// Rounding up to whole pages gives the smallest multiple of the page size
/// at or above the length.
pub proof fn law_page_up_smallest(x: int)
    requires
        0 <= x,
    ensures
        page_up(x) % (PAGE_SIZE as int) == 0,
        x <= page_up(x) < x + PAGE_SIZE,
{
    let q = (x + PAGE_SIZE - 1) / (PAGE_SIZE as int);
    vstd::arithmetic::div_mod::lemma_fundamental_div_mod(x + PAGE_SIZE - 1, PAGE_SIZE as int);
    vstd::arithmetic::div_mod::lemma_mod_multiples_basic(q, PAGE_SIZE as int);
    assert(q * (PAGE_SIZE as int) == (PAGE_SIZE as int) * q) by (nonlinear_arith);
}

} // verus!
