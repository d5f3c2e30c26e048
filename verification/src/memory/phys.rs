//! Physical frame allocator: a per-CPU magazine of single frames in front
//! of the global buddy allocator.
use vstd::prelude::*;
use vstd::arithmetic::power2::pow2;
use crate::boot::{BootInfo, UefiMemoryDescriptor};
use crate::boot::uefi_memory_type;
use crate::memory::buddy::{
    BuddyAlloc, FreeMap, block_taken, after_free, coalesced, law_take_then_free_restores, after_add, pow2_usize, MAX_FRAMES, MAX_ORDER, FRAME_SIZE,
};

verus! {

pub const MAGAZINE_SIZE: usize = 64;
pub const MAX_CPUS_PHYS: usize = 64;
pub const PAGE_SIZE: u64 = 4096;
/// Frames below 1 MiB are never handed out.
pub const LOW_MEMORY_END: u64 = 0x10_0000;

/// A stack of free single frames kept for one CPU.
pub struct Magazine {
    pub frames: Vec<u64>,
}

impl Magazine {
    pub open spec fn wf(&self) -> bool {
        &&& self.frames@.len() <= MAGAZINE_SIZE
        &&& forall|i: int| 0 <= i < self.frames@.len() ==> #[trigger] self.frames@[i] / FRAME_SIZE < MAX_FRAMES
    }

    pub fn new() -> (r: Magazine)
        ensures
            r.wf(),
            r.frames@ == Seq::<u64>::empty(),
    {
        Magazine { frames: Vec::new() }
    }

    /// The top frame, or 0 when the magazine is empty.
    fn pop(&mut self) -> (r: u64)
        requires
            old(self).wf(),
        ensures
            final(self).wf(),
            old(self).frames@.len() == 0 ==> r == 0 && final(self).frames@ == old(self).frames@,
            old(self).frames@.len() > 0 ==> r == old(self).frames@.last()
                && final(self).frames@ == old(self).frames@.drop_last(),
    {
        match self.frames.pop() {
            Some(p) => p,
            None => 0,
        }
    }

    /// Pushes a frame; false (and nothing changes) when the magazine is full.
    fn push(&mut self, phys: u64) -> (r: bool)
        requires
            old(self).wf(),
            phys / FRAME_SIZE < MAX_FRAMES,
        ensures
            final(self).wf(),
            r == (old(self).frames@.len() < MAGAZINE_SIZE),
            r ==> final(self).frames@ == old(self).frames@.push(phys),
            !r ==> final(self).frames@ == old(self).frames@,
    {
        if self.frames.len() >= MAGAZINE_SIZE {
            return false;
        }
        self.frames.push(phys);
        true
    }

    fn is_empty(&self) -> (r: bool)
        ensures
            r == (self.frames@.len() == 0),
    {
        self.frames.len() == 0
    }

    fn is_full(&self) -> (r: bool)
        ensures
            r == (self.frames@.len() >= MAGAZINE_SIZE),
    {
        self.frames.len() >= MAGAZINE_SIZE
    }

    fn count(&self) -> (r: usize)
        ensures
            r == self.frames@.len(),
    {
        self.frames.len()
    }

    fn clear(&mut self)
        ensures
            final(self).frames@ == Seq::<u64>::empty(),
    {
        self.frames.clear();
    }
}

/// The whole physical allocator: buddy, magazines and the two counters.
pub struct PhysAllocator {
    pub buddy: BuddyAlloc,
    pub magazines: Vec<Magazine>,
    pub total_free: usize,
    pub total_all: usize,
}

impl PhysAllocator {
    pub open spec fn wf(&self) -> bool {
        &&& self.buddy.wf()
        &&& self.magazines@.len() == MAX_CPUS_PHYS
        &&& forall|i: int| 0 <= i < MAX_CPUS_PHYS ==> #[trigger] self.magazines@[i].wf()
    }

    /// The magazine of CPU `cpu`.
    pub open spec fn mag(&self, cpu: int) -> Seq<u64> {
        self.magazines@[cpu].frames@
    }

    /// An allocator that owns no memory yet.
    pub fn new() -> (r: PhysAllocator)
        ensures
            r.wf(),
            r.total_free == 0,
            r.total_all == 0,
            forall|o: int, i: int| !#[trigger] (r.buddy.free_map())(o, i),
            forall|c: int| 0 <= c < MAX_CPUS_PHYS ==> #[trigger] r.mag(c).len() == 0,
    {
        let mut mags: Vec<Magazine> = Vec::new();
        let mut i: usize = 0;
        while i < MAX_CPUS_PHYS
            invariant
                i <= MAX_CPUS_PHYS,
                mags@.len() == i,
                forall|k: int| 0 <= k < i ==> (#[trigger] mags@[k]).wf() && mags@[k].frames@.len() == 0,
            decreases MAX_CPUS_PHYS - i,
        {
            mags.push(Magazine::new());
            i = i + 1;
        }
        PhysAllocator { buddy: BuddyAlloc::new(), magazines: mags, total_free: 0, total_all: 0 }
    }
}

/// The CPU slot used for `cpu`: ids past the last slot share it.
pub open spec fn cpu_slot(cpu: u32) -> int {
    if cpu < MAX_CPUS_PHYS { cpu as int } else { MAX_CPUS_PHYS - 1 }
}

fn slot_of(cpu: u32) -> (r: usize)
    ensures
        r == cpu_slot(cpu),
        r < MAX_CPUS_PHYS,
{
    let c = cpu as usize;
    if c < MAX_CPUS_PHYS - 1 { c } else { MAX_CPUS_PHYS - 1 }
}

/// Pops from the magazine of `slot`.
fn mag_pop(st: &mut PhysAllocator, slot: usize) -> (r: u64)
    requires
        old(st).wf(),
        slot < MAX_CPUS_PHYS,
    ensures
        final(st).wf(),
        final(st).buddy == old(st).buddy,
        final(st).total_free == old(st).total_free,
        final(st).total_all == old(st).total_all,
        forall|c: int| 0 <= c < MAX_CPUS_PHYS && c != slot ==> #[trigger] final(st).magazines@[c] == old(st).magazines@[c],
        old(st).mag(slot as int).len() == 0 ==> r == 0 && final(st).mag(slot as int) == old(st).mag(slot as int),
        old(st).mag(slot as int).len() > 0 ==> r == old(st).mag(slot as int).last()
            && final(st).mag(slot as int) == old(st).mag(slot as int).drop_last(),
        r / FRAME_SIZE < MAX_FRAMES,
{
    assert(st.magazines@[slot as int].wf());
    let m = &mut st.magazines[slot];
    let r = m.pop();
    proof {
        assert(old(st).magazines@[slot as int].wf());
        if old(st).mag(slot as int).len() > 0 {
            let last = old(st).mag(slot as int).len() - 1;
            assert(old(st).mag(slot as int)[last] / FRAME_SIZE < MAX_FRAMES);
        }
        assert forall|i: int| 0 <= i < MAX_CPUS_PHYS implies #[trigger] st.magazines@[i].wf() by {
            if i != slot {
                assert(st.magazines@[i] == old(st).magazines@[i]);
                assert(old(st).magazines@[i].wf());
            }
        }
    }
    r
}

/// Pushes onto the magazine of `slot`.
fn mag_push(st: &mut PhysAllocator, slot: usize, phys: u64) -> (r: bool)
    requires
        old(st).wf(),
        slot < MAX_CPUS_PHYS,
        phys / FRAME_SIZE < MAX_FRAMES,
    ensures
        final(st).wf(),
        final(st).buddy == old(st).buddy,
        final(st).total_free == old(st).total_free,
        final(st).total_all == old(st).total_all,
        forall|c: int| 0 <= c < MAX_CPUS_PHYS && c != slot ==> #[trigger] final(st).magazines@[c] == old(st).magazines@[c],
        r == (old(st).mag(slot as int).len() < MAGAZINE_SIZE),
        r ==> final(st).mag(slot as int) == old(st).mag(slot as int).push(phys),
        !r ==> final(st).mag(slot as int) == old(st).mag(slot as int),
{
    assert(st.magazines@[slot as int].wf());
    let m = &mut st.magazines[slot];
    let r = m.push(phys);
    proof {
        assert forall|i: int| 0 <= i < MAX_CPUS_PHYS implies #[trigger] st.magazines@[i].wf() by {
            if i != slot {
                assert(st.magazines@[i] == old(st).magazines@[i]);
                assert(old(st).magazines@[i].wf());
            }
        }
    }
    r
}

fn mag_len(st: &PhysAllocator, slot: usize) -> (r: usize)
    requires
        st.wf(),
        slot < MAX_CPUS_PHYS,
    ensures
        r == st.mag(slot as int).len(),
        r <= MAGAZINE_SIZE,
{
    assert(st.magazines@[slot as int].wf());
    st.magazines[slot].count()
}

/// What `alloc_frame` for CPU `cpu` leaves: the allocator going from `a`
/// to `b` and the frame `r`.
pub open spec fn alloc_frame_post(a: PhysAllocator, b: PhysAllocator, cpu: u32, r: Option<u64>) -> bool {
    &&& b.wf()
    &&& b.total_all == a.total_all
    &&& forall|c: int| 0 <= c < MAX_CPUS_PHYS && c != cpu_slot(cpu) ==> #[trigger] b.magazines@[c] == a.magazines@[c]
    &&& a.mag(cpu_slot(cpu)).len() > 0 && a.mag(cpu_slot(cpu)).last() != 0 ==> {
        &&& r == Some(a.mag(cpu_slot(cpu)).last())
        &&& b.mag(cpu_slot(cpu)) == a.mag(cpu_slot(cpu)).drop_last()
        &&& b.buddy == a.buddy
        &&& b.total_free == a.total_free.wrapping_sub(1)
    }
    &&& r is Some ==> r->0 != 0 && r->0 / FRAME_SIZE < MAX_FRAMES && b.total_free == a.total_free.wrapping_sub(1)
    &&& r is None ==> b.total_free == a.total_free
}

/// Allocates one 4 KiB frame for CPU `cpu`.
///
/// The top of the CPU's magazine is handed out when it holds a frame;
/// otherwise the magazine is refilled from the buddy allocator (up to full)
/// and its top is handed out. `None` when the buddy is exhausted as well.
pub fn alloc_frame(st: &mut PhysAllocator, cpu: u32) -> (r: Option<u64>)
    requires
        old(st).wf(),
    ensures
        final(st).wf(),
        final(st).total_all == old(st).total_all,
        forall|c: int| 0 <= c < MAX_CPUS_PHYS && c != cpu_slot(cpu) ==> #[trigger] final(st).magazines@[c] == old(st).magazines@[c],
        old(st).mag(cpu_slot(cpu)).len() > 0 && old(st).mag(cpu_slot(cpu)).last() != 0 ==> {
            &&& r == Some(old(st).mag(cpu_slot(cpu)).last())
            &&& final(st).mag(cpu_slot(cpu)) == old(st).mag(cpu_slot(cpu)).drop_last()
            &&& final(st).buddy == old(st).buddy
            &&& final(st).total_free == old(st).total_free.wrapping_sub(1)
        },
        r is Some ==> r->0 != 0 && r->0 / FRAME_SIZE < MAX_FRAMES
            && final(st).total_free == old(st).total_free.wrapping_sub(1),
        r is None ==> final(st).total_free == old(st).total_free,
        alloc_frame_post(*old(st), *final(st), cpu, r),
        final(st).buddy.free_frames <= old(st).buddy.free_frames,
{
    let slot = slot_of(cpu);
    let phys = mag_pop(st, slot);
    if phys != 0 {
        st.total_free = st.total_free.wrapping_sub(1);
        return Some(phys);
    }
    while mag_len(st, slot) < MAGAZINE_SIZE
        invariant
            st.wf(),
            slot == cpu_slot(cpu),
            slot < MAX_CPUS_PHYS,
            st.total_all == old(st).total_all,
            st.total_free == old(st).total_free,
            st.buddy.free_frames <= old(st).buddy.free_frames,
            forall|c: int| 0 <= c < MAX_CPUS_PHYS && c != slot ==> #[trigger] st.magazines@[c] == old(st).magazines@[c],
        decreases MAGAZINE_SIZE - st.mag(slot as int).len(),
    {
        match st.buddy.alloc_block(0) {
            Some(p) => {
                let _ = mag_push(st, slot, p);
            },
            None => {
                break;
            },
        }
    }
    let phys = mag_pop(st, slot);
    if phys != 0 {
        st.total_free = st.total_free.wrapping_sub(1);
        Some(phys)
    } else {
        None
    }
}

/// Frees one 4 KiB frame into the magazine of CPU `cpu`; a full magazine
/// first gives half of its frames back to the buddy allocator.
pub fn free_frame(st: &mut PhysAllocator, cpu: u32, phys: u64)
    requires
        old(st).wf(),
        phys / FRAME_SIZE < MAX_FRAMES,
        old(st).buddy.free_frames + MAGAZINE_SIZE <= usize::MAX,
    ensures
        final(st).wf(),
        final(st).total_all == old(st).total_all,
        final(st).total_free == old(st).total_free.wrapping_add(1),
        forall|c: int| 0 <= c < MAX_CPUS_PHYS && c != cpu_slot(cpu) ==> #[trigger] final(st).magazines@[c] == old(st).magazines@[c],
        old(st).mag(cpu_slot(cpu)).len() < MAGAZINE_SIZE ==> final(st).mag(cpu_slot(cpu)) == old(st).mag(cpu_slot(cpu)).push(phys)
            && final(st).buddy == old(st).buddy,
        final(st).mag(cpu_slot(cpu)).len() > 0,
        final(st).mag(cpu_slot(cpu)).last() == phys,
{
    let slot = slot_of(cpu);
    if mag_push(st, slot, phys) {
        st.total_free = st.total_free.wrapping_add(1);
        return;
    }
    let drain = mag_len(st, slot) / 2;
    let mut k: usize = 0;
    while k < drain
        invariant_except_break
            st.mag(slot as int).len() == MAGAZINE_SIZE - k,
        invariant
            st.wf(),
            slot == cpu_slot(cpu),
            slot < MAX_CPUS_PHYS,
            k <= drain,
            drain == MAGAZINE_SIZE / 2,
            st.mag(slot as int).len() <= MAGAZINE_SIZE - k,
            st.buddy.free_frames + (MAGAZINE_SIZE - k) <= usize::MAX,
            st.total_all == old(st).total_all,
            st.total_free == old(st).total_free,
            forall|c: int| 0 <= c < MAX_CPUS_PHYS && c != slot ==> #[trigger] st.magazines@[c] == old(st).magazines@[c],
        ensures
            st.mag(slot as int).len() < MAGAZINE_SIZE,
        decreases drain - k,
    {
        let p = mag_pop(st, slot);
        if p != 0 {
            proof {
                vstd::arithmetic::power2::lemma2_to64();
            }
            st.buddy.free_block(p, 0);
        } else {
            break;
        }
        k = k + 1;
    }
    let pushed = mag_push(st, slot, phys);
    st.total_free = st.total_free.wrapping_add(1);
}

/// The order used for `n` contiguous frames: the smallest order from `o`
/// up whose block holds `n` frames, capped at the maximum order.
pub open spec fn ceil_order(n: int, o: nat) -> nat
    decreases MAX_ORDER - o,
{
    if o >= MAX_ORDER || pow2(o) >= n { o } else { ceil_order(n, o + 1) }
}

fn order_for_alloc(n: usize) -> (r: usize)
    ensures
        r == ceil_order(n as int, 0),
        r <= MAX_ORDER,
{
    let mut o: usize = 0;
    while o < MAX_ORDER && pow2_usize(o) < n
        invariant
            o <= MAX_ORDER,
            ceil_order(n as int, o as nat) == ceil_order(n as int, 0),
        decreases MAX_ORDER - o,
    {
        o = o + 1;
    }
    o
}

/// Allocates `n` contiguous frames (rounded up to a power of two). One
/// frame goes through the magazine, more through the buddy allocator.
/// `None` for `n == 0`, for more than `2^MAX_ORDER` frames (no block is
/// that large), or when no block is free.
pub fn alloc_frames(st: &mut PhysAllocator, cpu: u32, n: usize) -> (r: Option<u64>)
    requires
        old(st).wf(),
    ensures
        final(st).wf(),
        final(st).total_all == old(st).total_all,
        n == 0 ==> r is None && *final(st) == *old(st),
        n > pow2(MAX_ORDER as nat) ==> r is None && *final(st) == *old(st),
        2 <= n <= pow2(MAX_ORDER as nat) ==> {
            let order = ceil_order(n as int, 0);
            &&& forall|c: int| 0 <= c < MAX_CPUS_PHYS ==> #[trigger] final(st).magazines@[c] == old(st).magazines@[c]
            &&& r is None ==> final(st).buddy.free_map() == old(st).buddy.free_map()
                && final(st).total_free == old(st).total_free
                && forall|o: int, i: int| order <= o <= MAX_ORDER ==> !#[trigger] (old(st).buddy.free_map())(o, i)
            &&& r is Some ==> r->0 % FRAME_SIZE == 0
                && final(st).total_free == old(st).total_free.wrapping_sub(pow2(order) as usize)
                && block_taken(old(st).buddy.free_map(), final(st).buddy.free_map(),
                    old(st).buddy.free_frames, final(st).buddy.free_frames, order as int, r->0)
        },
        n == 1 ==> r is Some ==> r->0 != 0,
        r is Some ==> r->0 / FRAME_SIZE < MAX_FRAMES,
        final(st).buddy.free_frames <= old(st).buddy.free_frames,
{
    if n == 0 {
        return None;
    }
    proof {
        vstd::arithmetic::power2::lemma2_to64();
    }
    if n == 1 {
        return alloc_frame(st, cpu);
    }
    if n > 2048 {
        return None;
    }
    let order = order_for_alloc(n);
    let frames = pow2_usize(order);
    let r = st.buddy.alloc_block(order);
    match r {
        Some(phys) => {
            st.total_free = st.total_free.wrapping_sub(frames);
            Some(phys)
        },
        None => None,
    }
}

/// Frees `n` contiguous frames at `phys`: one frame through the magazine,
/// otherwise the buddy block of the order `alloc_frames` takes for `n`
/// frames, so that freeing what it gave returns exactly that block.
pub fn free_frames_n(st: &mut PhysAllocator, cpu: u32, phys: u64, n: usize)
    requires
        old(st).wf(),
        phys / FRAME_SIZE < MAX_FRAMES,
        old(st).buddy.free_frames + pow2(MAX_ORDER as nat) + MAGAZINE_SIZE <= usize::MAX,
    ensures
        final(st).wf(),
        final(st).total_all == old(st).total_all,
        n != 1 ==> {
            let order = ceil_order(n as int, 0);
            &&& final(st).buddy.free_map() == after_free(
                old(st).buddy.free_map(),
                (phys / FRAME_SIZE) as int / pow2(order) as int,
                order as int,
            )
            &&& final(st).total_free == old(st).total_free.wrapping_add(pow2(order) as usize)
            &&& final(st).magazines == old(st).magazines
        },
        n == 1 ==> final(st).total_free == old(st).total_free.wrapping_add(1),
{
    if n == 1 {
        free_frame(st, cpu, phys);
        return;
    }
    let order = order_for_alloc(n);
    let frames = pow2_usize(order);
    proof {
        if order < MAX_ORDER {
            vstd::arithmetic::power2::lemma_pow2_strictly_increases(order as nat, MAX_ORDER as nat);
        }
    }
    st.buddy.free_block(phys, order);
    st.total_free = st.total_free.wrapping_add(frames);
}

/// Frames currently free, as counted by allocations and frees.
pub fn free_frames(st: &PhysAllocator) -> (r: usize)
    ensures
        r == st.total_free,
{
    st.total_free
}

/// Frames of usable memory found at start-up.
pub fn total_frames(st: &PhysAllocator) -> (r: usize)
    ensures
        r == st.total_all,
{
    st.total_all
}

/// Marks the frames covering `bytes` bytes from `phys_start` as in use.
pub fn reserve_range(st: &mut PhysAllocator, phys_start: u64, bytes: u64)
    requires
        old(st).wf(),
        bytes + PAGE_SIZE - 1 <= u64::MAX,
        phys_start / PAGE_SIZE + (bytes + PAGE_SIZE - 1) / (PAGE_SIZE as int) <= MAX_FRAMES,
    ensures
        final(st).wf(),
        final(st).magazines == old(st).magazines,
        final(st).total_free == old(st).total_free,
        final(st).total_all == old(st).total_all,
        ({
            let first = (phys_start / PAGE_SIZE) as int;
            let count = (bytes + PAGE_SIZE - 1) / (PAGE_SIZE as int);
            final(st).buddy.free_map() == (|o: int, i: int|
                (old(st).buddy.free_map())(o, i) && !(o == 0 && first <= i < first + count))
        }),
{
    let first = (phys_start / PAGE_SIZE) as usize;
    let count = ((bytes + PAGE_SIZE - 1) / PAGE_SIZE) as usize;
    st.buddy.mark_range_used(first, count);
}

/// Percentage of usable frames in use (0 before start-up).
pub fn usage_percent(st: &PhysAllocator) -> (r: u32)
    requires
        st.total_all <= usize::MAX / 100,
    ensures
        st.total_all == 0 ==> r == 0,
        st.total_all > 0 ==> r as int == (if st.total_all >= st.total_free {
            st.total_all - st.total_free
        } else {
            0
        }) * 100 / (st.total_all as int),
{
    let total = st.total_all;
    let free = st.total_free;
    if total == 0 {
        return 0;
    }
    let used = total.saturating_sub(free);
    proof {
        assert(used * 100 <= total * 100);
        vstd::arithmetic::div_mod::lemma_div_is_ordered(used as int * 100, total as int * 100, total as int);
        vstd::arithmetic::div_mod::lemma_div_by_multiple(100, total as int);
        assert(total as int * 100 == 100 * total as int);
    }
    ((used * 100) / total) as u32
}

/// The physical ranges the allocator must never hand out besides low
/// memory: the kernel image, the init program and the shell, page aligned.
pub struct ReservedRegions {
    pub kernel_start: u64,
    pub kernel_end: u64,
    pub init_start: u64,
    pub init_end: u64,
    pub init_size: u64,
    pub qshell_start: u64,
    pub qshell_end: u64,
    pub qshell_size: u64,
}

pub open spec fn align_down_spec(x: int) -> int {
    x - x % (PAGE_SIZE as int)
}

pub open spec fn align_up_spec(x: int) -> int {
    align_down_spec(x + PAGE_SIZE - 1)
}

fn align_down(x: u64) -> (r: u64)
    ensures
        r == align_down_spec(x as int),
{
    assert(x & !4095u64 == x - x % 4096) by (bit_vector);
    x & !(PAGE_SIZE - 1)
}

fn align_up(x: u64) -> (r: u64)
    requires
        x + PAGE_SIZE - 1 <= u64::MAX,
    ensures
        r == align_up_spec(x as int),
{
    align_down(x + (PAGE_SIZE - 1))
}

/// A frame address lies in low memory or in one of the reserved images.
pub open spec fn is_reserved_spec(r: ReservedRegions, phys: int) -> bool {
    ||| phys < LOW_MEMORY_END
    ||| r.kernel_start <= phys < r.kernel_end
    ||| r.init_size != 0 && r.init_start <= phys < r.init_end
    ||| r.qshell_size != 0 && r.qshell_start <= phys < r.qshell_end
}

fn is_reserved(r: &ReservedRegions, phys: u64) -> (b: bool)
    ensures
        b == is_reserved_spec(*r, phys as int),
{
    if phys < LOW_MEMORY_END {
        return true;
    }
    if phys >= r.kernel_start && phys < r.kernel_end {
        return true;
    }
    if r.init_size != 0 && phys >= r.init_start && phys < r.init_end {
        return true;
    }
    if r.qshell_size != 0 && phys >= r.qshell_start && phys < r.qshell_end {
        return true;
    }
    false
}

/// The reserved regions named by the boot information.
pub fn reserved_regions(b: &BootInfo) -> (r: ReservedRegions)
    requires
        b.kernel_phys_end + PAGE_SIZE - 1 <= u64::MAX,
        b.init_phys_start + b.init_size + PAGE_SIZE - 1 <= u64::MAX,
        b.qshell_phys_start + b.qshell_size + PAGE_SIZE - 1 <= u64::MAX,
    ensures
        r.kernel_start == align_down_spec(b.kernel_phys_start as int),
        r.kernel_end == align_up_spec(b.kernel_phys_end as int),
        r.init_start == align_down_spec(b.init_phys_start as int),
        r.init_end == align_up_spec(b.init_phys_start + b.init_size),
        r.init_size == b.init_size,
        r.qshell_start == align_down_spec(b.qshell_phys_start as int),
        r.qshell_end == align_up_spec(b.qshell_phys_start + b.qshell_size),
        r.qshell_size == b.qshell_size,
{
    ReservedRegions {
        kernel_start: align_down(b.kernel_phys_start),
        kernel_end: align_up(b.kernel_phys_end),
        init_start: align_down(b.init_phys_start),
        init_end: align_up(b.init_phys_start + b.init_size),
        init_size: b.init_size,
        qshell_start: align_down(b.qshell_phys_start),
        qshell_end: align_up(b.qshell_phys_start + b.qshell_size),
        qshell_size: b.qshell_size,
    }
}

/// Memory types whose frames may be handed out after boot.
pub open spec fn usable_type(t: u32) -> bool {
    t == uefi_memory_type::CONVENTIONAL || t == uefi_memory_type::BOOT_SERVICES_CODE
        || t == uefi_memory_type::BOOT_SERVICES_DATA || t == uefi_memory_type::LOADER_CODE
        || t == uefi_memory_type::LOADER_DATA
}

pub open spec fn desc_start(d: UefiMemoryDescriptor) -> int {
    if d.phys_start >= LOW_MEMORY_END { d.phys_start as int } else { LOW_MEMORY_END as int }
}

pub open spec fn desc_end(d: UefiMemoryDescriptor) -> int {
    d.phys_start + d.num_pages * PAGE_SIZE
}

/// The free blocks after walking the frames `phys, phys + 4 KiB, ...`
/// below `end`, giving each unreserved one to the allocator.
pub open spec fn after_pages(f: FreeMap, r: ReservedRegions, phys: int, end: int) -> FreeMap
    decreases (if end > phys { end - phys } else { 0 }),
{
    if phys >= end {
        f
    } else {
        after_pages(
            if is_reserved_spec(r, phys) { f } else { after_free(f, phys / PAGE_SIZE as int, 0) },
            r,
            phys + PAGE_SIZE,
            end,
        )
    }
}

/// Number of frames walked from `phys` below `end`.
pub open spec fn pages_walked(phys: int, end: int) -> nat
    decreases (if end > phys { end - phys } else { 0 }),
{
    if phys >= end { 0 } else { 1 + pages_walked(phys + PAGE_SIZE, end) }
}

/// Number of unreserved frames walked from `phys` below `end`.
pub open spec fn pages_given(r: ReservedRegions, phys: int, end: int) -> nat
    decreases (if end > phys { end - phys } else { 0 }),
{
    if phys >= end {
        0
    } else {
        (if is_reserved_spec(r, phys) { 0nat } else { 1nat }) + pages_given(r, phys + PAGE_SIZE, end)
    }
}

/// The free blocks after the first `k` descriptors of the memory map.
pub open spec fn after_map(f: FreeMap, r: ReservedRegions, map: Seq<UefiMemoryDescriptor>, k: int) -> FreeMap
    decreases k,
{
    if k <= 0 {
        f
    } else {
        let g = after_map(f, r, map, k - 1);
        let d = map[k - 1];
        if usable_type(d.mem_type) { after_pages(g, r, desc_start(d), desc_end(d)) } else { g }
    }
}

/// Frames of usable memory in the first `k` descriptors.
pub open spec fn map_total(map: Seq<UefiMemoryDescriptor>, k: int) -> nat
    decreases k,
{
    if k <= 0 {
        0
    } else {
        let d = map[k - 1];
        map_total(map, k - 1) + if usable_type(d.mem_type) { pages_walked(desc_start(d), desc_end(d)) } else { 0 }
    }
}

/// Unreserved frames of usable memory in the first `k` descriptors.
pub open spec fn map_given(r: ReservedRegions, map: Seq<UefiMemoryDescriptor>, k: int) -> nat
    decreases k,
{
    if k <= 0 {
        0
    } else {
        let d = map[k - 1];
        map_given(r, map, k - 1) + if usable_type(d.mem_type) { pages_given(r, desc_start(d), desc_end(d)) } else { 0 }
    }
}

pub proof fn lemma_pages_bound(r: ReservedRegions, phys: int, end: int)
    ensures
        pages_given(r, phys, end) <= pages_walked(phys, end),
        phys < end ==> pages_walked(phys, end) == (end - phys + PAGE_SIZE - 1) / (PAGE_SIZE as int),
        phys >= end ==> pages_walked(phys, end) == 0,
    decreases (if end > phys { end - phys } else { 0 }),
{
    if phys < end {
        lemma_pages_bound(r, phys + PAGE_SIZE, end);
    }
}

pub proof fn lemma_map_bound(r: ReservedRegions, map: Seq<UefiMemoryDescriptor>, k: int)
    requires
        0 <= k <= map.len(),
        forall|i: int| 0 <= i < map.len() && usable_type((#[trigger] map[i]).mem_type)
            ==> desc_end(map[i]) <= MAX_FRAMES * PAGE_SIZE,
    ensures
        map_given(r, map, k) <= map_total(map, k),
        map_total(map, k) <= k * MAX_FRAMES,
    decreases k,
{
    if k > 0 {
        lemma_map_bound(r, map, k - 1);
        let d = map[k - 1];
        lemma_pages_bound(r, desc_start(d), desc_end(d));
    }
}

/// Builds the allocator from the UEFI memory map: every frame of usable
/// memory from 1 MiB up is counted, and every one outside the reserved
/// images is given to the buddy allocator. The magazines are kept.
pub fn init(st: &mut PhysAllocator, boot: &BootInfo, map: &[UefiMemoryDescriptor])
    requires
        old(st).wf(),
        map@.len() <= 1024,
        forall|i: int| 0 <= i < map@.len() && usable_type((#[trigger] map@[i]).mem_type)
            ==> desc_end(map@[i]) <= MAX_FRAMES * PAGE_SIZE,
        boot.kernel_phys_end + PAGE_SIZE - 1 <= u64::MAX,
        boot.init_phys_start + boot.init_size + PAGE_SIZE - 1 <= u64::MAX,
        boot.qshell_phys_start + boot.qshell_size + PAGE_SIZE - 1 <= u64::MAX,
    ensures
        final(st).wf(),
        final(st).magazines == old(st).magazines,
        ({
            let r = ReservedRegions {
                kernel_start: align_down_spec(boot.kernel_phys_start as int) as u64,
                kernel_end: align_up_spec(boot.kernel_phys_end as int) as u64,
                init_start: align_down_spec(boot.init_phys_start as int) as u64,
                init_end: align_up_spec(boot.init_phys_start + boot.init_size) as u64,
                init_size: boot.init_size,
                qshell_start: align_down_spec(boot.qshell_phys_start as int) as u64,
                qshell_end: align_up_spec(boot.qshell_phys_start + boot.qshell_size) as u64,
                qshell_size: boot.qshell_size,
            };
            &&& final(st).total_all == map_total(map@, map@.len() as int)
            &&& final(st).total_free == map_given(r, map@, map@.len() as int)
            &&& final(st).buddy.free_frames == final(st).total_free
            &&& final(st).buddy.free_map() == after_map(|o: int, i: int| false, r, map@, map@.len() as int)
        }),
{
    let r = reserved_regions(boot);
    st.buddy = BuddyAlloc::new();
    let ghost empty: FreeMap = |o: int, i: int| false;
    proof {
        assert(st.buddy.free_map() =~= empty);
        vstd::arithmetic::power2::lemma2_to64();
    }
    let mut total: usize = 0;
    let mut k: usize = 0;
    while k < map.len()
        invariant
            st.wf(),
            st.magazines == old(st).magazines,
            k <= map@.len(),
            map@.len() <= 1024,
            forall|i: int| 0 <= i < map@.len() && usable_type((#[trigger] map@[i]).mem_type)
                ==> desc_end(map@[i]) <= MAX_FRAMES * PAGE_SIZE,
            total == map_total(map@, k as int),
            st.buddy.free_frames == map_given(r, map@, k as int),
            st.buddy.total_frames == map_given(r, map@, k as int),
            st.buddy.free_map() == after_map(empty, r, map@, k as int),
        decreases map@.len() - k,
    {
        proof {
            lemma_map_bound(r, map@, k as int);
        }
        let d = map[k];
        let usable = d.mem_type == uefi_memory_type::CONVENTIONAL
            || d.mem_type == uefi_memory_type::BOOT_SERVICES_CODE
            || d.mem_type == uefi_memory_type::BOOT_SERVICES_DATA
            || d.mem_type == uefi_memory_type::LOADER_CODE
            || d.mem_type == uefi_memory_type::LOADER_DATA;
        if usable {
            let start = if d.phys_start >= LOW_MEMORY_END { d.phys_start } else { LOW_MEMORY_END };
            let end = d.phys_start + d.num_pages * PAGE_SIZE;
            let mut phys = start;
            let ghost base_total = total as int;
            let ghost base_given = st.buddy.free_frames as int;
            let ghost base_map = st.buddy.free_map();
            while phys < end
                invariant
                    st.wf(),
                    st.magazines == old(st).magazines,
                    start as int == desc_start(d),
                    end as int == desc_end(d),
                    end <= MAX_FRAMES * PAGE_SIZE,
                    start <= phys,
                    base_total <= k * MAX_FRAMES,
                    base_given <= base_total,
                    total as int + pages_walked(phys as int, end as int) == base_total + pages_walked(start as int, end as int),
                    st.buddy.free_frames as int + pages_given(r, phys as int, end as int)
                        == base_given + pages_given(r, start as int, end as int),
                    st.buddy.total_frames == st.buddy.free_frames,
                    after_pages(st.buddy.free_map(), r, phys as int, end as int) == after_pages(base_map, r, start as int, end as int),
                    k < 1024,
                decreases (if end > phys { end - phys } else { 0 }),
            {
                proof {
                    lemma_pages_bound(r, phys as int, end as int);
                    lemma_pages_bound(r, start as int, end as int);
                }
                total = total + 1;
                let ghost before = st.buddy.free_map();
                if !is_reserved(&r, phys) {
                    st.buddy.add_range((phys / PAGE_SIZE) as usize, 1);
                    proof {
                        assert(after_add(before, (phys / PAGE_SIZE) as int, 0) == before);
                        assert(st.buddy.free_map() == after_free(before, (phys / PAGE_SIZE) as int, 0));
                    }
                }
                phys = phys + PAGE_SIZE;
            }
        }
        k = k + 1;
    }
    st.total_all = total;
    st.total_free = st.buddy.free_frames;
}

/// `alloc_frames(n)` and `free_frames_n` on the block it gave are
/// inverse: the free blocks of a coalesced allocator come back as they
/// were, and the count of free frames, lowered by the block's frames, is
/// raised by as many again.
pub proof fn law_alloc_frames_then_free(f0: FreeMap, f1: FreeMap, ff0: usize, ff1: usize, n: int, p: u64, t0: usize)
    requires
        2 <= n <= pow2(MAX_ORDER as nat),
        coalesced(f0),
        block_taken(f0, f1, ff0, ff1, ceil_order(n, 0) as int, p),
    ensures
        after_free(f1, (p / FRAME_SIZE) as int / pow2(ceil_order(n, 0)) as int, ceil_order(n, 0) as int) == f0,
        t0.wrapping_sub(pow2(ceil_order(n, 0)) as usize).wrapping_add(pow2(ceil_order(n, 0)) as usize) == t0,
{
    lemma_ceil_order_le(n, 0);
    law_take_then_free_restores(f0, f1, ff0, ff1, ceil_order(n, 0) as int, p);
    let k = ceil_order(n, 0);
    vstd::arithmetic::power2::lemma2_to64();
    if k < MAX_ORDER {
        vstd::arithmetic::power2::lemma_pow2_strictly_increases(k, MAX_ORDER as nat);
    }
    assert(pow2(k) <= 2048);
}

proof fn lemma_ceil_order_le(n: int, o: nat)
    requires
        o <= MAX_ORDER,
    ensures
        o <= ceil_order(n, o) <= MAX_ORDER,
    decreases MAX_ORDER - o,
{
    if !(o >= MAX_ORDER || pow2(o) >= n) {
        lemma_ceil_order_le(n, o + 1);
    }
}

} // verus!
