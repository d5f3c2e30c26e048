//! io_uring instances: ring geometry, the parameters handed to user space,
//! and the bookkeeping of the submission and completion rings.
use vstd::prelude::*;
use crate::memory::phys::{PhysAllocator, alloc_frames, PAGE_SIZE, ceil_order};
use crate::memory::buddy::{MAX_ORDER, MAX_FRAMES, FRAME_SIZE};

verus! {

pub const IORING_OFF_SQ_RING: u64 = 0;
pub const IORING_OFF_CQ_RING: u64 = 0x0800_0000;
pub const IORING_OFF_SQES: u64 = 0x1000_0000;

pub const IORING_FEAT_SINGLE_MMAP: u32 = 1;
pub const IORING_FEAT_NODROP: u32 = 2;
pub const IORING_FEAT_SUBMIT_STABLE: u32 = 4;
pub const IORING_FEAT_RW_CUR_POS: u32 = 8;
pub const IORING_FEAT_FAST_POLL: u32 = 32;
pub const IORING_FEAT_SQPOLL_NONFIXED: u32 = 128;
pub const IORING_FEAT_EXT_ARG: u32 = 256;

/// Every feature this implementation reports.
pub const IORING_FEATURES: u32 = IORING_FEAT_SINGLE_MMAP | IORING_FEAT_NODROP | IORING_FEAT_SUBMIT_STABLE
    | IORING_FEAT_RW_CUR_POS | IORING_FEAT_FAST_POLL | IORING_FEAT_SQPOLL_NONFIXED | IORING_FEAT_EXT_ARG;

pub struct SqRingOffsets {
    pub head: u32, pub tail: u32, pub ring_mask: u32, pub ring_entries: u32,
    pub flags: u32, pub dropped: u32, pub array: u32, pub resv1: u32, pub resv2: u64,
}

pub struct CqRingOffsets {
    pub head: u32, pub tail: u32, pub ring_mask: u32, pub ring_entries: u32,
    pub overflow: u32, pub cqes: u32, pub flags: u32, pub resv1: u32, pub resv2: u64,
}

pub struct IoUringParams {
    pub sq_entries: u32,
    pub cq_entries: u32,
    pub flags: u32,
    pub sq_thread_cpu: u32,
    pub sq_thread_idle: u32,
    pub features: u32,
    pub wq_fd: u32,
    pub resv: [u32; 3],
    pub sq_off: SqRingOffsets,
    pub cq_off: CqRingOffsets,
}

/// One ring instance: where its three areas lie in physical memory and how
/// large they are, and the ring sizes.
pub struct IoUring {
    pub fd: i32,
    pub pid: u32,
    pub flags: u32,
    pub sq_ring_phys: u64,
    pub sq_ring_size: usize,
    pub sq_entries: u32,
    pub cq_ring_phys: u64,
    pub cq_ring_size: usize,
    pub cq_entries: u32,
    pub sqes_phys: u64,
    pub sqes_size: usize,
    pub fixed_files: Vec<Option<i32>>,
}

/// The least power of two at or above `x`, counting up from `p`.
pub open spec fn pow2_from(x: int, p: int) -> int
    decreases x - p,
{
    if p <= 0 || p >= x { p } else if 2 * p >= x { 2 * p } else { pow2_from(x, 2 * p) }
}

/// The least power of two at or above `x` (1 for 0).
pub open spec fn next_pow2(x: int) -> int {
    pow2_from(x, 1)
}

pub open spec fn align_page(v: int) -> int {
    (v + PAGE_SIZE - 1) - (v + PAGE_SIZE - 1) % PAGE_SIZE as int
}

pub open spec fn clamp(x: int, lo: int, hi: int) -> int {
    if x < lo { lo } else if x > hi { hi } else { x }
}

/// The ring sizes for the entries asked for.
pub open spec fn sq_size_for(sq_req: int) -> int {
    clamp(next_pow2(sq_req), 1, 32768)
}

pub open spec fn cq_size_for(sq_req: int, cq_req: int) -> int {
    clamp(next_pow2(cq_req), sq_size_for(sq_req), 65536)
}

/// The pages the three areas of an instance take together.
pub open spec fn ring_pages(sq_req: int, cq_req: int) -> int {
    let sq = sq_size_for(sq_req);
    let cq = cq_size_for(sq_req, cq_req);
    (align_page(24 + sq * 4) + align_page(32 + cq * 16) + align_page(sq * 64)) / PAGE_SIZE as int
}

/// The least power of two at or above `x`.
pub fn next_power_of_two(x: u32) -> (r: u32)
    requires
        x <= 0x8000_0000,
    ensures
        r == next_pow2(x as int),
{
    let mut p: u32 = 1;
    while p < x
        invariant
            1 <= p,
            x <= 0x8000_0000,
            pow2_from(x as int, p as int) == next_pow2(x as int),
        decreases 0x1_0000_0000 - p,
    {
        p = p * 2;
    }
    p
}

fn align_up_page(v: usize) -> (r: usize)
    requires
        v + PAGE_SIZE - 1 <= usize::MAX,
    ensures
        r == align_page(v as int),
{
    let w: usize = v + (PAGE_SIZE as usize - 1);
    w - w % (PAGE_SIZE as usize)
}

impl IoUring {
    /// Creates an instance: both ring sizes rounded up to powers of two
    /// (the submission ring between 1 and 32768 entries, the completion ring
    /// at least as large and at most 65536), each area rounded to whole
    /// pages and all three taken in one run of frames from `pa`. `None`
    /// when the frames cannot be had.
    pub fn new(fd: i32, pid: u32, sq_entries: u32, cq_entries: u32, flags: u32, pa: &mut PhysAllocator, cpu: u32)
        -> (r: Option<IoUring>)
        requires
            old(pa).wf(),
            sq_entries <= 0x8000_0000,
            cq_entries <= 0x8000_0000,
        ensures
            final(pa).wf(),
            r is None ==> final(pa).buddy.free_map() == old(pa).buddy.free_map()
                && forall|o: int, i: int| ceil_order(ring_pages(sq_entries as int, cq_entries as int), 0) <= o <= MAX_ORDER
                    ==> !#[trigger] (old(pa).buddy.free_map())(o, i),
            r is Some ==> r->0.sq_ring_phys % FRAME_SIZE == 0 && r->0.sq_ring_phys / FRAME_SIZE < MAX_FRAMES,
            r is Some ==> ({
                let u = r->0;
                let sq = sq_size_for(sq_entries as int);
                let cq = cq_size_for(sq_entries as int, cq_entries as int);
                &&& u.fd == fd && u.pid == pid && u.flags == flags
                &&& u.sq_entries == sq && u.cq_entries == cq
                &&& u.sq_ring_size == align_page(24 + sq * 4)
                &&& u.cq_ring_size == align_page(32 + cq * 16)
                &&& u.sqes_size == align_page(sq * 64)
                &&& u.cq_ring_phys == u.sq_ring_phys + u.sq_ring_size
                &&& u.sqes_phys == u.cq_ring_phys + u.cq_ring_size
                &&& u.fixed_files@.len() == 0
            }),
    {
        let sq0 = next_power_of_two(sq_entries);
        let sq: u32 = if sq0 < 1 { 1 } else if sq0 > 32768 { 32768 } else { sq0 };
        let cq0 = next_power_of_two(cq_entries);
        let cq: u32 = if cq0 < sq { sq } else if cq0 > 65536 { 65536 } else { cq0 };
        let sq_sz = align_up_page(24 + sq as usize * 4);
        let cq_sz = align_up_page(32 + cq as usize * 16);
        let se_sz = align_up_page(sq as usize * 64);
        let total: usize = (sq_sz + cq_sz + se_sz) / (PAGE_SIZE as usize);
        proof {
            assert(sq_sz <= 24 + 4 * 32768 + 4095 && cq_sz <= 32 + 16 * 65536 + 4095 && se_sz <= 64 * 32768 + 4095);
            assert(total <= 2048);
            vstd::arithmetic::power2::lemma2_to64();
        }
        let base = match alloc_frames(pa, cpu, total) {
            Some(b) => b,
            None => return None,
        };
        let cqr = base + sq_sz as u64;
        let ser = cqr + cq_sz as u64;
        Some(IoUring {
            fd, pid, flags,
            sq_ring_phys: base, sq_ring_size: sq_sz, sq_entries: sq,
            cq_ring_phys: cqr, cq_ring_size: cq_sz, cq_entries: cq,
            sqes_phys: ser, sqes_size: se_sz,
            fixed_files: Vec::new(),
        })
    }

    /// The physical area and its size behind an mmap offset of the ring fd.
    pub fn mmap_region(&self, offset: u64) -> (r: Option<(u64, usize)>)
        ensures
            r == if offset == IORING_OFF_SQ_RING { Some((self.sq_ring_phys, self.sq_ring_size)) }
                else if offset == IORING_OFF_CQ_RING { Some((self.cq_ring_phys, self.cq_ring_size)) }
                else if offset == IORING_OFF_SQES { Some((self.sqes_phys, self.sqes_size)) }
                else { None },
    {
        if offset == IORING_OFF_SQ_RING {
            Some((self.sq_ring_phys, self.sq_ring_size))
        } else if offset == IORING_OFF_CQ_RING {
            Some((self.cq_ring_phys, self.cq_ring_size))
        } else if offset == IORING_OFF_SQES {
            Some((self.sqes_phys, self.sqes_size))
        } else {
            None
        }
    }

    /// Fills in what `io_uring_setup` reports: the ring sizes, the flags,
    /// the features and the offsets of the ring fields; the rest of `p` is
    /// left as it was.
    pub fn fill_params(&self, p: &mut IoUringParams)
        ensures
            final(p).sq_entries == self.sq_entries,
            final(p).cq_entries == self.cq_entries,
            final(p).flags == self.flags,
            final(p).features == IORING_FEATURES,
            final(p).sq_thread_cpu == old(p).sq_thread_cpu,
            final(p).sq_thread_idle == old(p).sq_thread_idle,
            final(p).wq_fd == old(p).wq_fd,
            final(p).resv == old(p).resv,
            final(p).sq_off == (SqRingOffsets { head: 0, tail: 4, ring_mask: 8, ring_entries: 12,
                flags: 16, dropped: 20, array: 24, resv1: 0, resv2: 0 }),
            final(p).cq_off == (CqRingOffsets { head: 0, tail: 4, ring_mask: 8, ring_entries: 12,
                overflow: 16, cqes: 32, flags: 20, resv1: 0, resv2: 0 }),
    {
        p.sq_entries = self.sq_entries;
        p.cq_entries = self.cq_entries;
        p.flags = self.flags;
        p.features = IORING_FEATURES;
        p.sq_off = SqRingOffsets { head: 0, tail: 4, ring_mask: 8, ring_entries: 12,
            flags: 16, dropped: 20, array: 24, resv1: 0, resv2: 0 };
        p.cq_off = CqRingOffsets { head: 0, tail: 4, ring_mask: 8, ring_entries: 12,
            overflow: 16, cqes: 32, flags: 20, resv1: 0, resv2: 0 };
    }

    /// Where a completion goes given the ring's tail and head: the slot
    /// `tail & mask`, or `None` when the ring is full and the completion
    /// counts as an overflow.
    pub fn cqe_slot(&self, tail: u32, head: u32) -> (r: Option<u32>)
        requires
            self.cq_entries >= 1,
        ensures
            r == if tail.wrapping_sub(head) >= self.cq_entries { None::<u32> }
                else { Some(tail & ((self.cq_entries - 1) as u32)) },
    {
        if tail.wrapping_sub(head) >= self.cq_entries {
            None
        } else {
            Some(tail & (self.cq_entries - 1))
        }
    }

    /// How many submissions one call takes: those pending between head and
    /// tail, at most `to_submit`.
    pub fn submit_count(&self, head: u32, tail: u32, to_submit: u32) -> (r: u32)
        ensures
            r == if tail.wrapping_sub(head) < to_submit { tail.wrapping_sub(head) } else { to_submit },
    {
        let pending = tail.wrapping_sub(head);
        if pending < to_submit { pending } else { to_submit }
    }
}


proof fn lemma_pow2_from(x: int, p: int, k: nat)
    requires
        0 <= x,
        p == vstd::arithmetic::power2::pow2(k),
        p == 1 || p < 2 * x,
    ensures
        exists|j: nat| #[trigger] vstd::arithmetic::power2::pow2(j) == pow2_from(x, p),
        pow2_from(x, p) >= x,
        pow2_from(x, p) == 1 || pow2_from(x, p) < 2 * x,
    decreases x - p,
{
    vstd::arithmetic::power2::lemma_pow2_pos(k);
    vstd::arithmetic::power2::lemma_pow2_unfold(k + 1);
    assert(vstd::arithmetic::power2::pow2(k + 1) == 2 * p);
    if p >= x {
        assert(vstd::arithmetic::power2::pow2(k) == pow2_from(x, p));
    } else if 2 * p >= x {
        assert(vstd::arithmetic::power2::pow2(k + 1) == pow2_from(x, p));
    } else {
        lemma_pow2_from(x, 2 * p, k + 1);
    }
}

/// The ring sizes are rounded to the least power of two at or above the
/// request: a power of two, not below `x`, and less than twice `x` (1 for
/// 0 and 1).
pub proof fn law_next_pow2_least(x: int)
    requires
        0 <= x,
    ensures
        exists|j: nat| #[trigger] vstd::arithmetic::power2::pow2(j) == next_pow2(x),
        next_pow2(x) >= x,
        next_pow2(x) == 1 || next_pow2(x) < 2 * x,
{
    vstd::arithmetic::power2::lemma2_to64();
    lemma_pow2_from(x, 1, 0);
}

} // verus!
