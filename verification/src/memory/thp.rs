//! Transparent huge pages: the switch, the counters, and the khugepaged
//! scan that picks the 2 MiB windows worth promoting.
//!
//! A region qualifies when it spans at least one huge page, is not a
//! stack and is writable; its candidate windows are the 2 MiB-aligned ones
//! that lie wholly inside it, tried in address order until one reports
//! that no contiguous memory is left.
use vstd::prelude::*;
use crate::memory::vmm::{VmaRegion, RegionKind, Prot, PROT_WRITE};

verus! {

pub const HUGE_PAGE_SIZE: u64 = 2097152;
pub const HUGE_PAGE_ORDER: usize = 9;
pub const HUGE_PAGE_MASK: u64 = 0xFFFF_FFFF_FFE0_0000;

/// The THP switch and the promotion and demotion counters.
pub struct Thp {
    pub enabled: bool,
    pub promotions: u64,
    pub demotions: u64,
}

/// The outcome of trying to promote one window.
pub enum PromoteResult {
    /// Promoted onto the huge frame at this physical base.
    Promoted(u64),
    /// Some page of the window is missing, shared or already huge.
    NotEligible,
    /// No contiguous 2 MiB block was free.
    OutOfMemory,
}

impl Thp {
    pub fn new() -> (r: Thp)
        ensures
            r.enabled,
            r.promotions == 0,
            r.demotions == 0,
    {
        Thp { enabled: true, promotions: 0, demotions: 0 }
    }
}

pub fn is_enabled(t: &Thp) -> (r: bool)
    ensures
        r == t.enabled,
{
    t.enabled
}

pub fn enable(t: &mut Thp)
    ensures
        final(t).enabled,
        final(t).promotions == old(t).promotions,
        final(t).demotions == old(t).demotions,
{
    t.enabled = true;
}

pub fn disable(t: &mut Thp)
    ensures
        !final(t).enabled,
        final(t).promotions == old(t).promotions,
        final(t).demotions == old(t).demotions,
{
    t.enabled = false;
}

pub fn promotions(t: &Thp) -> (r: u64)
    ensures
        r == t.promotions,
{
    t.promotions
}

pub fn demotions(t: &Thp) -> (r: u64)
    ensures
        r == t.demotions,
{
    t.demotions
}

/// The counters, promotions first.
pub fn stats(t: &Thp) -> (r: (u64, u64))
    ensures
        r == (t.promotions, t.demotions),
{
    (t.promotions, t.demotions)
}

/// Counts one promotion, wrapping as the counter does.
pub fn record_promotion(t: &mut Thp)
    ensures
        final(t).promotions == old(t).promotions.wrapping_add(1),
        final(t).enabled == old(t).enabled,
        final(t).demotions == old(t).demotions,
{
    t.promotions = t.promotions.wrapping_add(1);
}

/// Counts one demotion, wrapping as the counter does.
pub fn record_demotion(t: &mut Thp)
    ensures
        final(t).demotions == old(t).demotions.wrapping_add(1),
        final(t).enabled == old(t).enabled,
        final(t).promotions == old(t).promotions,
{
    t.demotions = t.demotions.wrapping_add(1);
}

/// `x` rounded down to a huge-page boundary.
pub open spec fn huge_floor(x: int) -> int {
    x - x % (HUGE_PAGE_SIZE as int)
}

/// The first huge-page boundary at or above `x`.
pub open spec fn huge_ceil(x: int) -> int {
    huge_floor(x + HUGE_PAGE_SIZE - 1)
}

/// Whether the scan looks at a region at all.
pub open spec fn region_qualifies(r: VmaRegion) -> bool {
    &&& r.end - r.start >= HUGE_PAGE_SIZE
    &&& !(r.kind is Stack)
    &&& r.prot.bits & PROT_WRITE == PROT_WRITE
}

/// The number of whole huge-page windows inside a region.
pub open spec fn region_windows(r: VmaRegion) -> int {
    let s = huge_ceil(r.start as int);
    let e = huge_floor(r.end as int);
    if e > s { (e - s) / (HUGE_PAGE_SIZE as int) } else { 0 }
}

/// The windows over the first `n` regions that qualify.
pub open spec fn windows_total(rs: Seq<VmaRegion>, n: int) -> int
    decreases n,
{
    if n <= 0 {
        0
    } else {
        windows_total(rs, n - 1) + if region_qualifies(rs[n - 1]) { region_windows(rs[n - 1]) } else { 0 }
    }
}

proof fn lemma_windows_total_mono(rs: Seq<VmaRegion>, a: int, b: int)
    requires
        0 <= a <= b,
    ensures
        windows_total(rs, a) <= windows_total(rs, b),
    decreases b - a,
{
    if a < b {
        lemma_windows_total_mono(rs, a, b - 1);
        if region_qualifies(rs[b - 1]) {
            assert(region_windows(rs[b - 1]) >= 0);
        }
    }
}

fn huge_align_down(x: u64) -> (r: u64)
    ensures
        r == huge_floor(x as int),
{
    let r = x & HUGE_PAGE_MASK;
    assert(r == x - x % 2097152) by (bit_vector)
        requires
            r == x & 0xFFFF_FFFF_FFE0_0000u64,
    ;
    r
}

/// Scans the regions of one process and asks `promote` to promote each
/// candidate window; the number of windows it promoted. Nothing is tried
/// while THP is off. Within a region the scan stops at the first window
/// that finds no contiguous memory and goes on with the next region.
pub fn khugepaged_scan<F: Fn(u64) -> PromoteResult>(t: &Thp, regions: &[VmaRegion], promote: F) -> (r: u32)
    requires
        forall|va: u64| call_requires(promote, (va,)),
        forall|i: int| 0 <= i < regions@.len() ==> #[trigger] regions@[i].start <= regions@[i].end
            && regions@[i].end <= u64::MAX - HUGE_PAGE_SIZE,
        windows_total(regions@, regions@.len() as int) <= u32::MAX,
    ensures
        !t.enabled ==> r == 0,
        r <= windows_total(regions@, regions@.len() as int),
{
    proof {
        lemma_windows_total_mono(regions@, 0, regions@.len() as int);
    }
    if !t.enabled {
        return 0;
    }
    let mut promoted: u32 = 0;
    let mut i: usize = 0;
    while i < regions.len()
        invariant
            i <= regions@.len(),
            forall|va: u64| call_requires(promote, (va,)),
            forall|j: int| 0 <= j < regions@.len() ==> #[trigger] regions@[j].start <= regions@[j].end
                && regions@[j].end <= u64::MAX - HUGE_PAGE_SIZE,
            windows_total(regions@, regions@.len() as int) <= u32::MAX,
            promoted <= windows_total(regions@, i as int),
        decreases regions@.len() - i,
    {
        let region = &regions[i];
        proof {
            lemma_windows_total_mono(regions@, i + 1, regions@.len() as int);
        }
        let writable = region.prot.contains(Prot { bits: PROT_WRITE });
        let is_stack = match region.kind {
            RegionKind::Stack => true,
            _ => false,
        };
        if region.end - region.start >= HUGE_PAGE_SIZE && !is_stack && writable {
            let start = huge_align_down(region.start + HUGE_PAGE_SIZE - 1);
            let end = huge_align_down(region.end);
            let ghost base = promoted;
            let mut va: u64 = start;
            while va + HUGE_PAGE_SIZE <= end
                invariant
                    start <= va,
                    va <= end || va == start,
                    end <= u64::MAX - HUGE_PAGE_SIZE,
                    (va - start) % (HUGE_PAGE_SIZE as int) == 0,
                    start == huge_ceil(region.start as int),
                    end == huge_floor(region.end as int),
                    region.end <= u64::MAX - HUGE_PAGE_SIZE,
                    forall|a: u64| call_requires(promote, (a,)),
                    promoted as int - base <= (va - start) / (HUGE_PAGE_SIZE as int),
                    base <= promoted,
                    base <= windows_total(regions@, i as int),
                    windows_total(regions@, regions@.len() as int) <= u32::MAX,
                    windows_total(regions@, i as int + 1) <= windows_total(regions@, regions@.len() as int),
                    region_qualifies(*region),
                    windows_total(regions@, i as int + 1) == windows_total(regions@, i as int) + region_windows(*region),
                decreases end + HUGE_PAGE_SIZE - va,
            {
                assert((va - start) / (HUGE_PAGE_SIZE as int) + 1 <= region_windows(*region)) by {
                    assert(end - start >= (va - start) + HUGE_PAGE_SIZE);
                    assert((end - start) % (HUGE_PAGE_SIZE as int) == 0);
                }
                let res = promote(va);
                let mut stop = false;
                match res {
                    PromoteResult::Promoted(_) => {
                        promoted = promoted + 1;
                    },
                    PromoteResult::OutOfMemory => {
                        stop = true;
                    },
                    PromoteResult::NotEligible => {},
                }
                if stop {
                    break;
                }
                va = va + HUGE_PAGE_SIZE;
            }
        }
        proof {
            if !region_qualifies(*region) {
                assert(windows_total(regions@, i as int + 1) == windows_total(regions@, i as int));
            } else {
                assert(region_windows(*region) >= 0);
            }
        }
        i = i + 1;
    }
    promoted
}

} // verus!
