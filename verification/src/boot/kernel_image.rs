//! The bootloader's plan for placing the kernel image: its loadable
//! segments, in physical-address order, the physical range they span, and
//! the runs of pages to reserve for them. Reserving and copying are the
//! firmware's part.
use vstd::prelude::*;
use crate::bytes::{read_u16_le, read_u32_le, read_u64_le, spec_u16_le, spec_u32_le, spec_u64_le};

verus! {

pub const KPAGE: u64 = 4096;

/// A loadable segment of the kernel image: where its bytes are in the
/// file, its physical address, and its sizes in the file and in memory.
#[derive(Clone, Copy)]
pub struct KernelSegment {
    pub offset: u64,
    pub paddr: u64,
    pub filesz: u64,
    pub memsz: u64,
}

/// Where the kernel goes: its entry point, the physical range its segments
/// span, the segments by physical address, and the page runs
/// `(first address, page count)` to reserve, each page once.
pub struct KernelLoad {
    pub entry: u64,
    pub phys_start: u64,
    pub phys_end: u64,
    pub segments: Vec<KernelSegment>,
    pub allocs: Vec<(u64, u64)>,
}

/// The program header `i` of an image whose table is at `phoff` with
/// entries of `ent` bytes: `None` when the image is unusable there (the
/// entry outside the image, too short to read, or a loadable segment whose
/// file bytes lie past the image, whose file size exceeds its memory size,
/// or whose end does not fit in 64 bits with a page to spare);
/// `Some(None)` for an entry that loads nothing; else the segment.
pub open spec fn ph_entry(d: Seq<u8>, phoff: int, ent: int, i: int) -> Option<Option<KernelSegment>> {
    let off = phoff + i * ent;
    if off + ent > d.len() || ent < 4 {
        None
    } else if spec_u32_le(d, off) != 1 {
        Some(None)
    } else if ent < 48 {
        None
    } else {
        let seg = KernelSegment {
            offset: spec_u64_le(d, off + 8),
            paddr: spec_u64_le(d, off + 24),
            filesz: spec_u64_le(d, off + 32),
            memsz: spec_u64_le(d, off + 40),
        };
        if seg.memsz == 0 {
            Some(None)
        } else if seg.filesz > seg.memsz || seg.offset + seg.filesz > d.len()
            || seg.paddr + seg.memsz + KPAGE - 1 > u64::MAX {
            None
        } else {
            Some(Some(seg))
        }
    }
}

/// The loadable segments among the first `n` program headers, in header
/// order; `None` when one of them makes the image unusable.
pub open spec fn ksegs(d: Seq<u8>, phoff: int, ent: int, n: int) -> Option<Seq<KernelSegment>>
    decreases n,
{
    if n <= 0 {
        Some(Seq::empty())
    } else {
        match ksegs(d, phoff, ent, n - 1) {
            None => None,
            Some(s) => match ph_entry(d, phoff, ent, n - 1) {
                None => None,
                Some(None) => Some(s),
                Some(Some(g)) => Some(s.push(g)),
            },
        }
    }
}

/// Where a segment at physical address `p` goes in `s`: before the first
/// segment from `j` on with a higher address.
pub open spec fn ins_pos(s: Seq<KernelSegment>, p: u64, j: int) -> int
    decreases s.len() - j,
{
    if j < 0 || j >= s.len() {
        s.len() as int
    } else if s[j].paddr > p {
        j
    } else {
        ins_pos(s, p, j + 1)
    }
}

/// `s` stably sorted by physical address: segments with equal addresses
/// keep their order.
pub open spec fn sort_segs(s: Seq<KernelSegment>) -> Seq<KernelSegment>
    decreases s.len(),
{
    if s.len() == 0 {
        s
    } else {
        let t = sort_segs(s.drop_last());
        t.insert(ins_pos(t, s.last().paddr, 0), s.last())
    }
}

pub open spec fn page_down(x: int) -> int {
    x - x % (KPAGE as int)
}

pub open spec fn page_up(x: int) -> int {
    page_down(x + KPAGE - 1)
}

/// The page runs to reserve for the sorted segments `s` from the `i`-th
/// on, the pages below `done` being reserved already: each segment's pages
/// from the later of its first page and `done` up to its last.
pub open spec fn alloc_runs(s: Seq<KernelSegment>, i: int, done: int) -> Seq<(u64, u64)>
    decreases s.len() - i,
{
    if i < 0 || i >= s.len() {
        Seq::empty()
    } else {
        let seg_start = page_down(s[i].paddr as int);
        let seg_end = page_up(s[i].paddr + s[i].memsz);
        let a = if done > seg_start { done } else { seg_start };
        let rest = alloc_runs(s, i + 1, if seg_end > done { seg_end } else { done });
        if a < seg_end { seq![(a as u64, ((seg_end - a) / KPAGE as int) as u64)] + rest } else { rest }
    }
}

/// The lowest physical address of the segments, from `u64::MAX`.
pub open spec fn min_paddr(s: Seq<KernelSegment>) -> u64
    decreases s.len(),
{
    if s.len() == 0 {
        u64::MAX
    } else {
        let m = min_paddr(s.drop_last());
        if s.last().paddr < m { s.last().paddr } else { m }
    }
}

/// The highest end of the segments, from 0.
pub open spec fn max_end(s: Seq<KernelSegment>) -> int
    decreases s.len(),
{
    if s.len() == 0 {
        0
    } else {
        let m = max_end(s.drop_last());
        let e = s.last().paddr + s.last().memsz;
        if e > m { e } else { m }
    }
}

/// A 64-bit little-endian ELF header: at least 64 bytes, the magic and
/// the 64-bit class.
pub open spec fn kernel_header_ok(d: Seq<u8>) -> bool {
    d.len() >= 64 && d[0] == 0x7F && d[1] == 0x45 && d[2] == 0x4C && d[3] == 0x46 && d[4] == 2
}

/// The loadable segments of the kernel image `d`, if it is usable.
pub open spec fn kernel_segments(d: Seq<u8>) -> Option<Seq<KernelSegment>> {
    if !kernel_header_ok(d) {
        None
    } else {
        ksegs(d, spec_u64_le(d, 32) as int, spec_u16_le(d, 54) as int, spec_u16_le(d, 56) as int)
    }
}

pub open spec fn seg_ok(g: KernelSegment) -> bool {
    g.memsz > 0 && g.paddr + g.memsz + KPAGE - 1 <= u64::MAX
}

proof fn lemma_ksegs_stays_none(d: Seq<u8>, phoff: int, ent: int, m: int, n: int)
    requires
        m <= n,
        ksegs(d, phoff, ent, m) is None,
    ensures
        ksegs(d, phoff, ent, n) is None,
    decreases n - m,
{
    if m < n {
        lemma_ksegs_stays_none(d, phoff, ent, m, n - 1);
    }
}

fn page_down_u64(x: u64) -> (r: u64)
    ensures
        r == page_down(x as int),
{
    x - x % KPAGE
}

/// Plans the loading of the kernel image `data`. `None` when it is not a
/// 64-bit ELF image, when a program header makes it unusable (see
/// `ph_entry`), or when it has no loadable segment.
#[verifier::rlimit(40)]
pub fn plan_kernel_load(data: &[u8]) -> (r: Option<KernelLoad>)
    ensures
        match kernel_segments(data@) {
            None => r is None,
            Some(segs) => if segs.len() == 0 {
                r is None
            } else {
                &&& r is Some
                &&& r->0.entry == spec_u64_le(data@, 24)
                &&& r->0.phys_start == min_paddr(segs)
                &&& r->0.phys_end == max_end(segs)
                &&& r->0.segments@ == sort_segs(segs)
                &&& r->0.allocs@ == alloc_runs(sort_segs(segs), 0, 0)
            },
        },
{
    if data.len() < 64 || data[0] != 0x7F || data[1] != 0x45 || data[2] != 0x4C || data[3] != 0x46 || data[4] != 2 {
        return None;
    }
    let entry = read_u64_le(data, 24);
    let phoff = read_u64_le(data, 32);
    let ent = read_u16_le(data, 54);
    let num = read_u16_le(data, 56);
    let ghost d = data@;
    let len = data.len() as u64;
    let mut segs: Vec<KernelSegment> = Vec::new();
    let mut phys_start: u64 = u64::MAX;
    let mut phys_end: u64 = 0;
    let mut i: u16 = 0;
    while i < num
        invariant
            d == data@,
            len == data@.len(),
            data@.len() <= usize::MAX,
            i <= num,
            phoff == spec_u64_le(d, 32),
            ent == spec_u16_le(d, 54),
            num == spec_u16_le(d, 56),
            ksegs(d, phoff as int, ent as int, i as int) == Some(segs@),
            phys_start == min_paddr(segs@),
            phys_end == max_end(segs@),
            forall|q: int| 0 <= q < segs@.len() ==> seg_ok(#[trigger] segs@[q]),
        decreases num - i,
    {
        let ghost before = segs@;
        assert(i as u64 * ent as u64 <= 0xFFFF * 0xFFFF) by (nonlinear_arith)
            requires i <= 0xFFFF, ent <= 0xFFFF;
        let step: u64 = i as u64 * ent as u64;
        if phoff > u64::MAX - step || phoff + step > len || (ent as u64) > len - (phoff + step) || ent < 4 {
            proof {
                lemma_ksegs_stays_none(d, phoff as int, ent as int, i + 1, num as int);
            }
            return None;
        }
        assert(step as int == i as int * ent as int);
        assert(phoff + step <= data@.len());
        let off = (phoff + step) as usize;
        assert(off as int == phoff as int + i as int * ent as int);
        assert(off + ent <= data@.len());
        let p_type = read_u32_le(data, off);
        if p_type == 1 {
            if ent < 48 {
                proof {
                    lemma_ksegs_stays_none(d, phoff as int, ent as int, i + 1, num as int);
                }
                return None;
            }
            let g = KernelSegment {
                offset: read_u64_le(data, off + 8),
                paddr: read_u64_le(data, off + 24),
                filesz: read_u64_le(data, off + 32),
                memsz: read_u64_le(data, off + 40),
            };
            if g.memsz != 0 {
                if g.filesz > g.memsz || g.offset > len || g.filesz > len - g.offset || g.paddr > u64::MAX - (KPAGE - 1)
                    || g.memsz > u64::MAX - (KPAGE - 1) - g.paddr {
                    proof {
                        lemma_ksegs_stays_none(d, phoff as int, ent as int, i + 1, num as int);
                    }
                    return None;
                }
                segs.push(g);
                if g.paddr < phys_start {
                    phys_start = g.paddr;
                }
                let end = g.paddr + g.memsz;
                if end > phys_end {
                    phys_end = end;
                }
                assert(segs@.drop_last() =~= before);
            }
        }
        i = i + 1;
    }
    if segs.len() == 0 {
        return None;
    }
    // Stable insertion sort by physical address.
    let mut sorted: Vec<KernelSegment> = Vec::new();
    let mut j: usize = 0;
    assert(segs@.take(0) =~= Seq::<KernelSegment>::empty());
    while j < segs.len()
        invariant
            j <= segs@.len(),
            sorted@ == sort_segs(segs@.take(j as int)),
            forall|q: int| 0 <= q < segs@.len() ==> seg_ok(#[trigger] segs@[q]),
            forall|q: int| 0 <= q < sorted@.len() ==> seg_ok(#[trigger] sorted@[q]),
        decreases segs@.len() - j,
    {
        let g = segs[j];
        let mut k: usize = 0;
        while k < sorted.len() && sorted[k].paddr <= g.paddr
            invariant
                k <= sorted@.len(),
                ins_pos(sorted@, g.paddr, 0) == ins_pos(sorted@, g.paddr, k as int),
            decreases sorted@.len() - k,
        {
            k = k + 1;
        }
        let ghost t = sorted@;
        sorted.insert(k, g);
        proof {
            assert(segs@.take(j + 1).drop_last() =~= segs@.take(j as int));
            assert(segs@.take(j + 1).last() == g);
            assert(sorted@ == t.insert(ins_pos(t, g.paddr, 0), g));
            assert forall|q: int| 0 <= q < sorted@.len() implies seg_ok(#[trigger] sorted@[q]) by {
                if q < k {
                    assert(sorted@[q] == t[q]);
                } else if q > k {
                    assert(sorted@[q] == t[q - 1]);
                }
            }
        }
        j = j + 1;
    }
    assert(segs@.take(segs@.len() as int) =~= segs@);
    // The page runs, each page reserved once.
    let mut allocs: Vec<(u64, u64)> = Vec::new();
    let mut done: u64 = 0;
    let mut n: usize = 0;
    while n < sorted.len()
        invariant
            n <= sorted@.len(),
            sorted@ == sort_segs(segs@),
            forall|q: int| 0 <= q < sorted@.len() ==> seg_ok(#[trigger] sorted@[q]),
            allocs@ + alloc_runs(sorted@, n as int, done as int) == alloc_runs(sorted@, 0, 0),
        decreases sorted@.len() - n,
    {
        let g = sorted[n];
        assert(seg_ok(sorted@[n as int]));
        let seg_start = page_down_u64(g.paddr);
        let seg_end = page_down_u64(g.paddr + g.memsz + (KPAGE - 1));
        let a = if done > seg_start { done } else { seg_start };
        let ghost before = allocs@;
        if a < seg_end {
            allocs.push((a, (seg_end - a) / KPAGE));
            assert(before + alloc_runs(sorted@, n as int, done as int) =~= allocs@ + alloc_runs(sorted@, n + 1,
                (if seg_end > done { seg_end } else { done }) as int));
        }
        done = if seg_end > done { seg_end } else { done };
        n = n + 1;
    }
    assert(alloc_runs(sorted@, n as int, done as int) =~= Seq::<(u64, u64)>::empty());
    assert(allocs@ =~= alloc_runs(sorted@, 0, 0));
    Some(KernelLoad { entry, phys_start, phys_end, segments: sorted, allocs })
}


/// Rounding down to a page gives the greatest page boundary at or below
/// the address, rounding up the least one at or above it.
pub proof fn law_page_bounds(x: int)
    requires
        0 <= x,
    ensures
        page_down(x) % (KPAGE as int) == 0,
        page_down(x) <= x < page_down(x) + KPAGE,
        page_up(x) % (KPAGE as int) == 0,
        x <= page_up(x) < x + KPAGE,
{
    let k = KPAGE as int;
    vstd::arithmetic::div_mod::lemma_fundamental_div_mod(x, k);
    vstd::arithmetic::div_mod::lemma_mod_multiples_basic(x / k, k);
    assert((x / k) * k == k * (x / k)) by (nonlinear_arith);
    let y = x + k - 1;
    vstd::arithmetic::div_mod::lemma_fundamental_div_mod(y, k);
    vstd::arithmetic::div_mod::lemma_mod_multiples_basic(y / k, k);
    assert((y / k) * k == k * (y / k)) by (nonlinear_arith);
}

} // verus!
