//! Slab caches for small kernel objects: each cache carves whole frames
//! into equal slots and keeps a free list per frame.
use vstd::prelude::*;
use crate::memory::phys::{PhysAllocator, alloc_frame};
use crate::arch::paging::{phys_to_virt, KERNEL_VIRT_OFFSET, PAGE_SIZE};

verus! {

pub const SLAB_MAGIC: u32 = 0x514E5358;
/// Bytes in one slab frame.
pub const SLAB_FRAME: usize = 4096;

/// One frame of slots: its kernel address, the free slot addresses (the
/// last one is handed out next), and the number of slots in use.
pub struct SlabPage {
    pub base: u64,
    pub free: Vec<u64>,
    pub used: usize,
    pub cap: usize,
}

/// A cache of `obj_size`-byte objects.
pub struct SlabCache {
    pub obj_size: usize,
    pub pages: Vec<SlabPage>,
}

/// The slots of a fresh frame at `base`, lowest address first.
pub open spec fn fresh_slots(base: u64, obj_size: usize, cap: nat) -> Seq<u64> {
    Seq::new(cap, |k: int| (base + k * obj_size) as u64)
}

/// The first page from `i` on with a free slot, or -1.
pub open spec fn first_with_free(pages: Seq<SlabPage>, i: int) -> int
    decreases pages.len() - i,
{
    if i < 0 || i >= pages.len() {
        -1
    } else if pages[i].free@.len() > 0 {
        i
    } else {
        first_with_free(pages, i + 1)
    }
}

/// The first page from `i` on whose frame holds `addr`, or -1.
pub open spec fn first_holding(pages: Seq<SlabPage>, addr: u64, i: int) -> int
    decreases pages.len() - i,
{
    if i < 0 || i >= pages.len() {
        -1
    } else if pages[i].base <= addr < pages[i].base + PAGE_SIZE {
        i
    } else {
        first_holding(pages, addr, i + 1)
    }
}

proof fn lemma_first_with_free_range(pages: Seq<SlabPage>, i: int)
    requires
        0 <= i,
    ensures
        first_with_free(pages, i) == -1 || (i <= first_with_free(pages, i) < pages.len()
            && pages[first_with_free(pages, i)].free@.len() > 0),
    decreases pages.len() - i,
{
    if i < pages.len() && pages[i].free@.len() == 0 {
        lemma_first_with_free_range(pages, i + 1);
    }
}

proof fn lemma_first_holding_range(pages: Seq<SlabPage>, addr: u64, i: int)
    requires
        0 <= i,
    ensures
        first_holding(pages, addr, i) == -1 || (i <= first_holding(pages, addr, i) < pages.len()),
    decreases pages.len() - i,
{
    if 0 <= i < pages.len() && !(pages[i].base <= addr < pages[i].base + PAGE_SIZE) {
        lemma_first_holding_range(pages, addr, i + 1);
    }
}

/// Objects in use over the first `n` pages.
pub open spec fn used_sum(pages: Seq<SlabPage>, n: int) -> int
    decreases n,
{
    if n <= 0 { 0 } else { used_sum(pages, n - 1) + pages[n - 1].used }
}

impl SlabCache {
    /// Objects fit a frame, and every frame lies in the kernel's window.
    pub open spec fn wf(&self) -> bool {
        &&& 1 <= self.obj_size <= PAGE_SIZE
        &&& forall|i: int| 0 <= i < self.pages@.len() ==> #[trigger] self.pages@[i].base <= u64::MAX - PAGE_SIZE
    }

    pub fn new(obj_size: usize) -> (r: SlabCache)
        ensures
            r.obj_size == obj_size,
            r.pages@.len() == 0,
    {
        SlabCache { obj_size, pages: Vec::new() }
    }

    /// A free slot: the last free slot of the first page that has one, or
    /// else the last slot of a frame newly taken from `pa` (`None` when
    /// none is left).
    pub fn alloc_object(&mut self, pa: &mut PhysAllocator, cpu: u32) -> (r: Option<u64>)
        requires
            old(self).wf(),
            old(pa).wf(),
            forall|i: int| 0 <= i < old(self).pages@.len() ==> #[trigger] old(self).pages@[i].used < usize::MAX,
        ensures
            final(self).wf(),
            final(pa).wf(),
            final(self).obj_size == old(self).obj_size,
            alloc_object_post(*old(self), *final(self), *old(pa), *final(pa), r),
    {
        let ghost ps = self.pages@;
        let mut i: usize = 0;
        while i < self.pages.len()
            invariant
                i <= self.pages@.len(),
                self.pages@ == ps,
                ps == old(self).pages@,
                self.obj_size == old(self).obj_size,
                self.wf(),
                *pa == *old(pa),
                old(pa).wf(),
                forall|j: int| 0 <= j < ps.len() ==> #[trigger] ps[j].used < usize::MAX,
                first_with_free(ps, 0) == first_with_free(ps, i as int),
            decreases self.pages@.len() - i,
        {
            if self.pages[i].free.len() > 0 {
                let ghost before = self.pages@;
                let page = &mut self.pages[i];
                let ptr = page.free.pop().unwrap();
                page.used = page.used + 1;
                proof {
                    assert forall|j: int| 0 <= j < ps.len() && j != i implies #[trigger] self.pages@[j] == ps[j] by {}
                }
                return Some(ptr);
            }
            i = i + 1;
        }
        let phys = match alloc_frame(pa, cpu) {
            Some(p) => p,
            None => {
                return None;
            },
        };
        let base = phys_to_virt(phys);
        let cap: usize = SLAB_FRAME / self.obj_size;
        assert(cap >= 1) by (nonlinear_arith)
            requires
                cap == SLAB_FRAME / self.obj_size,
                1 <= self.obj_size <= SLAB_FRAME,
        ;
        let mut free: Vec<u64> = Vec::new();
        let mut k: usize = 0;
        while k < cap
            invariant
                k <= cap,
                cap >= 1,
                cap == SLAB_FRAME / self.obj_size,
                1 <= self.obj_size <= PAGE_SIZE,
                base >= KERNEL_VIRT_OFFSET,
                base <= u64::MAX - PAGE_SIZE,
                free@ == fresh_slots(base, self.obj_size, k as nat),
            decreases cap - k,
        {
            assert(k * self.obj_size < PAGE_SIZE) by (nonlinear_arith)
                requires
                    k < cap,
                    cap == SLAB_FRAME / self.obj_size,
                    1 <= self.obj_size,
            ;
            free.push(base + (k * self.obj_size) as u64);
            assert(free@ =~= fresh_slots(base, self.obj_size, (k + 1) as nat));
            k = k + 1;
        }
        let ptr = free.pop().unwrap();
        assert(free@ =~= fresh_slots(base, self.obj_size, (cap - 1) as nat));
        assert((cap - 1) * self.obj_size < PAGE_SIZE) by (nonlinear_arith)
            requires
                cap >= 1,
                cap == SLAB_FRAME / self.obj_size,
                1 <= self.obj_size,
        ;
        assert(ptr == base + (cap - 1) * self.obj_size);
        self.pages.push(SlabPage { base, free, used: 1, cap });
        proof {
            assert(self.pages@.drop_last() =~= ps);
        }
        Some(ptr)
    }

    /// Returns `addr` to the first page whose frame holds it; an address
    /// outside every frame is ignored.
    pub fn free(&mut self, addr: u64)
        requires
            old(self).wf(),
        ensures
            final(self).wf(),
            final(self).obj_size == old(self).obj_size,
            free_post(*old(self), *final(self), addr),
    {
        let ghost ps = self.pages@;
        let mut i: usize = 0;
        while i < self.pages.len()
            invariant
                i <= self.pages@.len(),
                self.pages@ == ps,
                ps == old(self).pages@,
                self.obj_size == old(self).obj_size,
                self.wf(),
                first_holding(ps, addr, 0) == first_holding(ps, addr, i as int),
            decreases self.pages@.len() - i,
        {
            let end = self.pages[i].base + PAGE_SIZE;
            if addr >= self.pages[i].base && addr < end {
                let page = &mut self.pages[i];
                page.free.push(addr);
                if page.used > 0 {
                    page.used = page.used - 1;
                }
                proof {
                    assert forall|j: int| 0 <= j < ps.len() && j != i implies #[trigger] self.pages@[j] == ps[j] by {}
                }
                return;
            }
            i = i + 1;
        }
    }

    /// Objects in use across the cache.
    pub fn used_objects(&self) -> (r: usize)
        requires
            used_sum(self.pages@, self.pages@.len() as int) <= usize::MAX,
        ensures
            r == used_sum(self.pages@, self.pages@.len() as int),
    {
        let mut total: usize = 0;
        let mut i: usize = 0;
        while i < self.pages.len()
            invariant
                i <= self.pages@.len(),
                total == used_sum(self.pages@, i as int),
                used_sum(self.pages@, self.pages@.len() as int) <= usize::MAX,
            decreases self.pages@.len() - i,
        {
            proof {
                lemma_used_sum_mono(self.pages@, i as int + 1, self.pages@.len() as int);
            }
            total = total + self.pages[i].used;
            i = i + 1;
        }
        total
    }
}

proof fn lemma_used_sum_mono(pages: Seq<SlabPage>, a: int, b: int)
    requires
        0 <= a <= b <= pages.len(),
    ensures
        used_sum(pages, a) <= used_sum(pages, b),
    decreases b - a,
{
    if a < b {
        lemma_used_sum_mono(pages, a, b - 1);
    }
}

/// The caches for objects of 16, 32, ... 2048 bytes.
pub struct SlabCaches {
    pub caches: Vec<SlabCache>,
}

/// The size class serving `size` bytes, or `None` above 2048.
pub open spec fn size_class(size: int) -> Option<int> {
    if size <= 16 { Some(0) }
    else if size <= 32 { Some(1) }
    else if size <= 64 { Some(2) }
    else if size <= 128 { Some(3) }
    else if size <= 256 { Some(4) }
    else if size <= 512 { Some(5) }
    else if size <= 1024 { Some(6) }
    else if size <= 2048 { Some(7) }
    else { None }
}

/// What taking an object from cache `o` leaves: the cache `f`, the frame
/// allocator going from `pa0` to `pa1`, and the object `r`. The first page
/// with a free slot gives its last free slot; without one a new page is
/// made from a fresh frame and gives its last slot.
pub open spec fn alloc_object_post(o: SlabCache, f: SlabCache, pa0: PhysAllocator, pa1: PhysAllocator, r: Option<u64>) -> bool {
    {
                let ps = o.pages@;
                let i = first_with_free(ps, 0);
                if i >= 0 {
                    &&& r == Some(ps[i].free@.last())
                    &&& pa1 == pa0
                    &&& f.pages@.len() == ps.len()
                    &&& f.pages@[i].free@ == ps[i].free@.drop_last()
                    &&& f.pages@[i].used == ps[i].used + 1
                    &&& f.pages@[i].base == ps[i].base
                    &&& f.pages@[i].cap == ps[i].cap
                    &&& forall|j: int| 0 <= j < ps.len() && j != i ==> #[trigger] f.pages@[j] == ps[j]
                } else {
                    &&& r is None ==> f.pages@ == ps
                    &&& r matches Some(a) ==> {
                        let np = f.pages@.last();
                        let cap = SLAB_FRAME / o.obj_size;
                        &&& f.pages@.len() == ps.len() + 1
                        &&& f.pages@.drop_last() == ps
                        &&& np.cap == cap
                        &&& np.used == 1
                        &&& np.base >= KERNEL_VIRT_OFFSET
                        &&& np.free@ == fresh_slots(np.base, o.obj_size, (cap - 1) as nat)
                        &&& a == np.base + (cap - 1) * o.obj_size
                    }
                }
            }
}

/// What returning `addr` to cache `o` leaves: the first page holding the
/// address gets the slot back and one use fewer; otherwise nothing changes.
pub open spec fn free_post(o: SlabCache, f: SlabCache, addr: u64) -> bool {
    {
                let ps = o.pages@;
                let i = first_holding(ps, addr, 0);
                if i >= 0 {
                    &&& f.pages@.len() == ps.len()
                    &&& f.pages@[i].free@ == ps[i].free@.push(addr)
                    &&& f.pages@[i].used == if ps[i].used > 0 { ps[i].used - 1 } else { 0 }
                    &&& f.pages@[i].base == ps[i].base
                    &&& f.pages@[i].cap == ps[i].cap
                    &&& forall|j: int| 0 <= j < ps.len() && j != i ==> #[trigger] f.pages@[j] == ps[j]
                } else {
                    f.pages@ == ps
                }
            }
}

pub open spec fn class_size(c: int) -> int {
    if c == 0 { 16 } else if c == 1 { 32 } else if c == 2 { 64 } else if c == 3 { 128 }
    else if c == 4 { 256 } else if c == 5 { 512 } else if c == 6 { 1024 } else { 2048 }
}

fn class_of(size: usize) -> (r: Option<usize>)
    ensures
        r matches Some(c) ==> size_class(size as int) == Some(c as int),
        r is None ==> size_class(size as int) is None,
{
    if size <= 16 { Some(0) }
    else if size <= 32 { Some(1) }
    else if size <= 64 { Some(2) }
    else if size <= 128 { Some(3) }
    else if size <= 256 { Some(4) }
    else if size <= 512 { Some(5) }
    else if size <= 1024 { Some(6) }
    else if size <= 2048 { Some(7) }
    else { None }
}

impl SlabCaches {
    pub open spec fn wf(&self) -> bool {
        &&& self.caches@.len() == 8
        &&& forall|c: int| 0 <= c < 8 ==> (#[trigger] self.caches@[c]).wf() && self.caches@[c].obj_size == class_size(c)
    }

    pub fn new() -> (r: SlabCaches)
        ensures
            r.wf(),
            forall|c: int| 0 <= c < 8 ==> (#[trigger] r.caches@[c]).pages@.len() == 0,
    {
        let mut caches: Vec<SlabCache> = Vec::new();
        let mut size: usize = 16;
        while size <= 2048
            invariant
                caches@.len() < 8 ==> size == class_size(caches@.len() as int),
                caches@.len() == 8 ==> size == 4096,
                caches@.len() <= 8,
                caches@.len() < 8 <==> size <= 2048,
                forall|c: int| 0 <= c < caches@.len() ==> (#[trigger] caches@[c]).wf() && caches@[c].obj_size == class_size(c)
                    && caches@[c].pages@.len() == 0,
            decreases 4096 - size,
        {
            caches.push(SlabCache::new(size));
            size = size * 2;
        }
        SlabCaches { caches }
    }
}

/// An object of `size` bytes from its size class; `None` above 2048
/// bytes or when no frame is left.
pub fn alloc_sized(sc: &mut SlabCaches, pa: &mut PhysAllocator, cpu: u32, size: usize) -> (r: Option<u64>)
    requires
        old(sc).wf(),
        old(pa).wf(),
        forall|c: int, i: int| 0 <= c < 8 && 0 <= i < old(sc).caches@[c].pages@.len()
            ==> #[trigger] old(sc).caches@[c].pages@[i].used < usize::MAX,
    ensures
        final(sc).wf(),
        final(pa).wf(),
        size_class(size as int) is None ==> r is None && *final(sc) == *old(sc) && *final(pa) == *old(pa),
        size_class(size as int) matches Some(c) ==> forall|d: int| 0 <= d < 8 && d != c
            ==> #[trigger] final(sc).caches@[d] == old(sc).caches@[d],
        size_class(size as int) matches Some(c) ==> alloc_object_post(old(sc).caches@[c], final(sc).caches@[c],
            *old(pa), *final(pa), r),
{
    match class_of(size) {
        None => None,
        Some(c) => {
            let ghost before = sc.caches@;
            assert(before[c as int].wf() && before[c as int].obj_size == class_size(c as int));
            let mut cache = sc.caches.remove(c);
            let r = cache.alloc_object(pa, cpu);
            sc.caches.insert(c, cache);
            proof {
                assert forall|d: int| 0 <= d < 8 implies (#[trigger] sc.caches@[d]).wf() && sc.caches@[d].obj_size == class_size(d) by {
                    if d != c {
                        assert(sc.caches@[d] == before[d]);
                    }
                }
            }
            proof {
                assert forall|d: int| 0 <= d < 8 && d != c implies #[trigger] sc.caches@[d] == before[d] by {}
            }
            r
        },
    }
}

/// Returns an object of `size` bytes to its size class; sizes above 2048
/// are ignored.
pub fn free_sized(sc: &mut SlabCaches, addr: u64, size: usize)
    requires
        old(sc).wf(),
    ensures
        final(sc).wf(),
        size_class(size as int) is None ==> *final(sc) == *old(sc),
        size_class(size as int) matches Some(c) ==> forall|d: int| 0 <= d < 8 && d != c
            ==> #[trigger] final(sc).caches@[d] == old(sc).caches@[d],
        size_class(size as int) matches Some(c) ==> free_post(old(sc).caches@[c], final(sc).caches@[c], addr),
{
    match class_of(size) {
        None => {},
        Some(c) => {
            let ghost before = sc.caches@;
            assert(before[c as int].wf() && before[c as int].obj_size == class_size(c as int));
            let mut cache = sc.caches.remove(c);
            cache.free(addr);
            sc.caches.insert(c, cache);
            proof {
                assert forall|d: int| 0 <= d < 8 implies (#[trigger] sc.caches@[d]).wf() && sc.caches@[d].obj_size == class_size(d) by {
                    if d != c {
                        assert(sc.caches@[d] == before[d]);
                    }
                }
            }
            proof {
                assert forall|d: int| 0 <= d < 8 && d != c implies #[trigger] sc.caches@[d] == before[d] by {}
            }
        },
    }
}


/// The size class for a request is the smallest one whose objects hold it:
/// there is one exactly for requests of at most 2048 bytes; its objects are
/// at least as large as the request and the next smaller class's are not.
/// The classes hold 16 << c bytes.
pub proof fn law_size_class_smallest_fit(size: int)
    requires
        0 <= size,
    ensures
        (size <= 2048) == (size_class(size) is Some),
        size_class(size) is Some ==> {
            let c = size_class(size)->0;
            &&& 0 <= c < 8
            &&& class_size(c) >= size
            &&& (c == 0 || class_size(c - 1) < size)
        },
        forall|c: int| 0 <= c < 8 ==> #[trigger] class_size(c) == 16 * vstd::arithmetic::power2::pow2(c as nat),
{
    vstd::arithmetic::power2::lemma2_to64();
}

} // verus!
