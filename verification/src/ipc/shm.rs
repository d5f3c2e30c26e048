//! POSIX shared memory objects: named regions backed by physical frames.
use vstd::prelude::*;
use crate::table::NameTable;
use crate::memory::phys::{PhysAllocator, alloc_frame, PAGE_SIZE};

verus! {

pub const O_CREAT: i32 = 0o100;
pub const O_EXCL: i32 = 0o200;

pub struct ShmRegion {
    pub name: String,
    pub frames: Vec<u64>,
    pub size: u64,
    pub refs: u32,
    pub mode: u32,
}

/// All shared-memory objects of the system, by name.
pub struct ShmTable {
    pub regions: NameTable<ShmRegion>,
}

impl ShmTable {
    pub open spec fn wf(&self) -> bool {
        self.regions.wf()
    }

    pub fn new() -> (r: ShmTable)
        ensures
            r.wf(),
            r.regions@ == Map::<Seq<char>, ShmRegion>::empty(),
    {
        ShmTable { regions: NameTable::new() }
    }
}

/// Number of pages needed to hold `size` bytes.
pub open spec fn pages_for(size: int) -> int {
    (size + PAGE_SIZE - 1) / PAGE_SIZE as int
}

/// Opens (and with `O_CREAT` creates) the object `name`.
///
/// Returns 0 when the object is open (the caller then hands out a file
/// descriptor for it), -17 (EEXIST) for `O_CREAT|O_EXCL` on an existing
/// name, or -2 (ENOENT) for an unknown name without `O_CREAT`.
pub fn shm_open(t: &mut ShmTable, name: &str, flags: i32, mode: u32) -> (r: i64)
    requires
        old(t).wf(),
        old(t).regions@.contains_key(name@) ==> old(t).regions@[name@].refs < u32::MAX,
    ensures
        final(t).wf(),
        old(t).regions@.contains_key(name@) && flags & O_CREAT != 0 && flags & O_EXCL != 0 ==> r == -17
            && final(t).regions@ == old(t).regions@,
        old(t).regions@.contains_key(name@) && !(flags & O_CREAT != 0 && flags & O_EXCL != 0) ==> r == 0
            && final(t).regions@.dom() == old(t).regions@.dom()
            && final(t).regions@[name@].refs == old(t).regions@[name@].refs + 1
            && final(t).regions@[name@].frames@ == old(t).regions@[name@].frames@
            && final(t).regions@[name@].size == old(t).regions@[name@].size
            && final(t).regions@[name@].mode == old(t).regions@[name@].mode
            && forall|k: Seq<char>| #[trigger] old(t).regions@.contains_key(k) && k != name@
                ==> final(t).regions@[k] == old(t).regions@[k],
        !old(t).regions@.contains_key(name@) && flags & O_CREAT == 0 ==> r == -2
            && final(t).regions@ == old(t).regions@,
        !old(t).regions@.contains_key(name@) && flags & O_CREAT != 0 ==> r == 0
            && final(t).regions@.dom() == old(t).regions@.dom().insert(name@)
            && final(t).regions@[name@].refs == 1
            && final(t).regions@[name@].size == 0
            && final(t).regions@[name@].frames@.len() == 0
            && final(t).regions@[name@].mode == mode
            && final(t).regions@[name@].name@ == name@
            && forall|k: Seq<char>| #[trigger] old(t).regions@.contains_key(k)
                ==> final(t).regions@[k] == old(t).regions@[k],
{
    let create = flags & O_CREAT != 0;
    let excl = flags & O_EXCL != 0;
    match t.regions.find(name) {
        Some(i) => {
            if create && excl {
                return -17;
            }
            let s = t.regions.get_mut(i);
            s.refs = s.refs + 1;
            proof {
                NameTable::lemma_view_update(&old(t).regions, &t.regions, i as int);
            }
            0
        },
        None => {
            if !create {
                return -2;
            }
            let region = ShmRegion {
                name: name.to_owned(),
                frames: Vec::new(),
                size: 0,
                refs: 1,
                mode,
            };
            t.regions.insert_new(name, region);
            0
        },
    }
}

/// Removes the name; 0, or -2 when it was unknown.
pub fn shm_unlink(t: &mut ShmTable, name: &str) -> (r: i64)
    requires
        old(t).wf(),
    ensures
        final(t).wf(),
        final(t).regions@ == old(t).regions@.remove(name@),
        r == if old(t).regions@.contains_key(name@) { 0i64 } else { -2i64 },
{
    match t.regions.find(name) {
        Some(i) => {
            let _ = t.regions.remove_at(i);
            0
        },
        None => {
            proof {
                assert(old(t).regions@.remove(name@) =~= old(t).regions@);
            }
            -2
        },
    }
}

/// Sets the size of `name` to `size` bytes, growing its frame list with
/// fresh frames from `pa` or cutting it to the pages still needed.
///
/// Returns the status and the frames cut off, which the caller gives back
/// to the frame allocator; frames added are for the caller to zero. The
/// status is 0, -9 (EBADF) for an unknown name, or -12 (ENOMEM) when the
/// allocator ran dry, in which case the frames gained so far stay and the
/// size is left as it was.
pub fn ftruncate_shm(t: &mut ShmTable, name: &str, size: u64, pa: &mut PhysAllocator, cpu: u32) -> (r: (i64, Vec<u64>))
    requires
        old(t).wf(),
        old(pa).wf(),
        size + PAGE_SIZE - 1 <= u64::MAX,
        pages_for(size as int) <= usize::MAX,
    ensures
        final(t).wf(),
        final(pa).wf(),
        final(t).regions@.dom() == old(t).regions@.dom(),
        forall|k: Seq<char>| #[trigger] old(t).regions@.contains_key(k) && k != name@
            ==> final(t).regions@[k] == old(t).regions@[k],
        !old(t).regions@.contains_key(name@) ==> r.0 == -9 && r.1@.len() == 0
            && final(t).regions@ == old(t).regions@,
        old(t).regions@.contains_key(name@) ==> {
            let o = old(t).regions@[name@];
            let n = final(t).regions@[name@];
            let needed = pages_for(size as int);
            &&& n.refs == o.refs && n.mode == o.mode && n.name@ == o.name@
            &&& needed <= o.frames@.len() ==> r.0 == 0
                && n.frames@ == o.frames@.take(needed)
                && r.1@ == o.frames@.skip(needed)
                && n.size == size
            &&& needed > o.frames@.len() ==> (r.0 == 0 || r.0 == -12)
                && r.1@.len() == 0
                && n.frames@.take(o.frames@.len() as int) == o.frames@
                && (forall|j: int| o.frames@.len() <= j < n.frames@.len() ==> #[trigger] n.frames@[j] != 0)
                && (r.0 == 0 ==> n.frames@.len() == needed && n.size == size)
                && (r.0 == -12 ==> o.frames@.len() <= n.frames@.len() < needed && n.size == o.size)
        },
{
    match t.regions.find(name) {
        None => (-9, Vec::new()),
        Some(i) => {
            let needed: usize = ((size + (PAGE_SIZE - 1)) / PAGE_SIZE) as usize;
            let mut frames: Vec<u64> = t.regions.get(i).frames.clone();
            let ghost ofr = frames@;
            assert(frames@ == old(t).regions@[name@].frames@);
            let current: usize = frames.len();
            let mut released: Vec<u64> = Vec::new();
            let mut status: i64 = 0;
            if needed > current {
                let mut k: usize = current;
                while k < needed
                    invariant_except_break
                        status == 0,
                    invariant
                        pa.wf(),
                        current <= k <= needed,
                        frames@.len() == k,
                        frames@.take(current as int) == ofr,
                        ofr.len() == current,
                        forall|j: int| current <= j < frames@.len() ==> #[trigger] frames@[j] != 0,
                    ensures
                        pa.wf(),
                        frames@.take(current as int) == ofr,
                        current <= frames@.len() <= needed,
                        status == 0 ==> frames@.len() == needed,
                        status == 0 || (status == -12 && frames@.len() < needed),
                        forall|j: int| current <= j < frames@.len() ==> #[trigger] frames@[j] != 0,
                    decreases needed - k,
                {
                    match alloc_frame(pa, cpu) {
                        Some(f) => {
                            let ghost before = frames@;
                            frames.push(f);
                            assert(frames@.take(current as int) =~= before.take(current as int));
                        },
                        None => {
                            status = -12;
                            break;
                        },
                    }
                    k = k + 1;
                }
            } else {
                released = frames.split_off(needed);
            }
            let s = t.regions.get_mut(i);
            s.frames = frames;
            if status == 0 {
                s.size = size;
            }
            proof {
                NameTable::lemma_view_update(&old(t).regions, &t.regions, i as int);
            }
            (status, released)
        },
    }
}

/// How many pages of a mapping of `len` bytes at page `start` find a frame
/// in a region of `nframes` frames.
pub open spec fn mapped_pages(start: int, len: int, nframes: int) -> int {
    let pages = pages_for(len);
    if start >= nframes { 0 } else if pages < nframes - start { pages } else { nframes - start }
}

/// The page mappings for `len` bytes of `name` starting at byte `offset`:
/// for each page `i` of the mapping whose frame exists, the pair of `i` and
/// that frame, in page order. `None` for an unknown name.
pub fn mmap_shm(t: &ShmTable, name: &str, offset: u64, len: u64) -> (r: Option<Vec<(u64, u64)>>)
    requires
        t.wf(),
        len + PAGE_SIZE - 1 <= u64::MAX,
    ensures
        !t.regions@.contains_key(name@) ==> r is None,
        t.regions@.contains_key(name@) ==> r is Some && {
            let fr = t.regions@[name@].frames@;
            let start = offset / PAGE_SIZE;
            let v = r->0@;
            &&& v.len() == mapped_pages(start as int, len as int, fr.len() as int)
            &&& forall|j: int| 0 <= j < v.len() ==> #[trigger] v[j] == (j as u64, fr[start + j])
        },
{
    match t.regions.find(name) {
        None => None,
        Some(i) => {
            let frames = &t.regions.get(i).frames;
            let ghost fr = frames@;
            let pages: u64 = (len + (PAGE_SIZE - 1)) / PAGE_SIZE;
            let start: u64 = offset / PAGE_SIZE;
            let flen: usize = frames.len();
            let nframes: u64 = flen as u64;
            let mut out: Vec<(u64, u64)> = Vec::new();
            let mut k: u64 = 0;
            while k < pages && start < nframes && k < nframes - start
                invariant
                    fr == frames@,
                    nframes == fr.len(),
                    fr.len() == flen,
                    pages == pages_for(len as int),
                    start == offset / PAGE_SIZE,
                    k <= pages,
                    start < nframes ==> k <= nframes - start,
                    start >= nframes ==> k == 0,
                    out@.len() == k,
                    forall|j: int| 0 <= j < k ==> #[trigger] out@[j] == (j as u64, fr[start + j]),
                decreases pages - k,
            {
                assert(start + k < fr.len() <= usize::MAX);
                let idx: usize = (start + k) as usize;
                assert(idx == start + k);
                let ghost before = out@;
                out.push((k, frames[idx]));
                assert(out@[k as int] == (k, fr[start + k]));
                assert(forall|j: int| 0 <= j < k ==> #[trigger] out@[j] == before[j]);
                k = k + 1;
            }
            Some(out)
        },
    }
}

} // verus!
