//! zswap and zram: pages kept in memory in LZ4-compressed form.
//!
//! The zswap pool holds evicted pages under increasing handles, each with
//! the CRC-32 of the original page so that a corrupted entry is refused on
//! load. A zram device is a block device whose 4 KiB blocks (eight
//! 512-byte sectors each) are stored compressed; a block never written
//! reads as zeros.
use vstd::prelude::*;
use std::collections::BTreeMap;
pub use crate::memory::lz4::{lz4_compress, lz4_decompress};
use crate::memory::lz4::{lz4_decode, crc32_simple, crc32_spec, spec_lz4_encode};

verus! {

broadcast use vstd::std_specs::btree::group_btree_axioms;

pub const ZSWAP_MAX_PERCENT: usize = 20;
pub const ZSWAP_BUCKET_SIZE: usize = 4096;
pub const ZSWAP_HEADER_SIZE: usize = 8;
pub const ZSWAP_MAX_COMPRESSED: usize = 4088;
pub const ZRAM_SECTOR_SIZE: usize = 512;
pub const ZRAM_MAX_SECTORS: u64 = 1048576;
pub const PAGE_BYTES: usize = 4096;

/// One compressed page in the pool.
pub struct ZswapEntry {
    pub pid: u32,
    pub vaddr: u64,
    pub compressed: Vec<u8>,
    pub orig_checksum: u32,
}

/// The compressed pool: entries by handle, handles handed out in
/// increasing order from 1.
pub struct CompressedPool {
    pub entries: BTreeMap<u64, ZswapEntry>,
    pub next_handle: u64,
    pub max_entries: usize,
    pub total_orig: u64,
    pub total_comp: u64,
}

/// The smallest key of a map, by `BTreeMap::keys`, which the standard
/// library documents as yielding the keys in sorted order: `None` exactly
/// when the map is empty, else a key no larger than any other.
#[verifier::external_body]
fn first_key<V>(m: &BTreeMap<u64, V>) -> (r: Option<u64>)
    ensures
        r is None <==> m@.dom().len() == 0,
        r matches Some(h) ==> m@.contains_key(h) && forall|k: u64| #[trigger] m@.contains_key(k) ==> h <= k,
{
    m.keys().next().copied()
}

/// The page an entry gives back when it is intact: its decoded data, if
/// that decodes to a full page whose CRC matches the recorded one.
pub open spec fn entry_page(e: ZswapEntry) -> Option<Seq<u8>> {
    match lz4_decode(e.compressed@, PAGE_BYTES as int) {
        Some(d) => if crc32_spec(d) == e.orig_checksum { Some(d) } else { None },
        None => None,
    }
}

impl CompressedPool {
    /// Every handle in use lies in `1..next_handle`.
    pub open spec fn wf(&self) -> bool {
        &&& self.next_handle >= 1
        &&& forall|h: u64| #[trigger] self.entries@.contains_key(h) ==> 1 <= h < self.next_handle
            && self.entries@[h].compressed@.len() <= 4096 + 64
    }

    pub fn new(max_entries: usize) -> (r: CompressedPool)
        ensures
            r.wf(),
            r.entries@ == Map::<u64, ZswapEntry>::empty(),
            r.next_handle == 1,
            r.max_entries == max_entries,
    {
        CompressedPool { entries: BTreeMap::new(), next_handle: 1, max_entries, total_orig: 0, total_comp: 0 }
    }

    pub fn is_full(&self) -> (r: bool)
        ensures
            r == (self.entries@.len() >= self.max_entries),
    {
        self.entries.len() >= self.max_entries
    }

    /// Compresses and keeps one page; its handle, or `None` when the pool
    /// is full.
    pub fn store(&mut self, pid: u32, vaddr: u64, data: &[u8; 4096]) -> (r: Option<u64>)
        requires
            old(self).wf(),
            old(self).next_handle < u64::MAX,
        ensures
            final(self).wf(),
            final(self).max_entries == old(self).max_entries,
            old(self).entries@.len() >= old(self).max_entries ==> r is None && final(self).entries@ == old(self).entries@
                && final(self).next_handle == old(self).next_handle,
            old(self).entries@.len() < old(self).max_entries ==> {
                &&& r == Some(old(self).next_handle)
                &&& final(self).next_handle == old(self).next_handle + 1
                &&& final(self).entries@.dom() == old(self).entries@.dom().insert(old(self).next_handle)
                &&& forall|h: u64| h != old(self).next_handle && #[trigger] old(self).entries@.contains_key(h)
                    ==> final(self).entries@[h] == old(self).entries@[h]
                &&& final(self).entries@[old(self).next_handle].pid == pid
                &&& final(self).entries@[old(self).next_handle].vaddr == vaddr
                &&& entry_page(final(self).entries@[old(self).next_handle]) == Some(data@)
            },
    {
        if self.is_full() {
            return None;
        }
        let crc = crc32_simple(data);
        let mut compressed: Vec<u8> = Vec::new();
        let mut k: usize = 0;
        while k < 4096 + 64
            invariant
                k <= 4096 + 64,
                compressed@.len() == k,
            decreases 4096 + 64 - k,
        {
            compressed.push(0u8);
            k = k + 1;
        }
        let comp_len = match lz4_compress(data, compressed.as_mut_slice()) {
            Some(l) => l,
            None => {
                return None;
            },
        };
        compressed.truncate(comp_len);
        assert(compressed@ =~= spec_lz4_encode(data@));
        let handle = self.next_handle;
        self.next_handle = self.next_handle + 1;
        self.total_orig = self.total_orig.wrapping_add(4096);
        self.total_comp = self.total_comp.wrapping_add(comp_len as u64);
        let ghost e = ZswapEntry { pid, vaddr, compressed, orig_checksum: crc };
        assert(entry_page(e) == Some(data@));
        self.entries.insert(handle, ZswapEntry { pid, vaddr, compressed, orig_checksum: crc });
        Some(handle)
    }

    /// Decodes the page under `handle` into `out` and checks its CRC.
    pub fn load(&mut self, handle: u64, out: &mut [u8; 4096]) -> (r: bool)
        requires
            old(self).wf(),
        ensures
            *final(self) == *old(self),
            r == (old(self).entries@.contains_key(handle) && entry_page(old(self).entries@[handle]) is Some),
            r ==> final(out)@ == entry_page(old(self).entries@[handle])->0,
    {
        let entry = match self.entries.get(&handle) {
            Some(e) => e,
            None => {
                return false;
            },
        };
        let ok = lz4_decompress(entry.compressed.as_slice(), out);
        if ok {
            let crc = crc32_simple(out);
            crc == entry.orig_checksum
        } else {
            false
        }
    }

    /// Drops the entry under `handle`; whether there was one.
    pub fn remove(&mut self, handle: u64) -> (r: bool)
        requires
            old(self).wf(),
        ensures
            final(self).wf(),
            final(self).next_handle == old(self).next_handle,
            final(self).max_entries == old(self).max_entries,
            r == old(self).entries@.contains_key(handle),
            final(self).entries@ == old(self).entries@.remove(handle),
    {
        match self.entries.remove(&handle) {
            Some(e) => {
                self.total_comp = self.total_comp.wrapping_sub(e.compressed.len() as u64);
                self.total_orig = self.total_orig.wrapping_sub(4096);
                true
            },
            None => false,
        }
    }

    /// Drops the entry with the lowest handle, the one stored first; its
    /// handle, or `None` when the pool is empty.
    pub fn evict_oldest(&mut self) -> (r: Option<u64>)
        requires
            old(self).wf(),
        ensures
            final(self).wf(),
            final(self).next_handle == old(self).next_handle,
            final(self).max_entries == old(self).max_entries,
            r is None <==> old(self).entries@.dom().len() == 0,
            r matches Some(h) ==> old(self).entries@.contains_key(h)
                && (forall|k: u64| #[trigger] old(self).entries@.contains_key(k) ==> h <= k)
                && final(self).entries@ == old(self).entries@.remove(h),
            r is None ==> final(self).entries@ == old(self).entries@,
    {
        let handle: u64 = match first_key(&self.entries) {
            Some(h) => h,
            None => {
                return None;
            },
        };
        self.remove(handle);
        Some(handle)
    }
}


/// The zswap subsystem: the pool, once initialised, and its counters.
pub struct Zswap {
    pub pool: Option<CompressedPool>,
    pub stored: usize,
    pub loaded: usize,
    pub evicted: usize,
}

impl Zswap {
    pub open spec fn wf(&self) -> bool {
        self.pool matches Some(p) ==> p.wf()
    }

    pub fn new() -> (r: Zswap)
        ensures
            r.wf(),
            r.pool is None,
    {
        Zswap { pool: None, stored: 0, loaded: 0, evicted: 0 }
    }
}

/// What loading `handle` gives: the page, if the entry exists and is intact.
pub open spec fn load_result(p: CompressedPool, handle: u64) -> Option<Seq<u8>> {
    if p.entries@.contains_key(handle) { entry_page(p.entries@[handle]) } else { None }
}

/// The pool's size for `total_frames` frames of memory: a fifth of them,
/// and never fewer than 256 pages.
pub open spec fn pool_capacity(total_frames: int) -> int {
    let m = total_frames * 20 / 100;
    if m < 256 { 256 } else { m }
}

/// Sets up an empty pool sized for `total_frames` frames.
pub fn init(z: &mut Zswap, total_frames: usize)
    requires
        total_frames <= usize::MAX / 20,
    ensures
        final(z).wf(),
        final(z).pool matches Some(p) && p.entries@ == Map::<u64, ZswapEntry>::empty() && p.next_handle == 1
            && p.max_entries == pool_capacity(total_frames as int),
{
    let m = total_frames * ZSWAP_MAX_PERCENT / 100;
    let max_entries = if m < 256 { 256 } else { m };
    z.pool = Some(CompressedPool::new(max_entries));
}

pub fn is_enabled(z: &Zswap) -> (r: bool)
    ensures
        r == z.pool is Some,
{
    z.pool.is_some()
}

/// Compresses one page into the pool; its handle, or `None` when zswap is
/// not initialised or the pool is full.
pub fn store_page(z: &mut Zswap, pid: u32, vaddr: u64, data: &[u8; 4096]) -> (r: Option<u64>)
    requires
        old(z).wf(),
        old(z).pool matches Some(p) ==> p.next_handle < u64::MAX,
    ensures
        final(z).wf(),
        old(z).pool is None ==> r is None && *final(z) == *old(z),
        old(z).pool matches Some(p) ==> final(z).pool matches Some(q) && {
            &&& q.max_entries == p.max_entries
            &&& (p.entries@.len() >= p.max_entries ==> r is None && q.entries@ == p.entries@)
            &&& (p.entries@.len() < p.max_entries ==> {
                &&& r == Some(p.next_handle)
                &&& load_result(q, p.next_handle) == Some(data@)
                &&& forall|h: u64| h != p.next_handle ==> #[trigger] load_result(q, h) == load_result(p, h)
            })
        },
{
    let r = match z.pool.as_mut() {
        Some(p) => {
            let r = p.store(pid, vaddr, data);
            proof {
                assert forall|h: u64| h != old(z).pool->0.next_handle && r is Some implies
                    #[trigger] load_result(*p, h) == load_result(old(z).pool->0, h) by {
                    if old(z).pool->0.entries@.contains_key(h) {
                    } else {
                        assert(!p.entries@.contains_key(h));
                    }
                }
            }
            r
        },
        None => None,
    };
    if r.is_some() {
        z.stored = z.stored.wrapping_add(1);
    }
    r
}

/// Decodes a stored page into `out` and drops it from the pool; whether
/// the handle was there and its page intact.
pub fn load_page(z: &mut Zswap, handle: u64, out: &mut [u8; 4096]) -> (r: bool)
    requires
        old(z).wf(),
    ensures
        final(z).wf(),
        old(z).pool is None ==> !r,
        old(z).pool matches Some(p) ==> {
            &&& r == load_result(p, handle) is Some
            &&& r ==> final(out)@ == load_result(p, handle)->0
            &&& final(z).pool is Some
            &&& final(z).pool->0.max_entries == p.max_entries
            &&& final(z).pool->0.next_handle == p.next_handle
            &&& final(z).pool->0.entries@ == if r { p.entries@.remove(handle) } else { p.entries@ }
        },
{
    let ok = match z.pool.as_mut() {
        Some(p) => p.load(handle, out),
        None => false,
    };
    if ok {
        match z.pool.as_mut() {
            Some(p) => {
                p.remove(handle);
            },
            None => {},
        }
        z.loaded = z.loaded.wrapping_add(1);
    }
    ok
}

/// Drops the oldest page of the pool; whether there was one.
pub fn evict_one(z: &mut Zswap) -> (r: bool)
    requires
        old(z).wf(),
    ensures
        final(z).wf(),
        old(z).pool is None ==> !r && final(z).pool is None,
        old(z).pool matches Some(p) ==> {
            &&& r == (p.entries@.dom().len() > 0)
            &&& final(z).pool is Some
            &&& final(z).pool->0.max_entries == p.max_entries
            &&& final(z).pool->0.next_handle == p.next_handle
            &&& (r ==> exists|h: u64| #[trigger] p.entries@.contains_key(h)
                && final(z).pool->0.entries@ == p.entries@.remove(h)
                && forall|k: u64| #[trigger] p.entries@.contains_key(k) ==> h <= k)
            &&& (!r ==> final(z).pool->0.entries@ == p.entries@)
        },
{
    let evicted = match z.pool.as_mut() {
        Some(p) => p.evict_oldest().is_some(),
        None => false,
    };
    if evicted {
        z.evicted = z.evicted.wrapping_add(1);
    }
    evicted
}

/// A page stored into the pool is what a load of its handle gives back,
/// and storing it leaves what the other handles give unchanged.
pub proof fn law_store_then_load(p: CompressedPool, q: CompressedPool, data: Seq<u8>, h: u64, k: u64)
    requires
        p.wf(),
        q.entries@.dom() == p.entries@.dom().insert(h),
        forall|g: u64| g != h && #[trigger] p.entries@.contains_key(g) ==> q.entries@[g] == p.entries@[g],
        entry_page(q.entries@[h]) == Some(data),
        k != h,
    ensures
        load_result(q, h) == Some(data),
        load_result(q, k) == load_result(p, k),
{
    if p.entries@.contains_key(k) {
    } else {
        assert(!q.entries@.contains_key(k));
    }
}


// ── zram ────────────────────────────────────────────────────────────────

/// A compressed RAM disk: blocks of eight sectors, each stored compressed.
pub struct ZramDevice {
    pub blocks: BTreeMap<u64, Vec<u8>>,
    pub total_sectors: u64,
    pub orig_bytes: u64,
    pub comp_bytes: u64,
}

/// The 4 KiB content of block `b`: zeros when never written, else its
/// decoded data (`None` when that does not decode to a full block).
pub open spec fn block_page(blocks: Map<u64, Vec<u8>>, b: u64) -> Option<Seq<u8>> {
    if blocks.contains_key(b) {
        lz4_decode(blocks[b]@, 4096)
    } else {
        Some(Seq::new(4096, |i: int| 0u8))
    }
}

/// The 512 bytes of sector `sec`, when its block is readable.
pub open spec fn sector_data(blocks: Map<u64, Vec<u8>>, sec: u64) -> Option<Seq<u8>> {
    match block_page(blocks, sec / 8) {
        Some(p) => Some(p.subrange((sec % 8) as int * 512, (sec % 8) as int * 512 + 512)),
        None => None,
    }
}

/// Sector `sec` after writing `data` at sector `lba`: the written bytes
/// inside the range, what was there before outside it.
pub open spec fn sector_after_write(before: Map<u64, Vec<u8>>, lba: u64, data: Seq<u8>, sec: u64) -> Option<Seq<u8>> {
    if lba <= sec < lba + data.len() / 512 {
        Some(data.subrange((sec - lba) * 512, (sec - lba) * 512 + 512))
    } else {
        sector_data(before, sec)
    }
}

impl ZramDevice {
    /// Every stored block is at most a page and a little.
    pub open spec fn wf(&self) -> bool {
        forall|b: u64| #[trigger] self.blocks@.contains_key(b) ==> self.blocks@[b]@.len() <= 4096 + 64
    }

    pub fn new(size_mb: u64) -> (r: ZramDevice)
        requires
            size_mb <= u64::MAX / 1048576,
        ensures
            r.wf(),
            r.blocks@ == Map::<u64, Vec<u8>>::empty(),
            r.total_sectors == size_mb * 2048,
    {
        ZramDevice { blocks: BTreeMap::new(), total_sectors: size_mb * 1024 * 1024 / 512, orig_bytes: 0, comp_bytes: 0 }
    }

    pub fn used_blocks(&self) -> (r: usize)
        ensures
            r == self.blocks@.len(),
    {
        self.blocks.len()
    }

    /// Reads whole sectors from `lba` into `buf` (a trailing partial sector
    /// is left alone); `false` when a block on the way does not decode.
    pub fn read_sectors(&mut self, lba: u64, buf: &mut [u8]) -> (r: bool)
        requires
            old(self).wf(),
            lba + old(buf)@.len() / 512 <= u64::MAX,
        ensures
            *final(self) == *old(self),
            final(buf)@.len() == old(buf)@.len(),
            r == forall|sec: u64| lba <= sec < lba + old(buf)@.len() / 512
                ==> #[trigger] sector_data(old(self).blocks@, sec) is Some,
            r ==> forall|sec: u64| lba <= sec < lba + old(buf)@.len() / 512
                ==> final(buf)@.subrange((sec - lba) * 512, (sec - lba) * 512 + 512)
                == #[trigger] sector_data(old(self).blocks@, sec)->0,
            r ==> final(buf)@.skip((old(buf)@.len() / 512 * 512) as int) == old(buf)@.skip((old(buf)@.len() / 512 * 512) as int),
    {
        let n_sectors = buf.len() / ZRAM_SECTOR_SIZE;
        let ghost m = self.blocks@;
        let ghost len = buf@.len();
        let mut s: usize = 0;
        while s < n_sectors
            invariant
                s <= n_sectors,
                n_sectors == len / 512,
                buf@.len() == len,
                len == old(buf)@.len(),
                len <= usize::MAX,
                lba + n_sectors <= u64::MAX,
                m == self.blocks@,
                self.wf(),
                forall|sec: u64| lba <= sec < lba + s ==> #[trigger] sector_data(m, sec) is Some,
                forall|sec: u64| lba <= sec < lba + s ==> buf@.subrange((sec - lba) * 512, (sec - lba) * 512 + 512)
                    == #[trigger] sector_data(m, sec)->0,
                buf@.skip((s * 512) as int) == old(buf)@.skip((s * 512) as int),
            decreases n_sectors - s,
        {
            let sector: u64 = lba + s as u64;
            let block = sector / 8;
            let s_off: usize = (sector % 8) as usize * ZRAM_SECTOR_SIZE;
            assert(s * 512 + 512 <= len) by (nonlinear_arith)
                requires
                    s < n_sectors,
                    n_sectors == len / 512,
            ;
            let b_off: usize = s * ZRAM_SECTOR_SIZE;
            let ghost before = buf@;
            match self.blocks.get(&block) {
                Some(compressed) => {
                    let mut page = [0u8; 4096];
                    if !lz4_decompress(compressed.as_slice(), &mut page) {
                        return false;
                    }
                    copy_into(buf, b_off, &page, s_off, ZRAM_SECTOR_SIZE);
                    assert(page@.subrange(s_off as int, s_off + 512) == sector_data(m, sector)->0);
                },
                None => {
                    fill_zero(buf, b_off, ZRAM_SECTOR_SIZE);
                    assert(buf@.subrange(b_off as int, b_off + 512) =~= sector_data(m, sector)->0);
                },
            }
            proof {
                assert forall|sec: u64| lba <= sec < lba + s + 1 implies buf@.subrange((sec - lba) * 512, (sec - lba) * 512 + 512)
                    == #[trigger] sector_data(m, sec)->0 by {
                    if sec < lba + s {
                        assert(buf@.subrange((sec - lba) * 512, (sec - lba) * 512 + 512)
                            =~= before.subrange((sec - lba) * 512, (sec - lba) * 512 + 512));
                    } else {
                        assert(sec == sector);
                    }
                }
                assert(buf@.skip((s + 1) * 512) =~= before.skip((s + 1) * 512));
                assert(before.skip((s + 1) * 512) =~= old(buf)@.skip(s * 512).skip(512));
                assert(old(buf)@.skip((s + 1) * 512) =~= old(buf)@.skip(s * 512).skip(512));
            }
            s = s + 1;
        }
        true
    }
}

/// Block contents after sectors `first..first + cf` of it were replaced
/// by `cf * 512` bytes of `buf` from `bs`, sector by sector.
proof fn lemma_block_write(oldp: Seq<u8>, newp: Seq<u8>, buf: Seq<u8>, first: int, cf: int, bs: int)
    requires
        oldp.len() == 4096,
        newp.len() == 4096,
        0 <= first,
        0 <= cf,
        first + cf <= 8,
        0 <= bs,
        bs + cf * 512 <= buf.len(),
        newp.subrange(first * 512, (first + cf) * 512) == buf.subrange(bs, bs + cf * 512),
        forall|i: int| 0 <= i < 4096 && !(first * 512 <= i < (first + cf) * 512) ==> #[trigger] newp[i] == oldp[i],
    ensures
        forall|x: int| 0 <= x < 8 ==> #[trigger] newp.subrange(x * 512, x * 512 + 512) == if first <= x < first + cf {
            buf.subrange(bs + (x - first) * 512, bs + (x - first) * 512 + 512)
        } else {
            oldp.subrange(x * 512, x * 512 + 512)
        },
{
    assert forall|x: int| 0 <= x < 8 implies #[trigger] newp.subrange(x * 512, x * 512 + 512) == if first <= x < first + cf {
        buf.subrange(bs + (x - first) * 512, bs + (x - first) * 512 + 512)
    } else {
        oldp.subrange(x * 512, x * 512 + 512)
    } by {
        if first <= x < first + cf {
            assert forall|j: int| 0 <= j < 512 implies #[trigger] newp.subrange(x * 512, x * 512 + 512)[j]
                == buf.subrange(bs + (x - first) * 512, bs + (x - first) * 512 + 512)[j] by {
                let i = (x - first) * 512 + j;
                assert((x - first) * 512 + 512 <= cf * 512) by (nonlinear_arith)
                    requires
                        x - first < cf,
                        x - first >= 0,
                ;
                assert(newp.subrange(x * 512, x * 512 + 512)[j] == newp[x * 512 + j]);
                assert(newp[first * 512 + i] == newp[x * 512 + j]);
                assert(newp.subrange(first * 512, (first + cf) * 512)[i] == newp[first * 512 + i]);
                assert(buf.subrange(bs, bs + cf * 512)[i] == buf[bs + i]);
                assert(buf.subrange(bs + (x - first) * 512, bs + (x - first) * 512 + 512)[j] == buf[bs + i]);
                assert(newp.subrange(first * 512, (first + cf) * 512)[i] == buf.subrange(bs, bs + cf * 512)[i]);
            }
            assert(newp.subrange(x * 512, x * 512 + 512) =~= buf.subrange(bs + (x - first) * 512, bs + (x - first) * 512 + 512));
        } else {
            assert forall|j: int| 0 <= j < 512 implies #[trigger] newp.subrange(x * 512, x * 512 + 512)[j]
                == oldp.subrange(x * 512, x * 512 + 512)[j] by {
                assert(newp[x * 512 + j] == oldp[x * 512 + j]);
            }
            assert(newp.subrange(x * 512, x * 512 + 512) =~= oldp.subrange(x * 512, x * 512 + 512));
        }
    }
}

impl ZramDevice {
    /// Writes whole sectors of `buf` from `lba` on, block by block
    /// (read, patch, compress); `false` when a block it patches holds data
    /// that does not decode.
    #[verifier::rlimit(40)]
    pub fn write_sectors(&mut self, lba: u64, buf: &[u8]) -> (r: bool)
        requires
            old(self).wf(),
            lba + buf@.len() / 512 <= u64::MAX,
        ensures
            final(self).wf(),
            final(self).total_sectors == old(self).total_sectors,
            r == forall|sec: u64| lba <= sec < lba + buf@.len() / 512
                ==> #[trigger] sector_data(old(self).blocks@, sec) is Some,
            r ==> forall|sec: u64| #[trigger] sector_data(final(self).blocks@, sec)
                == sector_after_write(old(self).blocks@, lba, buf@, sec),
    {
        let n_sectors = buf.len() / ZRAM_SECTOR_SIZE;
        let ghost len = buf@.len();
        let ghost m0 = self.blocks@;
        let mut s: usize = 0;
        while s < n_sectors
            invariant
                s <= n_sectors,
                n_sectors == len / 512,
                len == buf@.len(),
                len <= usize::MAX,
                lba + n_sectors <= u64::MAX,
                m0 == old(self).blocks@,
                self.wf(),
                self.total_sectors == old(self).total_sectors,
                s == 0 || s == n_sectors || (lba + s) % 8 == 0,
                s == 0 ==> self.blocks@ == m0,
                forall|b: u64| b * 8 >= lba + s ==> #[trigger] self.blocks@.contains_key(b) == m0.contains_key(b),
                forall|b: u64| b * 8 >= lba + s && #[trigger] self.blocks@.contains_key(b) ==> self.blocks@[b] == m0[b],
                forall|sec: u64| lba <= sec < lba + s ==> #[trigger] sector_data(m0, sec) is Some,
                forall|sec: u64| #[trigger] sector_data(self.blocks@, sec) == if lba <= sec < lba + s {
                    Some(buf@.subrange((sec - lba) * 512, (sec - lba) * 512 + 512))
                } else {
                    sector_data(m0, sec)
                },
            decreases n_sectors - s,
        {
            let sector: u64 = lba + s as u64;
            let block = sector / 8;
            let mut page = [0u8; 4096];
            let ghost cur = self.blocks@;
            assert(page@ =~= Seq::new(4096, |i: int| 0u8));
            match self.blocks.get(&block) {
                Some(existing) => {
                    if !lz4_decompress(existing.as_slice(), &mut page) {
                        assert(block * 8 >= lba + s || s == 0);
                        assert(sector_data(m0, sector) is None);
                        return false;
                    }
                },
                None => {},
            }
            assert(block * 8 >= lba + s || s == 0);
            assert(page@ == block_page(m0, block)->0);
            assert(s < n_sectors);
            assert(sector_data(m0, sector) is Some);
            let first: usize = (sector - block * 8) as usize;
            let room: usize = 8 - first;
            let left: usize = n_sectors - s;
            let can_fill: usize = if room < left { room } else { left };
            assert(s * 512 + can_fill * 512 <= len) by (nonlinear_arith)
                requires
                    s + can_fill <= n_sectors,
                    n_sectors == len / 512,
            ;
            let ghost oldp = page@;
            copy_into(&mut page, first * ZRAM_SECTOR_SIZE, buf, s * ZRAM_SECTOR_SIZE, can_fill * ZRAM_SECTOR_SIZE);
            proof {
                lemma_block_write(oldp, page@, buf@, first as int, can_fill as int, s * 512);
            }
            let mut comp: Vec<u8> = Vec::new();
            let mut k: usize = 0;
            while k < 4096 + 64
                invariant
                    k <= 4096 + 64,
                    comp@.len() == k,
                decreases 4096 + 64 - k,
            {
                comp.push(0u8);
                k = k + 1;
            }
            match lz4_compress(&page, comp.as_mut_slice()) {
                Some(comp_len) => {
                    let old_size: usize = match self.blocks.get(&block) {
                        Some(b) => b.len(),
                        None => 0,
                    };
                    comp.truncate(comp_len);
                    assert(comp@ =~= spec_lz4_encode(page@));
                    self.orig_bytes = self.orig_bytes.wrapping_add(4096);
                    self.comp_bytes = self.comp_bytes.wrapping_add(comp_len as u64);
                    self.comp_bytes = self.comp_bytes.wrapping_sub(old_size as u64);
                    self.blocks.insert(block, comp);
                },
                None => {
                    self.blocks.insert(block, vstd::slice::slice_to_vec(&page));
                    self.orig_bytes = self.orig_bytes.wrapping_add(4096);
                    self.comp_bytes = self.comp_bytes.wrapping_add(4096);
                },
            }
            proof {
                assert(block_page(self.blocks@, block) == Some(page@));
                assert forall|sec: u64| lba <= sec < lba + s + can_fill implies #[trigger] sector_data(m0, sec) is Some by {
                    if sec >= lba + s {
                        assert(sec / 8 == block);
                    }
                }
                assert forall|sec: u64| #[trigger] sector_data(self.blocks@, sec) == if lba <= sec < lba + s + can_fill {
                    Some(buf@.subrange((sec - lba) * 512, (sec - lba) * 512 + 512))
                } else {
                    sector_data(m0, sec)
                } by {
                    if sec / 8 == block {
                        let x = (sec % 8) as int;
                        assert(page@.subrange(x * 512, x * 512 + 512) == if first <= x < first + can_fill {
                            buf@.subrange(s * 512 + (x - first) * 512, s * 512 + (x - first) * 512 + 512)
                        } else {
                            oldp.subrange(x * 512, x * 512 + 512)
                        });
                    } else {
                        assert(sector_data(self.blocks@, sec) == sector_data(cur, sec));
                    }
                }
            }
            s = s + can_fill;
        }
        true
    }
}

/// Copies `n` bytes of `src` from `soff` into `dst` at `doff`.
fn copy_into(dst: &mut [u8], doff: usize, src: &[u8], soff: usize, n: usize)
    requires
        doff + n <= old(dst)@.len(),
        soff + n <= src@.len(),
    ensures
        final(dst)@.len() == old(dst)@.len(),
        final(dst)@.subrange(doff as int, doff + n) == src@.subrange(soff as int, soff + n),
        forall|i: int| 0 <= i < old(dst)@.len() && !(doff <= i < doff + n) ==> #[trigger] final(dst)@[i] == old(dst)@[i],
{
    let dl = dst.len();
    let sl = src.len();
    let mut k: usize = 0;
    while k < n
        invariant
            k <= n,
            dl == dst@.len(),
            sl == src@.len(),
            doff + n <= dst@.len(),
            soff + n <= src@.len(),
            dst@.len() == old(dst)@.len(),
            forall|i: int| 0 <= i < k ==> #[trigger] dst@[doff + i] == src@[soff + i],
            forall|i: int| 0 <= i < old(dst)@.len() && !(doff <= i < doff + k) ==> #[trigger] dst@[i] == old(dst)@[i],
        decreases n - k,
    {
        dst[doff + k] = src[soff + k];
        k = k + 1;
    }
    assert(dst@.subrange(doff as int, doff + n) =~= src@.subrange(soff as int, soff + n)) by {
        assert forall|i: int| 0 <= i < n implies #[trigger] dst@.subrange(doff as int, doff + n)[i] == src@.subrange(soff as int, soff + n)[i] by {
            assert(dst@[doff + i] == src@[soff + i]);
        }
    }
}

/// Zeroes `n` bytes of `dst` from `off`.
fn fill_zero(dst: &mut [u8], off: usize, n: usize)
    requires
        off + n <= old(dst)@.len(),
    ensures
        final(dst)@.len() == old(dst)@.len(),
        forall|i: int| off <= i < off + n ==> #[trigger] final(dst)@[i] == 0u8,
        forall|i: int| 0 <= i < old(dst)@.len() && !(off <= i < off + n) ==> #[trigger] final(dst)@[i] == old(dst)@[i],
{
    let dl = dst.len();
    let mut k: usize = off;
    while k < off + n
        invariant
            dl == dst@.len(),
            off <= k <= off + n,
            off + n <= dst@.len(),
            dst@.len() == old(dst)@.len(),
            forall|i: int| off <= i < k ==> #[trigger] dst@[i] == 0u8,
            forall|i: int| 0 <= i < old(dst)@.len() && !(off <= i < k) ==> #[trigger] dst@[i] == old(dst)@[i],
        decreases off + n - k,
    {
        dst[k] = 0u8;
        k = k + 1;
    }
}


/// Creates the zram device with `size_mb` megabytes of sectors.
pub fn zram_init(z: &mut Option<ZramDevice>, size_mb: u64)
    requires
        size_mb <= u64::MAX / 1048576,
    ensures
        *final(z) matches Some(d) && d.wf() && d.blocks@ == Map::<u64, Vec<u8>>::empty()
            && d.total_sectors == size_mb * 2048,
{
    *z = Some(ZramDevice::new(size_mb));
}

/// Reads sectors from the zram device; `false` when there is none.
pub fn zram_read(z: &mut Option<ZramDevice>, lba: u64, buf: &mut [u8]) -> (r: bool)
    requires
        *old(z) matches Some(d) ==> d.wf(),
        lba + old(buf)@.len() / 512 <= u64::MAX,
    ensures
        *final(z) == *old(z),
        final(buf)@.len() == old(buf)@.len(),
        *old(z) is None ==> !r,
        *old(z) matches Some(d) ==> {
            &&& r == forall|sec: u64| lba <= sec < lba + old(buf)@.len() / 512
                ==> #[trigger] sector_data(d.blocks@, sec) is Some
            &&& r ==> forall|sec: u64| lba <= sec < lba + old(buf)@.len() / 512
                ==> final(buf)@.subrange((sec - lba) * 512, (sec - lba) * 512 + 512)
                == #[trigger] sector_data(d.blocks@, sec)->0
        },
{
    match z.as_mut() {
        Some(d) => d.read_sectors(lba, buf),
        None => false,
    }
}

/// Writes sectors to the zram device; `false` when there is none.
pub fn zram_write(z: &mut Option<ZramDevice>, lba: u64, buf: &[u8]) -> (r: bool)
    requires
        *old(z) matches Some(d) ==> d.wf(),
        lba + buf@.len() / 512 <= u64::MAX,
    ensures
        *old(z) is None ==> !r && *final(z) is None,
        *old(z) matches Some(d) ==> *final(z) matches Some(e) && e.wf() && e.total_sectors == d.total_sectors && {
            &&& r == forall|sec: u64| lba <= sec < lba + buf@.len() / 512
                ==> #[trigger] sector_data(d.blocks@, sec) is Some
            &&& r ==> forall|sec: u64| #[trigger] sector_data(e.blocks@, sec)
                == sector_after_write(d.blocks@, lba, buf@, sec)
        },
{
    match z.as_mut() {
        Some(d) => d.write_sectors(lba, buf),
        None => false,
    }
}

/// The device's size in sectors, 0 when there is none.
pub fn zram_sectors(z: &Option<ZramDevice>) -> (r: u64)
    ensures
        r == match z {
            Some(d) => d.total_sectors,
            None => 0,
        },
{
    match z {
        Some(d) => d.total_sectors,
        None => 0,
    }
}

/// The default device for a machine of `total_frames` frames: 512 MB from
/// 2 GB of memory on, 128 MB from 512 MB on, none below.
pub open spec fn zram_default_mb(total_frames: int) -> Option<u64> {
    let total_mb = total_frames * 4096 / 1048576;
    if total_mb >= 2048 {
        Some(512)
    } else if total_mb >= 512 {
        Some(128)
    } else {
        None
    }
}

pub fn zram_init_default(z: &mut Option<ZramDevice>, total_frames: usize)
    requires
        total_frames <= usize::MAX / 4096,
    ensures
        zram_default_mb(total_frames as int) matches Some(mb) ==> *final(z) matches Some(d)
            && d.blocks@ == Map::<u64, Vec<u8>>::empty() && d.total_sectors == mb * 2048 && d.wf(),
        zram_default_mb(total_frames as int) is None ==> *final(z) == *old(z),
{
    let total_mb = total_frames * 4096 / 1048576;
    if total_mb >= 2048 {
        zram_init(z, 512);
    } else if total_mb >= 512 {
        zram_init(z, 128);
    }
}

/// What a read gives back of a write: after a successful write of `data`
/// at `lba`, each written sector holds its part of `data`, and every other
/// sector holds what it held before.
pub proof fn law_zram_read_after_write(before: Map<u64, Vec<u8>>, after: Map<u64, Vec<u8>>, lba: u64, data: Seq<u8>, sec: u64)
    requires
        forall|s: u64| #[trigger] sector_data(after, s) == sector_after_write(before, lba, data, s),
    ensures
        lba <= sec < lba + data.len() / 512 ==> sector_data(after, sec)
            == Some(data.subrange((sec - lba) * 512, (sec - lba) * 512 + 512)),
        !(lba <= sec < lba + data.len() / 512) ==> sector_data(after, sec) == sector_data(before, sec),
{
    assert(sector_data(after, sec) == sector_after_write(before, lba, data, sec));
}

/// Compression then decompression gives back the input, for every input:
/// the block `lz4_compress` writes is `spec_lz4_encode(src)`, and that
/// block decodes to `src` at its length.
pub proof fn law_lz4_roundtrip(src: Seq<u8>)
    ensures
        lz4_decode(spec_lz4_encode(src), src.len() as int) == Some(src),
{
    crate::memory::lz4::lemma_encode_decodes(src);
}

} // verus!
