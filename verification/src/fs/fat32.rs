//! FAT32 images held in memory: the boot parameter block, 8.3 names, and
//! cluster chains in the allocation table.
use vstd::prelude::*;
use crate::bytes::{read_u16_le, read_u32_le, spec_u16_le, spec_u32_le};
use crate::fs::journal::{write_range, le32, zeros};
use vstd::string::StringSliceAdditionalSpecFns;

verus! {

pub const FAT_EOC: u32 = 0x0FFF_FFF8;
pub const FAT_FREE: u32 = 0;
pub const FAT_MASK: u32 = 0x0FFF_FFFF;

/// An image and the geometry its boot parameter block gives.
pub struct Fat32Image {
    pub disk: Vec<u8>,
    pub bps: u32,
    pub spc: u32,
    pub reserved: u32,
    pub num_fats: u32,
    pub fat_size: u32,
    pub root_clus: u32,
    pub data_start: u32,
}

/// The boot parameter block can be read: the image holds its 512 bytes,
/// and the data area's first sector fits in 32 bits.
pub open spec fn bpb_ok(d: Seq<u8>) -> bool {
    d.len() >= 512 && spec_u16_le(d, 14) + d[16] * spec_u32_le(d, 36) <= u32::MAX
}

/// Reads the boot parameter block of `data`: bytes per sector, sectors
/// per cluster, reserved sectors, FAT count and size, the root directory's
/// cluster, and the first sector of the data area after the FATs.
pub fn fat32_open(data: Vec<u8>) -> (r: Option<Fat32Image>)
    ensures
        r is Some <==> bpb_ok(data@),
        r matches Some(f) ==> {
            &&& f.disk@ == data@
            &&& f.bps == spec_u16_le(data@, 11) && f.spc == data@[13] && f.reserved == spec_u16_le(data@, 14)
            &&& f.num_fats == data@[16] && f.fat_size == spec_u32_le(data@, 36)
            &&& f.root_clus == spec_u32_le(data@, 44)
            &&& f.data_start == f.reserved + f.num_fats * f.fat_size
        },
{
    if data.len() < 512 {
        return None;
    }
    let bps = read_u16_le(data.as_slice(), 11) as u32;
    let spc = data[13] as u32;
    let reserved = read_u16_le(data.as_slice(), 14) as u32;
    let num_fats = data[16] as u32;
    let fat_size = read_u32_le(data.as_slice(), 36);
    let root_clus = read_u32_le(data.as_slice(), 44);
    assert(num_fats as u64 * fat_size as u64 <= 255 * 0xFFFF_FFFF) by (nonlinear_arith)
        requires num_fats <= 255, fat_size <= 0xFFFF_FFFF;
    let fats: u64 = num_fats as u64 * fat_size as u64;
    assert(fats == num_fats * fat_size);
    if fats > (u32::MAX - reserved) as u64 {
        return None;
    }
    let data_start = reserved + fats as u32;
    Some(Fat32Image { disk: data, bps, spc, reserved, num_fats, fat_size, root_clus, data_start })
}

// ── 8.3 names ───────────────────────────────────────────────────────────

pub open spec fn upper(b: u8) -> u8 {
    if 97 <= b <= 122 { (b - 32) as u8 } else { b }
}

pub open spec fn lower(b: u8) -> u8 {
    if 65 <= b <= 90 { (b + 32) as u8 } else { b }
}

/// The last index below `n` of a `.` in `s`, or -1.
pub open spec fn last_dot(s: Seq<u8>, n: int) -> int
    decreases n,
{
    if n <= 0 { -1 } else if s[n - 1] == 46 { n - 1 } else { last_dot(s, n - 1) }
}

/// `s` upper-cased, cut to `k` bytes and padded with spaces to `k`.
pub open spec fn field(s: Seq<u8>, k: int) -> Seq<u8> {
    Seq::new(k as nat, |i: int| if i < s.len() { upper(s[i]) } else { 32u8 })
}

/// The 8.3 form of the name `s`: the part before its last dot in the
/// first 8 bytes and the part after it in the last 3, upper-cased and
/// space-padded (no dot: all of it is the base).
pub open spec fn name83(s: Seq<u8>) -> Seq<u8> {
    let d = last_dot(s, s.len() as int);
    if d < 0 { field(s, 8) + field(Seq::empty(), 3) } else { field(s.take(d), 8) + field(s.skip(d + 1), 3) }
}

/// The length of `s[..k]` without its trailing spaces.
pub open spec fn trimmed(s: Seq<u8>, k: int) -> int
    decreases k,
{
    if k <= 0 { 0 } else if s[k - 1] != 32 { k } else { trimmed(s, k - 1) }
}

/// The name an 8.3 entry stands for: its base without trailing spaces,
/// then a dot and the extension when there is one, lower-cased.
pub open spec fn unname83(raw: Seq<u8>) -> Seq<u8> {
    let n = trimmed(raw, 8);
    let e = trimmed(raw.skip(8), 3);
    let base = raw.take(n).map_values(|b: u8| lower(b));
    if e > 0 { base + seq![46u8] + raw.skip(8).take(e).map_values(|b: u8| lower(b)) } else { base }
}

fn upper_byte(b: u8) -> (r: u8)
    ensures
        r == upper(b),
{
    if b >= 97 && b <= 122 { b - 32 } else { b }
}

fn lower_byte(b: u8) -> (r: u8)
    ensures
        r == lower(b),
{
    if b >= 65 && b <= 90 { b + 32 } else { b }
}

/// The 8.3 directory-entry form of `name`.
pub fn encode_83(name: &str) -> (r: [u8; 11])
    ensures
        r@ == name83(name.spec_bytes()),
{
    let s = name.as_bytes();
    let n = s.len();
    let mut d: usize = n;
    let mut found = false;
    while d > 0 && !found
        invariant
            d <= n,
            n == s@.len(),
            found ==> d < n && s@[d as int] == 46 && last_dot(s@, n as int) == d,
            !found ==> last_dot(s@, n as int) == last_dot(s@, d as int),
        decreases d + if found { 0int } else { 1int },
    {
        if s[d - 1] == 46 {
            d = d - 1;
            found = true;
        } else {
            d = d - 1;
        }
    }
    let (base_end, ext_start) = if found { (d, d + 1) } else { (n, n) };
    assert(!found ==> last_dot(s@, n as int) == -1);
    let mut out: [u8; 11] = [32u8; 11];
    let mut i: usize = 0;
    while i < 8
        invariant
            i <= 8,
            base_end <= n && ext_start <= n,
            n == s@.len(),
            found ==> base_end == d && ext_start == d + 1 && last_dot(s@, n as int) == d,
            !found ==> base_end == n && ext_start == n && last_dot(s@, n as int) == -1,
            out@.len() == 11,
            forall|k: int| 0 <= k < i ==> #[trigger] out@[k] == if k < base_end { upper(s@[k]) } else { 32u8 },
            forall|k: int| i <= k < 11 ==> #[trigger] out@[k] == 32u8,
        decreases 8 - i,
    {
        if i < base_end {
            out[i] = upper_byte(s[i]);
        }
        i = i + 1;
    }
    let mut j: usize = 0;
    while j < 3
        invariant
            j <= 3,
            base_end <= n && ext_start <= n,
            n == s@.len(),
            found ==> base_end == d && ext_start == d + 1 && last_dot(s@, n as int) == d,
            !found ==> base_end == n && ext_start == n && last_dot(s@, n as int) == -1,
            out@.len() == 11,
            forall|k: int| 0 <= k < 8 ==> #[trigger] out@[k] == if k < base_end { upper(s@[k]) } else { 32u8 },
            forall|k: int| 0 <= k < j ==> #[trigger] out@[8 + k] == if k < n - ext_start { upper(s@[ext_start + k]) } else { 32u8 },
            forall|k: int| 8 + j <= k < 11 ==> #[trigger] out@[k] == 32u8,
        decreases 3 - j,
    {
        if j < n - ext_start {
            out[8 + j] = upper_byte(s[ext_start + j]);
        }
        j = j + 1;
    }
    proof {
        let sv = s@;
        assert forall|k: int| 8 <= k < 11 implies out@[k] == if k - 8 < n - ext_start { upper(sv[ext_start + k - 8]) } else { 32u8 } by {
            assert(out@[8 + (k - 8)] == out@[k]);
        }
        if found {
            assert(out@ =~= field(sv.take(d as int), 8) + field(sv.skip(d + 1), 3));
        } else {
            assert(last_dot(sv, 0) == -1);
            assert(out@ =~= field(sv, 8) + field(Seq::<u8>::empty(), 3));
        }
    }
    out
}

/// The name an 8.3 entry stands for, as bytes (see `unname83`).
pub fn decode_83(raw: [u8; 11]) -> (r: Vec<u8>)
    ensures
        r@ == unname83(raw@),
{
    let mut n: usize = 8;
    while n > 0 && raw[n - 1] == 32
        invariant
            n <= 8,
            raw@.len() == 11,
            trimmed(raw@, 8) == trimmed(raw@, n as int),
        decreases n,
    {
        n = n - 1;
    }
    let ghost x = raw@.skip(8);
    let mut e: usize = 3;
    while e > 0 && raw[8 + e - 1] == 32
        invariant
            e <= 3,
            raw@.len() == 11,
            x == raw@.skip(8),
            trimmed(x, 3) == trimmed(x, e as int),
        decreases e,
    {
        e = e - 1;
    }
    let mut out: Vec<u8> = Vec::new();
    let mut i: usize = 0;
    while i < n
        invariant
            i <= n <= 8,
            raw@.len() == 11,
            out@ == raw@.take(i as int).map_values(|b: u8| lower(b)),
        decreases n - i,
    {
        out.push(lower_byte(raw[i]));
        assert(out@ =~= raw@.take(i + 1).map_values(|b: u8| lower(b)));
        i = i + 1;
    }
    if e > 0 {
        let ghost base = out@;
        out.push(46u8);
        let mut k: usize = 0;
        while k < e
            invariant
                k <= e <= 3,
                raw@.len() == 11,
                x == raw@.skip(8),
                out@ == base + seq![46u8] + x.take(k as int).map_values(|b: u8| lower(b)),
            decreases e - k,
        {
            out.push(lower_byte(raw[8 + k]));
            assert(out@ =~= base + seq![46u8] + x.take(k + 1).map_values(|b: u8| lower(b)));
            k = k + 1;
        }
    }
    out
}

// ── The allocation table ───────────────────────────────────────────────

/// Byte offset of the entry of cluster `c` in FAT copy `k`.
pub open spec fn fat_copy_off(f: Fat32Image, k: int, c: u32) -> int {
    (f.reserved + k * f.fat_size) * f.bps + c * 4
}

/// The entry of cluster `c` in the first FAT of the bytes `d`; past the
/// end of the image it reads as end of chain.
pub open spec fn fat_entry(d: Seq<u8>, f: Fat32Image, c: u32) -> u32 {
    let o = fat_copy_off(f, 0, c);
    if o + 4 > d.len() { FAT_EOC } else { spec_u32_le(d, o) & FAT_MASK }
}

/// `d` with the four bytes of `val` at `o`, where they fit.
pub open spec fn put4(d: Seq<u8>, o: int, val: u32) -> Seq<u8> {
    if o + 4 <= d.len() { write_range(d, o, le32(val)) } else { d }
}

/// `d` with entry `c` of the first `n` FAT copies set to `val`.
pub open spec fn set_copies(d: Seq<u8>, f: Fat32Image, c: u32, val: u32, n: nat) -> Seq<u8>
    decreases n,
{
    if n == 0 { d } else { put4(set_copies(d, f, c, val, (n - 1) as nat), fat_copy_off(f, n - 1, c), val) }
}

/// The FAT copies' offsets fit in 32 bits, as do the table's bytes.
pub open spec fn fat_sane(f: Fat32Image) -> bool {
    &&& f.reserved * f.bps <= u32::MAX
    &&& f.num_fats == 0 || (f.reserved + (f.num_fats - 1) * f.fat_size <= u32::MAX
        && (f.reserved + (f.num_fats - 1) * f.fat_size) * f.bps <= u32::MAX)
    &&& f.fat_size * f.bps <= u32::MAX
    &&& f.spc * f.bps <= u32::MAX
}

/// The data area's offsets of the clusters the table has entries for fit
/// in 32 bits.
pub open spec fn data_sane(f: Fat32Image) -> bool {
    fat_clusters(f) < 3 || (f.data_start + (fat_clusters(f) - 3) * f.spc <= u32::MAX
        && (f.data_start + (fat_clusters(f) - 3) * f.spc) * f.bps <= u32::MAX)
}

/// The clusters the first FAT has entries for, from 2.
pub open spec fn fat_clusters(f: Fat32Image) -> int {
    (f.fat_size * f.bps / 4) as int
}

/// Byte offset of cluster `c` in the data area.
pub open spec fn cluster_off(f: Fat32Image, c: u32) -> int {
    (f.data_start + (c - 2) * f.spc) * f.bps
}

/// `d` with cluster `c` zero-filled, where it lies within `d`.
pub open spec fn zero_cluster(d: Seq<u8>, f: Fat32Image, c: u32) -> Seq<u8> {
    let o = cluster_off(f, c);
    let n = f.spc * f.bps;
    if o + n <= d.len() { write_range(d, o, zeros(n as nat)) } else { d }
}

/// The first free cluster from `c` below `total`, or -1.
pub open spec fn first_free(d: Seq<u8>, f: Fat32Image, c: int, total: int) -> int
    decreases total - c,
{
    if c < 2 || c >= total || c > u32::MAX { -1 } else if fat_entry(d, f, c as u32) == FAT_FREE { c } else { first_free(d, f, c + 1, total) }
}

impl Fat32Image {
    /// The entry of cluster `c` in the first FAT, without its top four bits.
    pub fn fat_get(&self, c: u32) -> (r: u32)
        requires
            fat_sane(*self),
        ensures
            r == fat_entry(self.disk@, *self, c),
    {
        let off: u64 = self.reserved as u64 * self.bps as u64 + c as u64 * 4;
        assert(off == fat_copy_off(*self, 0, c));
        if off > self.disk.len() as u64 || self.disk.len() as u64 - off < 4 {
            return FAT_EOC;
        }
        read_u32_le(self.disk.as_slice(), off as usize) & FAT_MASK
    }

    /// Sets the entry of cluster `c` to `val` in every FAT copy, where it
    /// lies within the image.
    pub fn fat_set(&mut self, c: u32, val: u32)
        requires
            fat_sane(*old(self)),
        ensures
            final(self).disk@ == set_copies(old(self).disk@, *old(self), c, val, old(self).num_fats as nat),
            final(self).bps == old(self).bps && final(self).spc == old(self).spc
                && final(self).reserved == old(self).reserved && final(self).num_fats == old(self).num_fats
                && final(self).fat_size == old(self).fat_size && final(self).root_clus == old(self).root_clus
                && final(self).data_start == old(self).data_start,
    {
        let ghost f = *old(self);
        let mut k: u32 = 0;
        while k < self.num_fats
            invariant
                k <= self.num_fats,
                fat_sane(f),
                self.bps == f.bps && self.spc == f.spc && self.reserved == f.reserved && self.num_fats == f.num_fats
                    && self.fat_size == f.fat_size && self.root_clus == f.root_clus && self.data_start == f.data_start,
                self.disk@ == set_copies(f.disk@, f, c, val, k as nat),
            decreases self.num_fats - k,
        {
            proof {
                assert(k * f.fat_size <= (f.num_fats - 1) * f.fat_size) by (nonlinear_arith)
                    requires k <= f.num_fats - 1, f.fat_size >= 0;
                assert((f.reserved + k * f.fat_size) * f.bps <= (f.reserved + (f.num_fats - 1) * f.fat_size) * f.bps)
                    by (nonlinear_arith)
                    requires k * f.fat_size <= (f.num_fats - 1) * f.fat_size, f.bps >= 0, f.reserved >= 0;
            }
            let start: u64 = ((self.reserved + k * self.fat_size) * self.bps) as u64;
            let off: u64 = start + c as u64 * 4;
            assert(off == fat_copy_off(f, k as int, c));
            if off <= self.disk.len() as u64 && self.disk.len() as u64 - off >= 4 {
                let o: usize = off as usize;
                let ghost before = self.disk@;
                self.disk.set(o, val as u8);
                self.disk.set(o + 1, (val >> 8u32) as u8);
                self.disk.set(o + 2, (val >> 16u32) as u8);
                self.disk.set(o + 3, (val >> 24u32) as u8);
                assert(self.disk@ =~= write_range(before, o as int, le32(val)));
            }
            k = k + 1;
        }
    }

    /// Takes the first free cluster below the table's end: marks it end
    /// of chain in every FAT copy and zero-fills it; `None` when every
    /// cluster is in use.
    pub fn alloc_cluster(&mut self) -> (r: Option<u32>)
        requires
            fat_sane(*old(self)),
            data_sane(*old(self)),
        ensures
            ({
                let f = *old(self);
                let c = first_free(f.disk@, f, 2, fat_clusters(f));
                &&& c < 0 ==> r is None && final(self).disk@ == f.disk@
                &&& c >= 0 ==> r == Some(c as u32)
                    && final(self).disk@ == zero_cluster(set_copies(f.disk@, f, c as u32, FAT_EOC, f.num_fats as nat), f, c as u32)
            }),
            final(self).bps == old(self).bps && final(self).spc == old(self).spc
                && final(self).reserved == old(self).reserved && final(self).num_fats == old(self).num_fats
                && final(self).fat_size == old(self).fat_size && final(self).root_clus == old(self).root_clus
                && final(self).data_start == old(self).data_start,
    {
        let ghost f = *old(self);
        let total: u32 = self.fat_size * self.bps / 4;
        let mut c: u32 = 2;
        while c < total
            invariant
                *self == f,
                f == *old(self),
                fat_sane(f),
                data_sane(f),
                total == fat_clusters(f),
                2 <= c,
                first_free(f.disk@, f, 2, total as int) == first_free(f.disk@, f, c as int, total as int),
            decreases total - c,
        {
            if self.fat_get(c) == FAT_FREE {
                self.fat_set(c, FAT_EOC);
                proof {
                    assert((c - 2) * f.spc <= (total - 3) * f.spc) by (nonlinear_arith)
                        requires c - 2 <= total - 3, f.spc >= 0;
                    assert((f.data_start + (c - 2) * f.spc) * f.bps <= (f.data_start + (total - 3) * f.spc) * f.bps)
                        by (nonlinear_arith)
                        requires (c - 2) * f.spc <= (total - 3) * f.spc, f.bps >= 0, f.data_start >= 0;
                }
                let off: u64 = ((self.data_start + (c - 2) * self.spc) * self.bps) as u64;
                let n: u64 = (self.spc * self.bps) as u64;
                let dl: usize = self.disk.len();
                if off <= dl as u64 && dl as u64 - off >= n {
                    let ghost before = self.disk@;
                    let ghost g = *self;
                    let mut i: u64 = 0;
                    while i < n
                        invariant
                            i <= n,
                            self.bps == g.bps && self.spc == g.spc && self.reserved == g.reserved
                                && self.num_fats == g.num_fats && self.fat_size == g.fat_size
                                && self.root_clus == g.root_clus && self.data_start == g.data_start,
                            off + n <= self.disk@.len(),
                            self.disk@.len() <= usize::MAX,
                            self.disk@.len() == before.len(),
                            forall|j: int| 0 <= j < off || off + n <= j < before.len() ==> self.disk@[j] == before[j],
                            forall|j: int| off <= j < off + i ==> self.disk@[j] == 0u8,
                        decreases n - i,
                    {
                        self.disk.set((off + i) as usize, 0u8);
                        i = i + 1;
                    }
                    assert(self.disk@ =~= write_range(before, off as int, zeros(n as nat)));
                }
                return Some(c);
            }
            c = c + 1;
        }
        None
    }

    /// The clusters of the chain from `start`: each cluster from 2 below
    /// the end-of-chain mark, following the first FAT.
    pub fn chain(&self, start: u32) -> (r: Vec<u32>)
        requires
            fat_sane(*self),
        ensures
            r@ == chain_from(self.disk@, *self, start, chain_fuel(self.disk@)),
    {
        let mut out: Vec<u32> = Vec::new();
        let mut c = start;
        let mut fuel: usize = self.disk.len() / 4 + 1;
        assert(fuel == chain_fuel(self.disk@));
        while fuel > 0 && c >= 2 && c < FAT_EOC
            invariant
                fat_sane(*self),
                out@ + chain_from(self.disk@, *self, c, fuel as nat)
                    == chain_from(self.disk@, *self, start, chain_fuel(self.disk@)),
            decreases fuel,
        {
            let ghost before = out@;
            out.push(c);
            let next = self.fat_get(c);
            assert(out@ + chain_from(self.disk@, *self, next, (fuel - 1) as nat)
                =~= before + chain_from(self.disk@, *self, c, fuel as nat));
            c = next;
            fuel = fuel - 1;
        }
        assert(out@ =~= out@ + chain_from(self.disk@, *self, c, fuel as nat));
        out
    }

    /// Frees every cluster of the chain from `start`.
    pub fn free_chain(&mut self, start: u32)
        requires
            fat_sane(*old(self)),
        ensures
            final(self).disk@ == free_all(old(self).disk@, *old(self),
                chain_from(old(self).disk@, *old(self), start, chain_fuel(old(self).disk@))),
            same_geometry(*final(self), *old(self)),
    {
        let ch = self.chain(start);
        assert(ch@.skip(0) =~= ch@);
        self.free_list(&ch, 0);
    }

    /// Frees each cluster of `xs` from index `from` on, in order.
    fn free_list(&mut self, xs: &Vec<u32>, from: usize)
        requires
            fat_sane(*old(self)),
            from <= xs@.len(),
        ensures
            final(self).disk@ == free_all(old(self).disk@, *old(self), xs@.skip(from as int)),
            same_geometry(*final(self), *old(self)),
    {
        let ghost f = *old(self);
        let mut i: usize = from;
        while i < xs.len()
            invariant
                from <= i <= xs@.len(),
                fat_sane(f),
                same_geometry(*self, f),
                free_all(self.disk@, f, xs@.skip(i as int)) == free_all(f.disk@, f, xs@.skip(from as int)),
            decreases xs@.len() - i,
        {
            proof {
                assert(xs@.skip(i as int) =~= seq![xs@[i as int]] + xs@.skip(i + 1));
                assert(xs@.skip(i as int)[0] == xs@[i as int]);
                assert(xs@.skip(i as int).drop_first() =~= xs@.skip(i + 1));
            }
            let ghost cur = *self;
            self.fat_set(xs[i], FAT_FREE);
            proof {
                lemma_set_copies_geometry(cur.disk@, cur, f, xs@[i as int], FAT_FREE, f.num_fats as nat);
            }
            i = i + 1;
        }
        assert(xs@.skip(i as int) =~= Seq::<u32>::empty());
    }
}

/// Two images with the same boot parameters.
pub open spec fn same_geometry(a: Fat32Image, b: Fat32Image) -> bool {
    a.bps == b.bps && a.spc == b.spc && a.reserved == b.reserved && a.num_fats == b.num_fats
        && a.fat_size == b.fat_size && a.root_clus == b.root_clus && a.data_start == b.data_start
}

/// `d` with each cluster of `xs` marked free in every FAT copy, in order.
pub open spec fn free_all(d: Seq<u8>, f: Fat32Image, xs: Seq<u32>) -> Seq<u8>
    decreases xs.len(),
{
    if xs.len() == 0 { d } else { free_all(set_copies(d, f, xs[0], FAT_FREE, f.num_fats as nat), f, xs.drop_first()) }
}

/// The offsets that `set_copies` uses depend on the geometry alone.
proof fn lemma_set_copies_geometry(d: Seq<u8>, a: Fat32Image, b: Fat32Image, c: u32, val: u32, n: nat)
    requires
        same_geometry(a, b),
    ensures
        set_copies(d, a, c, val, n) == set_copies(d, b, c, val, n),
    decreases n,
{
    if n > 0 {
        lemma_set_copies_geometry(d, a, b, c, val, (n - 1) as nat);
    }
}

/// The most clusters a chain walk visits: one more than the image has
/// four-byte entries, which no chain without a loop exceeds.
pub open spec fn chain_fuel(d: Seq<u8>) -> nat {
    d.len() / 4 + 1
}

/// The clusters of the chain from `c`, following the first FAT of `d`,
/// at most `fuel` of them.
pub open spec fn chain_from(d: Seq<u8>, f: Fat32Image, c: u32, fuel: nat) -> Seq<u32>
    decreases fuel,
{
    if fuel == 0 || c < 2 || c >= FAT_EOC {
        Seq::empty()
    } else {
        seq![c] + chain_from(d, f, fat_entry(d, f, c), (fuel - 1) as nat)
    }
}

// ── Writing a chain ──────────────────────────────────────────────────────

/// The clusters of `csz` bytes that `len` bytes take.
pub open spec fn clusters_for(len: int, csz: int) -> int {
    (len + csz - 1) / csz
}

/// Grows the chain `ch` to `needed` clusters: each new cluster is the
/// first free one, taken as `alloc_cluster` takes it, and linked after
/// the chain's last. The disk, and the chain or `None` where free
/// clusters ran out.
pub open spec fn extend(d: Seq<u8>, f: Fat32Image, ch: Seq<u32>, needed: int) -> (Seq<u8>, Option<Seq<u32>>)
    decreases needed - ch.len(),
{
    if ch.len() >= needed {
        (d, Some(ch))
    } else {
        let c = first_free(d, f, 2, fat_clusters(f));
        if c < 0 {
            (d, None)
        } else {
            let d1 = zero_cluster(set_copies(d, f, c as u32, FAT_EOC, f.num_fats as nat), f, c as u32);
            let d2 = if ch.len() > 0 { set_copies(d1, f, ch.last(), c as u32, f.num_fats as nat) } else { d1 };
            extend(d2, f, ch.push(c as u32), needed)
        }
    }
}

/// Cuts the chain `ch` back to `needed` clusters: the last kept one ends
/// the chain and the rest are freed; a chain cut to nothing is left.
pub open spec fn cut(d: Seq<u8>, f: Fat32Image, ch: Seq<u32>, needed: int) -> Seq<u8> {
    if ch.len() > needed && needed > 0 {
        free_all(set_copies(d, f, ch[needed - 1], FAT_EOC, f.num_fats as nat), f, ch.skip(needed))
    } else {
        d
    }
}

/// `d` with the first `i` clusters of `ch` holding their piece of `data`,
/// zero-filled to the cluster's end; clusters past the image's end are
/// passed over.
pub open spec fn put_data(d: Seq<u8>, f: Fat32Image, ch: Seq<u32>, data: Seq<u8>, i: nat) -> Seq<u8>
    decreases i,
{
    if i == 0 {
        d
    } else {
        let d1 = put_data(d, f, ch, data, (i - 1) as nat);
        let csz = f.spc * f.bps;
        let src = (i - 1) * csz;
        let end = if src + csz < data.len() { src + csz } else { data.len() as int };
        let off = cluster_off(f, ch[i - 1]);
        if off + csz <= d1.len() {
            write_range(d1, off, data.subrange(src, end) + zeros((csz - (end - src)) as nat))
        } else {
            d1
        }
    }
}

/// What writing `data` into the chain from `start` does: the chain grows
/// or is cut to the clusters the data takes, the data goes into them in
/// order, and the chain's first cluster (0 for none) comes back; `None`
/// when the clusters ran out while growing it, the clusters taken so far
/// staying taken.
pub open spec fn write_chain_result(d: Seq<u8>, f: Fat32Image, start: u32, data: Seq<u8>) -> (Seq<u8>, Option<u32>) {
    let needed = clusters_for(data.len() as int, f.spc * f.bps);
    let ch0 = chain_from(d, f, start, chain_fuel(d));
    let (d1, grown) = extend(d, f, ch0, needed);
    match grown {
        None => (d1, None),
        Some(ch) => (put_data(cut(d1, f, ch, needed), f, ch, data, needed as nat),
            Some(if ch.len() > 0 { ch[0] } else { 0 })),
    }
}

proof fn lemma_chain_from_ge2(d: Seq<u8>, f: Fat32Image, c: u32, fuel: nat)
    ensures
        forall|k: int| 0 <= k < chain_from(d, f, c, fuel).len() ==> #[trigger] chain_from(d, f, c, fuel)[k] >= 2,
    decreases fuel,
{
    if fuel > 0 && 2 <= c < FAT_EOC {
        lemma_chain_from_ge2(d, f, fat_entry(d, f, c), (fuel - 1) as nat);
        let rest = chain_from(d, f, fat_entry(d, f, c), (fuel - 1) as nat);
        assert forall|k: int| 0 <= k < chain_from(d, f, c, fuel).len() implies #[trigger] chain_from(d, f, c, fuel)[k] >= 2 by {
            if k > 0 {
                assert(chain_from(d, f, c, fuel)[k] == rest[k - 1]);
            }
        }
    }
}

proof fn lemma_first_free_geometry(d: Seq<u8>, a: Fat32Image, b: Fat32Image, c: int, total: int)
    requires
        same_geometry(a, b),
    ensures
        first_free(d, a, c, total) == first_free(d, b, c, total),
        first_free(d, a, c, total) == -1 || (2 <= c <= first_free(d, a, c, total) < total),
    decreases total - c,
{
    if 2 <= c < total && c <= u32::MAX && fat_entry(d, a, c as u32) != FAT_FREE {
        lemma_first_free_geometry(d, a, b, c + 1, total);
    }
}

impl Fat32Image {
    /// Writes `data` into the chain from `start`, growing or cutting the
    /// chain to the clusters the data takes (see `write_chain_result`).
    #[verifier::rlimit(40)]
    pub fn write_chain(&mut self, start: u32, data: &[u8]) -> (r: Option<u32>)
        requires
            fat_sane(*old(self)),
            data_sane(*old(self)),
            old(self).spc * old(self).bps > 0,
            data@.len() + old(self).spc * old(self).bps - 1 <= usize::MAX,
        ensures
            ({
                let res = write_chain_result(old(self).disk@, *old(self), start, data@);
                final(self).disk@ == res.0 && r == res.1
            }),
            same_geometry(*final(self), *old(self)),
    {
        let ghost f = *old(self);
        let csz: usize = (self.spc * self.bps) as usize;
        let needed: usize = (data.len() + (csz - 1)) / csz;
        let mut ch = self.chain(start);
        let ghost ch0 = ch@;
        proof {
            lemma_chain_from_ge2(f.disk@, f, start, chain_fuel(f.disk@));
        }
        while ch.len() < needed
            invariant
                f == *old(self),
                ch0 == chain_from(f.disk@, f, start, chain_fuel(f.disk@)),
                same_geometry(*self, f),
                fat_sane(f),
                data_sane(f),
                needed == clusters_for(data@.len() as int, f.spc * f.bps),
                forall|k: int| 0 <= k < ch@.len() ==> #[trigger] ch@[k] >= 2,
                extend(self.disk@, f, ch@, needed as int) == extend(f.disk@, f, ch0, needed as int),
            decreases needed - ch@.len(),
        {
            let ghost cur = *self;
            proof {
                lemma_first_free_geometry(cur.disk@, cur, f, 2, fat_clusters(f));
            }
            let nc = match self.alloc_cluster() {
                Some(c) => c,
                None => {
                    return None;
                },
            };
            proof {
                lemma_set_copies_geometry(cur.disk@, cur, f, nc, FAT_EOC, f.num_fats as nat);
            }
            if ch.len() > 0 {
                let last = ch[ch.len() - 1];
                let ghost cur2 = *self;
                self.fat_set(last, nc);
                proof {
                    lemma_set_copies_geometry(cur2.disk@, cur2, f, last, nc, f.num_fats as nat);
                }
            }
            ch.push(nc);
        }
        let ghost d1 = self.disk@;
        assert(extend(f.disk@, f, ch0, needed as int) == (d1, Some(ch@)));
        if ch.len() > needed && needed > 0 {
            let ghost cur = *self;
            self.fat_set(ch[needed - 1], FAT_EOC);
            proof {
                lemma_set_copies_geometry(cur.disk@, cur, f, ch@[needed - 1], FAT_EOC, f.num_fats as nat);
            }
            let ghost cur3 = *self;
            self.free_list(&ch, needed);
            proof {
                lemma_free_all_same(cur3.disk@, cur3, f, ch@.skip(needed as int));
            }
        }
        let ghost d2 = self.disk@;
        assert(d2 == cut(d1, f, ch@, needed as int));
        let mut i: usize = 0;
        while i < needed
            invariant
                i <= needed,
                needed <= ch@.len(),
                same_geometry(*self, f),
                csz == f.spc * f.bps,
                csz > 0,
                needed == clusters_for(data@.len() as int, csz as int),
                forall|k: int| 0 <= k < ch@.len() ==> #[trigger] ch@[k] >= 2,
                self.disk@ == put_data(d2, f, ch@, data@, i as nat),
            decreases needed - i,
        {
            proof {
                let len = data@.len() as int;
                let cs = csz as int;
                vstd::arithmetic::div_mod::lemma_fundamental_div_mod(len + cs - 1, cs);
                assert(needed * cs <= len + cs - 1) by (nonlinear_arith)
                    requires
                        len + cs - 1 == cs * ((len + cs - 1) / cs) + (len + cs - 1) % cs,
                        needed == (len + cs - 1) / cs,
                        (len + cs - 1) % cs >= 0;
                assert(i * cs + cs <= needed * cs) by (nonlinear_arith)
                    requires i + 1 <= needed, cs > 0;
                assert(i * cs < len);
            }
            let dlen: usize = data.len();
            assert(i * csz < dlen);
            let src: usize = i * csz;
            let end: usize = if data.len() - src > csz { src + csz } else { data.len() };
            let c = ch[i];
            assert(c >= 2);
            proof {
                assert((c - 2) * self.spc <= 0xFFFF_FFFF * 0xFFFF_FFFF) by (nonlinear_arith)
                    requires 0 <= c - 2 <= 0xFFFF_FFFF, self.spc <= 0xFFFF_FFFF;
                assert((self.data_start + (c - 2) * self.spc) * self.bps
                    <= (0xFFFF_FFFF + 0xFFFF_FFFF * 0xFFFF_FFFF) * 0xFFFF_FFFF) by (nonlinear_arith)
                    requires
                        0 <= (c - 2) * self.spc <= 0xFFFF_FFFF * 0xFFFF_FFFF,
                        self.data_start <= 0xFFFF_FFFF,
                        self.bps <= 0xFFFF_FFFF;
            }
            let off: u128 = (self.data_start as u128 + (c as u128 - 2) * self.spc as u128) * self.bps as u128;
            assert(off == cluster_off(f, c));
            let dl: usize = self.disk.len();
            if off <= dl as u128 && dl as u128 - off >= csz as u128 {
                let ghost before = self.disk@;
                let ghost g = *self;
                let o: usize = off as usize;
                let mut j: usize = 0;
                while j < csz
                    invariant
                        same_geometry(*self, g),
                        j <= csz,
                        dl == before.len(),
                        o + csz <= self.disk@.len(),
                        self.disk@.len() == before.len(),
                        src <= end <= data@.len(),
                        end - src <= csz,
                        forall|k: int| 0 <= k < o || o + csz <= k < before.len() ==> self.disk@[k] == before[k],
                        forall|k: int| o <= k < o + j ==> self.disk@[k]
                            == (data@.subrange(src as int, end as int) + zeros((csz - (end - src)) as nat))[k - o],
                    decreases csz - j,
                {
                    let b: u8 = if j < end - src { data[src + j] } else { 0u8 };
                    self.disk.set(o + j, b);
                    j = j + 1;
                }
                assert(self.disk@ =~= write_range(before, o as int,
                    data@.subrange(src as int, end as int) + zeros((csz - (end - src)) as nat)));
            }
            i = i + 1;
        }
        Some(if ch.len() > 0 { ch[0] } else { 0 })
    }
}

proof fn lemma_free_all_same(d: Seq<u8>, a: Fat32Image, b: Fat32Image, xs: Seq<u32>)
    requires
        same_geometry(a, b),
    ensures
        free_all(d, a, xs) == free_all(d, b, xs),
    decreases xs.len(),
{
    if xs.len() > 0 {
        lemma_set_copies_geometry(d, a, b, xs[0], FAT_FREE, a.num_fats as nat);
        lemma_free_all_same(set_copies(d, a, xs[0], FAT_FREE, a.num_fats as nat), a, b, xs.drop_first());
    }
}

// ── A taken cluster ends its chain ───────────────────────────────────────

proof fn lemma_set_copies_len(d: Seq<u8>, f: Fat32Image, c: u32, val: u32, n: nat)
    ensures
        set_copies(d, f, c, val, n).len() == d.len(),
    decreases n,
{
    if n > 0 {
        lemma_set_copies_len(d, f, c, val, (n - 1) as nat);
    }
}

/// Copies after the first leave the first copy's entry as the first
/// copy's write left it.
proof fn lemma_set_copies_first(d: Seq<u8>, f: Fat32Image, c: u32, val: u32, n: nat, i: int)
    requires
        1 <= n,
        fat_copy_off(f, 0, c) <= i < fat_copy_off(f, 0, c) + 4,
        forall|k: int| 1 <= k < n ==> fat_copy_off(f, 0, c) + 4 <= #[trigger] fat_copy_off(f, k, c),
    ensures
        set_copies(d, f, c, val, n)[i] == set_copies(d, f, c, val, 1)[i],
        set_copies(d, f, c, val, n).len() == d.len(),
    decreases n,
{
    lemma_set_copies_len(d, f, c, val, n);
    if n > 1 {
        lemma_set_copies_first(d, f, c, val, (n - 1) as nat, i);
        lemma_set_copies_len(d, f, c, val, (n - 1) as nat);
        assert(fat_copy_off(f, 0, c) + 4 <= fat_copy_off(f, n - 1, c));
    }
}

/// A cluster that `alloc_cluster` takes reads as the end of its chain:
/// its entry in the first FAT is the end-of-chain mark, which the later
/// FAT copies and the zero-filling of the cluster leave alone.
pub proof fn law_taken_cluster_ends_chain(f: Fat32Image, c: u32)
    requires
        f.num_fats >= 1,
        f.data_start == f.reserved + f.num_fats * f.fat_size,
        2 <= c < fat_clusters(f),
    ensures
        fat_entry(zero_cluster(set_copies(f.disk@, f, c, FAT_EOC, f.num_fats as nat), f, c), f, c) == FAT_EOC,
{
    let d = f.disk@;
    let n = f.num_fats as nat;
    let o0 = fat_copy_off(f, 0, c);
    let d1 = set_copies(d, f, c, FAT_EOC, n);
    let d2 = zero_cluster(d1, f, c);
    lemma_set_copies_len(d, f, c, FAT_EOC, n);
    let total = fat_clusters(f);
    let fb = f.fat_size * f.bps;
    assert(4 * total <= fb) by {
        vstd::arithmetic::div_mod::lemma_fundamental_div_mod(fb as int, 4);
    }
    assert forall|k: int| 1 <= k < n implies o0 + 4 <= #[trigger] fat_copy_off(f, k, c) by {
        assert((f.reserved + k * f.fat_size) * f.bps >= (f.reserved + f.fat_size) * f.bps) by (nonlinear_arith)
            requires k >= 1, f.fat_size >= 0, f.bps >= 0, f.reserved >= 0;
        assert((f.reserved + f.fat_size) * f.bps == f.reserved * f.bps + f.fat_size * f.bps) by (nonlinear_arith);
    }
    let co = cluster_off(f, c);
    assert(co >= o0 + 4) by {
        assert(f.num_fats * f.fat_size >= f.fat_size) by (nonlinear_arith)
            requires f.num_fats >= 1, f.fat_size >= 0;
        assert((f.data_start + (c - 2) * f.spc) * f.bps >= f.data_start * f.bps) by (nonlinear_arith)
            requires c >= 2, f.spc >= 0, f.bps >= 0, f.data_start >= 0;
        assert(f.data_start * f.bps >= (f.reserved + f.fat_size) * f.bps) by (nonlinear_arith)
            requires f.data_start >= f.reserved + f.fat_size, f.bps >= 0;
        assert((f.reserved + f.fat_size) * f.bps == f.reserved * f.bps + f.fat_size * f.bps) by (nonlinear_arith);
        assert(f.num_fats * f.fat_size >= f.fat_size) by (nonlinear_arith)
            requires f.num_fats >= 1, f.fat_size >= 0;
    }
    assert(d2.len() == d.len());
    if o0 + 4 <= d.len() {
        assert forall|i: int| o0 <= i < o0 + 4 implies d2[i] == le32(FAT_EOC)[i - o0] by {
            lemma_set_copies_first(d, f, c, FAT_EOC, n, i);
            assert(set_copies(d, f, c, FAT_EOC, 0) == d);
            assert(set_copies(d, f, c, FAT_EOC, 1) == put4(d, o0, FAT_EOC));
        }
        assert((0x0FFF_FFF8u32 as u8) == 0xF8u8 && ((0x0FFF_FFF8u32 >> 8u32) as u8) == 0xFFu8
            && ((0x0FFF_FFF8u32 >> 16u32) as u8) == 0xFFu8 && ((0x0FFF_FFF8u32 >> 24u32) as u8) == 0x0Fu8)
            by (bit_vector);
        assert(le32(FAT_EOC) =~= seq![0xF8u8, 0xFFu8, 0xFFu8, 0x0Fu8]);
        assert(spec_u32_le(d2, o0) == 0x0FFF_FFF8u32);
        assert(0x0FFF_FFF8u32 & 0x0FFF_FFFFu32 == 0x0FFF_FFF8u32) by (bit_vector);
    }
}

} // verus!
