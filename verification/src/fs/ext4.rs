//! ext4 on disk: the superblock's geometry, where an inode lives and
//! its bytes, the extent tree, and reading a file's data.
use vstd::prelude::*;
use crate::bytes::{read_u16_le, read_u32_le, spec_u16_le, spec_u32_le, copy_bytes};
use crate::errno::{VfsError, EIO, EINVAL, ENOENT};
use crate::fs::journal::{Disk, MemDisk, Journal, crc32c, spec_crc32c, zero_block, zeros, be32_at, scan, put_block,
    sb_block, span, JBD2_MAGIC, MIN_BLOCK_SIZE, MAX_BLOCK_SIZE, log_writes, commit_plan, log_block, log_pos,
    place_from, law_recover_replays_commit};

verus! {

pub const EXT4_EXT_MAGIC: u16 = 0xF30A;

/// An extent: logical start, length (top bit: unwritten), physical start.
pub struct Ext4Extent {
    pub ee_block: u32,
    pub ee_len: u16,
    pub ee_start_hi: u16,
    pub ee_start_lo: u32,
}

impl Ext4Extent {
    pub fn start_block(&self) -> (r: u64)
        ensures
            r == self.ee_start_hi as int * 0x1_0000_0000 + self.ee_start_lo as int,
    {
        self.ee_start_hi as u64 * 0x1_0000_0000 + self.ee_start_lo as u64
    }

    pub fn length(&self) -> (r: u32)
        ensures
            r == self.ee_len as int % 0x8000,
    {
        (self.ee_len % 0x8000) as u32
    }

    pub fn is_unwritten(&self) -> (r: bool)
        ensures
            r == (self.ee_len >= 0x8000),
    {
        self.ee_len >= 0x8000
    }
}

/// What one node of the extent tree says about a logical block: the
/// physical block or that it is unmapped, or which child node to read.
pub enum ExtentStep {
    Found(Option<u64>),
    Descend(u64),
}

/// How many of the node's entries lie within its `len` bytes.
pub open spec fn node_entries(d: Seq<u8>) -> int {
    let n = spec_u16_le(d, 2) as int;
    let fit = (d.len() - 12) / 12;
    if n < fit { n } else { fit }
}

/// Whether leaf entry `i` maps logical block `l`.
pub open spec fn leaf_maps(d: Seq<u8>, i: int, l: int) -> bool {
    let off = 12 + 12 * i;
    let start = spec_u32_le(d, off) as int;
    let len = spec_u16_le(d, off + 4) as int % 0x8000;
    start <= l < start + len
}

pub open spec fn leaf_phys(d: Seq<u8>, i: int, l: int) -> int {
    let off = 12 + 12 * i;
    spec_u16_le(d, off + 6) as int * 0x1_0000_0000 + spec_u32_le(d, off + 8) as int + (l - spec_u32_le(d, off) as int)
}

/// Whether index entry `i` covers logical block `l` (starts at or below it).
pub open spec fn index_covers(d: Seq<u8>, i: int, l: int) -> bool {
    spec_u32_le(d, 12 + 12 * i) as int <= l
}

pub open spec fn index_child(d: Seq<u8>, i: int) -> int {
    spec_u32_le(d, 12 + 12 * i + 4) as int + spec_u16_le(d, 12 + 12 * i + 8) as int * 0x1_0000_0000
}

/// Whether leaf entry `i` is the first to map `l`.
pub open spec fn first_leaf(d: Seq<u8>, i: int, l: int) -> bool {
    0 <= i < node_entries(d) && leaf_maps(d, i, l) && forall|j: int| 0 <= j < i ==> !#[trigger] leaf_maps(d, j, l)
}

/// Whether index entry `i` is the last to cover `l`.
pub open spec fn last_index(d: Seq<u8>, i: int, l: int) -> bool {
    0 <= i < node_entries(d) && index_covers(d, i, l)
        && forall|j: int| i < j < node_entries(d) ==> !#[trigger] index_covers(d, j, l)
}

/// What one step of the lookup of `l` in the node `d` gives.
pub open spec fn step_result(d: Seq<u8>, l: int) -> Result<ExtentStep, VfsError> {
    if d.len() < 12 || spec_u16_le(d, 0) != EXT4_EXT_MAGIC {
        Err(EIO)
    } else if spec_u16_le(d, 6) == 0 {
        if exists|i: int| #[trigger] first_leaf(d, i, l) {
            let i = choose|i: int| #[trigger] first_leaf(d, i, l);
            Ok(ExtentStep::Found(Some(leaf_phys(d, i, l) as u64)))
        } else {
            Ok(ExtentStep::Found(None))
        }
    } else {
        if exists|i: int| #[trigger] last_index(d, i, l) {
            let i = choose|i: int| #[trigger] last_index(d, i, l);
            Ok(ExtentStep::Descend(index_child(d, i) as u64))
        } else {
            Ok(ExtentStep::Found(None))
        }
    }
}

/// One step of looking up logical block `logical` in the extent node
/// `data`: `EIO` for a short node or a bad magic; in a leaf the first
/// extent that maps the block gives it, none means unmapped; in an
/// internal node the last index starting at or below the block names the
/// child to read, none means unmapped.
pub fn extent_step(data: &[u8], logical: u64) -> (r: Result<ExtentStep, VfsError>)
    ensures
        data@.len() < 12 || spec_u16_le(data@, 0) != EXT4_EXT_MAGIC ==> r == Err::<ExtentStep, VfsError>(EIO),
        data@.len() >= 12 && spec_u16_le(data@, 0) == EXT4_EXT_MAGIC ==> r is Ok && ({
            let d = data@;
            let n = node_entries(d);
            if spec_u16_le(d, 6) == 0 {
                match r->Ok_0 {
                    ExtentStep::Found(Some(p)) => exists|i: int| 0 <= i < n && #[trigger] leaf_maps(d, i, logical as int)
                        && p == leaf_phys(d, i, logical as int)
                        && forall|j: int| 0 <= j < i ==> !#[trigger] leaf_maps(d, j, logical as int),
                    ExtentStep::Found(None) => forall|i: int| 0 <= i < n ==> !#[trigger] leaf_maps(d, i, logical as int),
                    ExtentStep::Descend(_) => false,
                }
            } else {
                match r->Ok_0 {
                    ExtentStep::Descend(c) => exists|i: int| 0 <= i < n && #[trigger] index_covers(d, i, logical as int)
                        && c == index_child(d, i)
                        && forall|j: int| i < j < n ==> !#[trigger] index_covers(d, j, logical as int),
                    ExtentStep::Found(None) => forall|i: int| 0 <= i < n ==> !#[trigger] index_covers(d, i, logical as int),
                    ExtentStep::Found(Some(_)) => false,
                }
            }
        }),
        r == step_result(data@, logical as int),
{
    if data.len() < 12 {
        return Err(EIO);
    }
    if read_u16_le(data, 0) != EXT4_EXT_MAGIC {
        return Err(EIO);
    }
    let entries: u16 = read_u16_le(data, 2);
    let depth: u16 = read_u16_le(data, 6);
    let fit: usize = (data.len() - 12) / 12;
    let n: usize = if (entries as usize) < fit { entries as usize } else { fit };
    assert(n == node_entries(data@));
    if depth == 0 {
        let mut i: usize = 0;
        while i < n
            invariant
                i <= n,
                n == node_entries(data@),
                12 + 12 * n <= data@.len(),
                data@.len() >= 12 && spec_u16_le(data@, 0) == EXT4_EXT_MAGIC && spec_u16_le(data@, 6) == 0,
                forall|j: int| 0 <= j < i ==> !#[trigger] leaf_maps(data@, j, logical as int),
            decreases n - i,
        {
            let off: usize = 12 + 12 * i;
            let start: u64 = read_u32_le(data, off) as u64;
            let len: u64 = (read_u16_le(data, off + 4) % 0x8000) as u64;
            if start <= logical && logical < start + len {
                let phys: u64 = read_u16_le(data, off + 6) as u64 * 0x1_0000_0000 + read_u32_le(data, off + 8) as u64
                    + (logical - start);
                assert(leaf_maps(data@, i as int, logical as int));
                proof {
                    let d = data@;
                    let l = logical as int;
                    assert(first_leaf(d, i as int, l));
                    let k = choose|k: int| #[trigger] first_leaf(d, k, l);
                    assert(first_leaf(d, k, l));
                    if k < i {
                        assert(!leaf_maps(d, k, l));
                    } else if k > i {
                        assert(!leaf_maps(d, i as int, l));
                    }
                    assert(k == i);
                }
                return Ok(ExtentStep::Found(Some(phys)));
            }
            i = i + 1;
        }
        assert(!exists|k: int| #[trigger] first_leaf(data@, k, logical as int));
        Ok(ExtentStep::Found(None))
    } else {
        let mut best: usize = 0;
        let mut found: bool = false;
        let mut i: usize = 0;
        while i < n
            invariant
                i <= n,
                n == node_entries(data@),
                12 + 12 * n <= data@.len(),
                data@.len() >= 12 && spec_u16_le(data@, 0) == EXT4_EXT_MAGIC && spec_u16_le(data@, 6) != 0,
                found ==> best < i && index_covers(data@, best as int, logical as int)
                    && forall|j: int| best < j < i ==> !#[trigger] index_covers(data@, j, logical as int),
                !found ==> forall|j: int| 0 <= j < i ==> !#[trigger] index_covers(data@, j, logical as int),
            decreases n - i,
        {
            let off: usize = 12 + 12 * i;
            if read_u32_le(data, off) as u64 <= logical {
                best = i;
                found = true;
            }
            i = i + 1;
        }
        if !found {
            assert(!exists|k: int| #[trigger] last_index(data@, k, logical as int));
            return Ok(ExtentStep::Found(None));
        }
        let off: usize = 12 + 12 * best;
        let child: u64 = read_u32_le(data, off + 4) as u64 + read_u16_le(data, off + 8) as u64 * 0x1_0000_0000;
        assert(index_covers(data@, best as int, logical as int));
        proof {
            let d = data@;
            let l = logical as int;
            assert(last_index(d, best as int, l));
            let k = choose|k: int| #[trigger] last_index(d, k, l);
            assert(last_index(d, k, l));
            if k < best {
                assert(!index_covers(d, best as int, l));
            } else if k > best {
                assert(!index_covers(d, k, l));
            }
            assert(k == best);
        }
        Ok(ExtentStep::Descend(child))
    }
}

/// The block group of inode `ino` and its index there; `EINVAL` for inode 0.
pub fn inode_position(ino: u32, inodes_per_group: u32) -> (r: Result<(u32, u64), VfsError>)
    requires
        inodes_per_group > 0,
    ensures
        ino == 0 ==> r == Err::<(u32, u64), VfsError>(EINVAL),
        ino > 0 ==> r == Ok::<(u32, u64), VfsError>((((ino - 1) / inodes_per_group as int) as u32,
            ((ino - 1) % inodes_per_group as int) as u64)),
{
    if ino == 0 {
        return Err(EINVAL);
    }
    let idx: u32 = ino - 1;
    Ok((idx / inodes_per_group, (idx % inodes_per_group) as u64))
}

/// The byte offset of inode `idx` of a group whose inode table starts at
/// block `table_blk`.
pub fn inode_offset(table_blk: u64, block_size: u64, idx: u64, inode_size: u16) -> (r: u64)
    requires
        table_blk * block_size + idx * inode_size <= u64::MAX,
    ensures
        r == table_blk * block_size + idx * inode_size,
{
    assert(table_blk * block_size <= u64::MAX && idx * inode_size <= u64::MAX) by (nonlinear_arith)
        requires
            table_blk * block_size + idx * inode_size <= u64::MAX,
    ;
    table_blk * block_size + idx * inode_size as u64
}

// ── Superblock ───────────────────────────────────────────────────────────

pub const EXT4_MAGIC: u16 = 0xEF53;
pub const EXT4_FEATURE_INCOMPAT_EXTENTS: u32 = 0x0040;
pub const EXT4_FEATURE_INCOMPAT_64BIT: u32 = 0x0080;
pub const EXT4_FEATURE_RO_COMPAT_METADATA_CSUM: u32 = 0x0400;
pub const EXT4_FEATURE_COMPAT_HAS_JOURNAL: u32 = 0x0004;
pub const EXT4_INODE_FLAG_EXTENTS: u32 = 0x0008_0000;
/// The superblock's byte offset on the disk, and its length.
pub const SUPERBLOCK_OFFSET: u64 = 1024;
pub const SUPERBLOCK_SIZE: usize = 1024;

/// What the file system's layout takes from its superblock.
#[derive(Clone, Copy)]
pub struct Ext4Geometry {
    pub block_size: u64,
    pub inodes_per_group: u32,
    pub blocks_per_group: u32,
    pub num_groups: u32,
    pub inode_size: u32,
    pub desc_size: u32,
    /// Byte offset of the group descriptor table.
    pub group_desc_off: u64,
    pub has_64bit: bool,
    pub has_extents: bool,
    pub has_journal: bool,
    pub has_meta_csum: bool,
    pub checksum_seed: u32,
    pub journal_inum: u32,
}

/// Whether `b` holds a whole superblock with the ext4 magic.
pub open spec fn sb_ok(b: Seq<u8>) -> bool {
    b.len() >= 1024 && spec_u16_le(b, 56) == EXT4_MAGIC
}

pub open spec fn sb_blocks_count(b: Seq<u8>) -> int {
    spec_u32_le(b, 4) as int + spec_u32_le(b, 336) as int * 0x1_0000_0000
}

/// The superblocks whose geometry can be worked out without overflow or
/// a division by zero.
pub open spec fn sb_sane(b: Seq<u8>) -> bool {
    &&& spec_u32_le(b, 24) < 64
    &&& spec_u32_le(b, 32) > 0
    &&& sb_blocks_count(b) + spec_u32_le(b, 32) <= u64::MAX
}

pub open spec fn spec_block_size(b: Seq<u8>) -> u64 {
    1024u64 << spec_u32_le(b, 24)
}

/// The geometry that the superblock `b` describes.
pub open spec fn spec_geometry(b: Seq<u8>) -> Ext4Geometry {
    let bs = spec_block_size(b);
    let bpg = spec_u32_le(b, 32);
    let incompat = spec_u32_le(b, 96);
    let ro = spec_u32_le(b, 100);
    let d = spec_u16_le(b, 254);
    Ext4Geometry {
        block_size: bs,
        inodes_per_group: spec_u32_le(b, 40),
        blocks_per_group: bpg,
        num_groups: ((sb_blocks_count(b) + bpg - 1) / (bpg as int)) as u32,
        inode_size: if spec_u32_le(b, 76) >= 1 { spec_u16_le(b, 88) as u32 } else { 128 },
        desc_size: if incompat & EXT4_FEATURE_INCOMPAT_64BIT != 0 {
            if d < 64 { 64 } else { d as u32 }
        } else {
            32
        },
        group_desc_off: if bs == 1024 { 2048 } else { bs },
        has_64bit: incompat & EXT4_FEATURE_INCOMPAT_64BIT != 0,
        has_extents: incompat & EXT4_FEATURE_INCOMPAT_EXTENTS != 0,
        has_journal: spec_u32_le(b, 92) & EXT4_FEATURE_COMPAT_HAS_JOURNAL != 0,
        has_meta_csum: ro & EXT4_FEATURE_RO_COMPAT_METADATA_CSUM != 0,
        checksum_seed: if ro & EXT4_FEATURE_RO_COMPAT_METADATA_CSUM != 0 {
            spec_crc32c(0, b.subrange(104, 120))
        } else {
            0
        },
        journal_inum: spec_u32_le(b, 224),
    }
}

/// The group descriptor table starts at the first block boundary at or
/// after the superblock's end (byte 2048): byte 2048 for 1 KiB blocks,
/// block 1 for larger ones. The block size is 1 KiB times two to the
/// superblock's log field.
pub proof fn law_descriptor_table_follows_superblock(b: Seq<u8>)
    requires
        spec_u32_le(b, 24) <= 53,
    ensures
        ({
            let g = spec_geometry(b);
            let l = spec_u32_le(b, 24);
            &&& g.block_size == 1024 * vstd::arithmetic::power2::pow2(l as nat)
            &&& g.group_desc_off % g.block_size == 0
            &&& 2048 <= g.group_desc_off < 2048 + g.block_size
        }),
{
    let l = spec_u32_le(b, 24);
    vstd::arithmetic::power2::lemma2_to64();
    vstd::arithmetic::power2::lemma2_to64_rest();
    if l < 53 {
        vstd::arithmetic::power2::lemma_pow2_strictly_increases(l as nat, 53);
    }
    vstd::bits::lemma_u64_shl_is_mul(1024u64, l as u64);
    assert(spec_block_size(b) == 1024u64 << (l as u64));
    let bs = spec_block_size(b) as int;
    if l >= 1 {
        vstd::arithmetic::power2::lemma_pow2_strictly_increases(0, l as nat);
        vstd::arithmetic::div_mod::lemma_mod_self_0(bs);
    }
}

/// The file system has as many block groups as it takes to cover its
/// blocks: enough groups of `blocks_per_group` blocks to hold them all,
/// and one fewer would not (when that count fits in 32 bits).
pub proof fn law_groups_cover_blocks(b: Seq<u8>)
    requires
        sb_sane(b),
        (sb_blocks_count(b) + spec_u32_le(b, 32) - 1) / (spec_u32_le(b, 32) as int) <= u32::MAX,
    ensures
        ({
            let g = spec_geometry(b);
            let n = sb_blocks_count(b);
            &&& g.num_groups as int * g.blocks_per_group >= n
            &&& (g.num_groups as int - 1) * g.blocks_per_group < n
        }),
{
    let bpg = spec_u32_le(b, 32) as int;
    let n = sb_blocks_count(b);
    let q = (n + bpg - 1) / bpg;
    vstd::arithmetic::div_mod::lemma_fundamental_div_mod(n + bpg - 1, bpg);
    let r = (n + bpg - 1) % bpg;
    assert(q * bpg == bpg * q) by (nonlinear_arith);
    assert((q - 1) * bpg == q * bpg - bpg) by (nonlinear_arith);
    assert(spec_geometry(b).num_groups == q);
}

/// The superblock's feature bits and sizes as the geometry reports them:
/// extents with incompat bit 0x40, 64-bit with 0x80 (descriptors then at
/// least 64 bytes and the superblock's size when larger, else 32 bytes), a
/// journal with compat bit 0x4, metadata checksums with ro-compat bit
/// 0x400; inodes of the superblock's size from revision 1 on, else 128
/// bytes; the journal inode and the per-group counts as recorded.
pub proof fn law_geometry_fields(b: Seq<u8>)
    ensures
        ({
            let g = spec_geometry(b);
            let d = spec_u16_le(b, 254) as int;
            &&& g.has_extents == (spec_u32_le(b, 96) & 0x40u32 != 0)
            &&& g.has_64bit == (spec_u32_le(b, 96) & 0x80u32 != 0)
            &&& g.has_journal == (spec_u32_le(b, 92) & 0x4u32 != 0)
            &&& g.has_meta_csum == (spec_u32_le(b, 100) & 0x400u32 != 0)
            &&& g.has_64bit ==> g.desc_size >= 64 && (d >= 64 ==> g.desc_size == d)
                && (d < 64 ==> g.desc_size == 64)
            &&& !g.has_64bit ==> g.desc_size == 32
            &&& spec_u32_le(b, 76) >= 1 ==> g.inode_size == spec_u16_le(b, 88)
            &&& spec_u32_le(b, 76) == 0 ==> g.inode_size == 128
            &&& g.inodes_per_group == spec_u32_le(b, 40) && g.blocks_per_group == spec_u32_le(b, 32)
            &&& g.journal_inum == spec_u32_le(b, 224)
        }),
{
}

/// Inodes lie in their group's table one after another: the first inode
/// of a group is at the start of the table its descriptor names, the next
/// inode of the same group lies `inode_size` bytes further on, and the
/// next group's descriptor follows this one's.
pub proof fn law_inode_table_layout(c: Seq<u8>, g: Ext4Geometry, ino: u32)
    requires
        g.inodes_per_group > 0,
        1 <= ino,
        ino + g.inodes_per_group <= u32::MAX,
    ensures
        (ino - 1) % (g.inodes_per_group as int) == 0 ==> inode_byte_offset(c, g, ino)
            == desc_inode_table(padded_desc(c, desc_offset(g, ino), g.desc_size as int)) * g.block_size,
        (ino as int) % (g.inodes_per_group as int) != 0 ==> desc_offset(g, (ino + 1) as u32) == desc_offset(g, ino)
            && inode_byte_offset(c, g, (ino + 1) as u32) == inode_byte_offset(c, g, ino) + g.inode_size,
        desc_offset(g, (ino + g.inodes_per_group) as u32) == desc_offset(g, ino) + g.desc_size,
{
    let p = g.inodes_per_group as int;
    let i = ino - 1;
    vstd::arithmetic::div_mod::lemma_fundamental_div_mod(i, p);
    assert((i / p) * p == p * (i / p)) by (nonlinear_arith);
    if (ino as int) % p != 0 {
        if i % p + 1 == p {
            assert((i / p + 1) * p == (i / p) * p + p) by (nonlinear_arith);
            vstd::arithmetic::div_mod::lemma_fundamental_div_mod_converse(i + 1, p, i / p + 1, 0);
        }
        vstd::arithmetic::div_mod::lemma_fundamental_div_mod_converse(i + 1, p, i / p, i % p + 1);
    }
    assert((i / p + 1) * p == p * (i / p) + p) by (nonlinear_arith);
    vstd::arithmetic::div_mod::lemma_fundamental_div_mod_converse(i + p, p, i / p + 1, i % p);
    assert((i / p + 1) * g.desc_size == (i / p) * g.desc_size + g.desc_size) by (nonlinear_arith);
    assert(((i / p) + 1) * (g.inode_size as int) == (i / p) * (g.inode_size as int) + g.inode_size) by (nonlinear_arith);
    assert((i % p + 1) * (g.inode_size as int) == (i % p) * (g.inode_size as int) + g.inode_size) by (nonlinear_arith);
}

/// The geometry of the superblock `b`: `None` unless `b` holds a whole
/// superblock with the ext4 magic. The block size is 1024 shifted left
/// by the log field; 64-bit file systems have descriptors of at least 64
/// bytes, others of 32; the descriptor table starts in block 2 for
/// 1 KiB blocks and in block 1 otherwise; with metadata checksums the
/// checksum seed is the CRC-32C of the volume UUID.
pub fn parse_superblock(b: &[u8]) -> (r: Option<Ext4Geometry>)
    requires
        sb_ok(b@) ==> sb_sane(b@),
    ensures
        r is Some <==> sb_ok(b@),
        r matches Some(g) ==> g == spec_geometry(b@),
{
    if b.len() < 1024 {
        return None;
    }
    if read_u16_le(b, 56) != EXT4_MAGIC {
        return None;
    }
    let log: u32 = read_u32_le(b, 24);
    let block_size: u64 = 1024u64 << log;
    let bpg: u32 = read_u32_le(b, 32);
    let count: u64 = read_u32_le(b, 4) as u64 + read_u32_le(b, 336) as u64 * 0x1_0000_0000;
    let num_groups: u32 = ((count + bpg as u64 - 1) / bpg as u64) as u32;
    let rev: u32 = read_u32_le(b, 76);
    let inode_size: u32 = if rev >= 1 { read_u16_le(b, 88) as u32 } else { 128 };
    let incompat: u32 = read_u32_le(b, 96);
    let ro: u32 = read_u32_le(b, 100);
    let compat: u32 = read_u32_le(b, 92);
    let d: u16 = read_u16_le(b, 254);
    let desc_size: u32 = if incompat & EXT4_FEATURE_INCOMPAT_64BIT != 0 {
        if d < 64 { 64 } else { d as u32 }
    } else {
        32
    };
    let checksum_seed: u32 = if ro & EXT4_FEATURE_RO_COMPAT_METADATA_CSUM != 0 {
        let uuid = copy_bytes(b, 104, 16);
        crc32c(0, uuid.as_slice())
    } else {
        0
    };
    Some(Ext4Geometry {
        block_size,
        inodes_per_group: read_u32_le(b, 40),
        blocks_per_group: bpg,
        num_groups,
        inode_size,
        desc_size,
        group_desc_off: if block_size == 1024 { 2048 } else { block_size },
        has_64bit: incompat & EXT4_FEATURE_INCOMPAT_64BIT != 0,
        has_extents: incompat & EXT4_FEATURE_INCOMPAT_EXTENTS != 0,
        has_journal: compat & EXT4_FEATURE_COMPAT_HAS_JOURNAL != 0,
        has_meta_csum: ro & EXT4_FEATURE_RO_COMPAT_METADATA_CSUM != 0,
        checksum_seed,
        journal_inum: read_u32_le(b, 224),
    })
}

// ── The file system on its disk ──────────────────────────────────────────

/// The superblock's bytes on a disk whose bytes are `c`.
pub open spec fn sb_region(c: Seq<u8>) -> Seq<u8> {
    c.subrange(SUPERBLOCK_OFFSET as int, SUPERBLOCK_OFFSET + SUPERBLOCK_SIZE)
}

/// Byte offset of the descriptor of the group that holds inode `ino`.
pub open spec fn desc_offset(g: Ext4Geometry, ino: u32) -> int {
    g.group_desc_off + ((ino - 1) / (g.inodes_per_group as int)) * g.desc_size
}

/// A group descriptor as read: its bytes, zero-filled to 64.
pub open spec fn padded_desc(c: Seq<u8>, off: int, ds: int) -> Seq<u8> {
    c.subrange(off, off + ds) + zeros((64 - ds) as nat)
}

/// The first block of the inode table that a group descriptor names.
pub open spec fn desc_inode_table(d: Seq<u8>) -> int {
    spec_u32_le(d, 8) as int + spec_u32_le(d, 40) as int * 0x1_0000_0000
}

/// Byte offset of inode `ino` on a disk whose bytes are `c`.
pub open spec fn inode_byte_offset(c: Seq<u8>, g: Ext4Geometry, ino: u32) -> int {
    desc_inode_table(padded_desc(c, desc_offset(g, ino), g.desc_size as int)) * g.block_size
        + ((ino - 1) % (g.inodes_per_group as int)) * g.inode_size
}

/// Whether inode `ino` can be located: it is not 0, its group
/// descriptor lies on the disk, and its offset fits in 64 bits.
pub open spec fn locatable(c: Seq<u8>, g: Ext4Geometry, ino: u32) -> bool {
    &&& ino > 0
    &&& desc_offset(g, ino) + g.desc_size <= c.len()
    &&& inode_byte_offset(c, g, ino) <= u64::MAX
}

/// An ext4 file system on a disk.
pub struct Ext4Fs<D: Disk> {
    pub disk: D,
    pub geo: Ext4Geometry,
}

impl<D: Disk> Ext4Fs<D> {
    /// Reads the superblock at byte 1024 of `disk`: `None` when it cannot
    /// be read or lacks the ext4 magic, else the file system with the
    /// superblock's geometry.
    pub fn open(disk: D) -> (r: Option<Ext4Fs<D>>)
        requires
            disk.contents().len() >= 2048 && sb_ok(sb_region(disk.contents()))
                ==> sb_sane(sb_region(disk.contents())),
        ensures
            ({
                let c = disk.contents();
                &&& r matches Some(fs) ==> c.len() >= 2048 && sb_ok(sb_region(c))
                    && fs.geo == spec_geometry(sb_region(c)) && fs.disk == disk
                &&& c.len() < 2048 || !sb_ok(sb_region(c)) ==> r is None
                &&& disk.reliable() && c.len() >= 2048 && sb_ok(sb_region(c)) ==> r is Some
            }),
    {
        let mut buf = zero_block(SUPERBLOCK_SIZE);
        if disk.read_bytes(SUPERBLOCK_OFFSET, buf.as_mut_slice()).is_err() {
            return None;
        }
        proof {
            assert(buf@ == sb_region(disk.contents()));
        }
        match parse_superblock(buf.as_slice()) {
            Some(geo) => Some(Ext4Fs { disk, geo }),
            None => None,
        }
    }

    /// Where inode `ino` lives: its byte offset and size. `EINVAL` for
    /// inode 0; `EIO` when its group descriptor cannot be read or its
    /// offset does not fit in 64 bits.
    pub fn inode_location(&self, ino: u32) -> (r: Result<(u64, usize), VfsError>)
        requires
            self.geo.inodes_per_group > 0,
            self.geo.desc_size <= 64,
            ino > 0 ==> desc_offset(self.geo, ino) <= u64::MAX,
        ensures
            ({
                let c = self.disk.contents();
                &&& ino == 0 ==> r == Err::<(u64, usize), VfsError>(EINVAL)
                &&& r matches Ok((o, sz)) ==> locatable(c, self.geo, ino)
                    && o == inode_byte_offset(c, self.geo, ino) && sz == self.geo.inode_size
                &&& r matches Err(e) ==> (ino == 0 && e == EINVAL) || (ino > 0 && e == EIO)
                &&& self.disk.reliable() && locatable(c, self.geo, ino) ==> r is Ok
            }),
    {
        if ino == 0 {
            return Err(EINVAL);
        }
        let ghost c = self.disk.contents();
        let ipg = self.geo.inodes_per_group;
        let ds = self.geo.desc_size;
        let idx: u32 = ino - 1;
        let group: u32 = idx / ipg;
        let in_group: u64 = (idx % ipg) as u64;
        proof {
            assert(group as int * ds as int <= 0xFFFF_FFFF * 64) by (nonlinear_arith)
                requires
                    group <= 0xFFFF_FFFF,
                    ds <= 64,
            ;
        }
        let off: u64 = self.geo.group_desc_off + group as u64 * ds as u64;
        let mut d = zero_block(ds as usize);
        if self.disk.read_bytes(off, d.as_mut_slice()).is_err() {
            return Err(EIO);
        }
        let ghost read = d@;
        assert(read == c.subrange(off as int, off + ds));
        while d.len() < 64
            invariant
                ds <= 64,
                read.len() == ds,
                read.len() <= d@.len() <= 64,
                d@ == read + zeros((d@.len() - read.len()) as nat),
            decreases 64 - d@.len(),
        {
            d.push(0u8);
            proof {
                assert(d@ =~= read + zeros((d@.len() - read.len()) as nat));
            }
        }
        assert(d@ == padded_desc(c, off as int, ds as int));
        let lo: u32 = read_u32_le(d.as_slice(), 8);
        let hi: u32 = read_u32_le(d.as_slice(), 40);
        let table: u64 = lo as u64 + hi as u64 * 0x1_0000_0000;
        let isz: u64 = self.geo.inode_size as u64;
        let base = match table.checked_mul(self.geo.block_size) {
            Some(b) => b,
            None => {
                proof {
                    assert(table * self.geo.block_size <= in_group * isz + table * self.geo.block_size) by (nonlinear_arith)
                        requires in_group >= 0, isz >= 0;
                }
                return Err(EIO);
            }
        };
        let within = match in_group.checked_mul(isz) {
            Some(w) => w,
            None => {
                proof {
                    assert(in_group * isz <= in_group * isz + table * self.geo.block_size) by (nonlinear_arith)
                        requires table >= 0, self.geo.block_size >= 0;
                }
                return Err(EIO);
            }
        };
        match base.checked_add(within) {
            Some(o) => Ok((o, self.geo.inode_size as usize)),
            None => Err(EIO),
        }
    }

    /// The bytes of inode `ino`: `EINVAL` for inode 0, `EIO` when it
    /// cannot be located or read.
    pub fn read_inode(&self, ino: u32) -> (r: Result<Vec<u8>, VfsError>)
        requires
            self.geo.inodes_per_group > 0,
            self.geo.desc_size <= 64,
            ino > 0 ==> desc_offset(self.geo, ino) <= u64::MAX,
        ensures
            ({
                let c = self.disk.contents();
                let o = inode_byte_offset(c, self.geo, ino);
                &&& ino == 0 ==> r == Err::<Vec<u8>, VfsError>(EINVAL)
                &&& r matches Ok(v) ==> locatable(c, self.geo, ino) && o + self.geo.inode_size <= c.len()
                    && v@ == c.subrange(o, o + self.geo.inode_size)
                &&& r matches Err(e) ==> (ino == 0 && e == EINVAL) || (ino > 0 && e == EIO)
                &&& self.disk.reliable() && locatable(c, self.geo, ino) && o + self.geo.inode_size <= c.len()
                    ==> r is Ok
            }),
    {
        let (o, sz) = match self.inode_location(ino) {
            Ok(loc) => loc,
            Err(e) => return Err(e),
        };
        let mut buf = zero_block(sz);
        if self.disk.read_bytes(o, buf.as_mut_slice()).is_err() {
            return Err(EIO);
        }
        Ok(buf)
    }

    /// Looks up logical block `logical` in the extent tree whose root node
    /// is `root`, reading child nodes from the disk: the physical block,
    /// or `None` where the block is unmapped. `EIO` for a node that is
    /// short, lacks the extent magic or cannot be read, and after more
    /// descents than a node's depth field can count.
    pub fn extent_lookup(&self, root: &[u8], logical: u64) -> (r: Result<Option<u64>, VfsError>)
        requires
            self.geo.block_size <= usize::MAX,
        ensures
            r == extent_walk(self.disk.contents(), self.geo.block_size as int, root@, logical as int,
                EXTENT_WALK_LIMIT as nat) || (!self.disk.reliable() && r == Err::<Option<u64>, VfsError>(EIO)),
    {
        let ghost c = self.disk.contents();
        let bs = self.geo.block_size;
        let mut node: Vec<u8> = copy_bytes(root, 0, root.len());
        assert(node@ =~= root@);
        let mut fuel: u32 = EXTENT_WALK_LIMIT;
        loop
            invariant
                c == self.disk.contents(),
                bs == self.geo.block_size,
                bs <= usize::MAX,
                extent_walk(c, bs as int, node@, logical as int, fuel as nat)
                    == extent_walk(c, bs as int, root@, logical as int, EXTENT_WALK_LIMIT as nat),
            decreases fuel,
        {
            match extent_step(node.as_slice(), logical) {
                Err(e) => {
                    return Err(e);
                },
                Ok(ExtentStep::Found(x)) => {
                    return Ok(x);
                },
                Ok(ExtentStep::Descend(ch)) => {
                    if fuel == 0 {
                        return Err(EIO);
                    }
                    let o = match ch.checked_mul(bs) {
                        Some(o) => o,
                        None => {
                            return Err(EIO);
                        },
                    };
                    if o > u64::MAX - bs {
                        return Err(EIO);
                    }
                    let mut b = zero_block(bs as usize);
                    if self.disk.read_bytes(o, b.as_mut_slice()).is_err() {
                        return Err(EIO);
                    }
                    node = b;
                    fuel = fuel - 1;
                },
            }
        }
    }
}

/// More descents than this end an extent lookup.
pub const EXTENT_WALK_LIMIT: u32 = 0x1_0000;

/// Whether block `b` of `bs` bytes lies on a disk whose bytes are `c`,
/// at an offset that fits in 64 bits.
pub open spec fn block_in(c: Seq<u8>, bs: int, b: int) -> bool {
    b * bs + bs <= c.len() && b * bs + bs <= u64::MAX
}

/// The lookup of logical block `l` from the extent node `node`, reading
/// child nodes from a disk whose bytes are `c`, with at most `fuel`
/// descents.
pub open spec fn extent_walk(c: Seq<u8>, bs: int, node: Seq<u8>, l: int, fuel: nat) -> Result<Option<u64>, VfsError>
    decreases fuel,
{
    match step_result(node, l) {
        Err(e) => Err(e),
        Ok(ExtentStep::Found(x)) => Ok(x),
        Ok(ExtentStep::Descend(ch)) => {
            if fuel == 0 {
                Err(EIO)
            } else if block_in(c, bs, ch as int) {
                extent_walk(c, bs, c.subrange(ch * bs, ch * bs + bs), l, (fuel - 1) as nat)
            } else {
                Err(EIO)
            }
        },
    }
}

// ── Block maps and file data ─────────────────────────────────────────────

/// Entry `k` of an inode's `i_block` array, whose bytes are `raw`.
pub open spec fn iblock(raw: Seq<u8>, k: int) -> u32 {
    spec_u32_le(raw, 40 + 4 * k)
}

/// Pointer `idx` of the indirect block `blk`: `None` for a zero pointer,
/// `EIO` where it is not on the disk.
pub open spec fn ptr_read(c: Seq<u8>, bs: int, blk: int, idx: int) -> Result<Option<u64>, VfsError> {
    let off = blk * bs + idx * 4;
    if off + 4 <= c.len() && off <= u64::MAX {
        let p = spec_u32_le(c, off);
        Ok(if p == 0 { None } else { Some(p as u64) })
    } else {
        Err(EIO)
    }
}

/// The block map of an inode without extents: twelve direct pointers,
/// then a single and a double indirect block; blocks beyond those are
/// unmapped.
pub open spec fn indirect_map(c: Seq<u8>, bs: int, raw: Seq<u8>, l: int) -> Result<Option<u64>, VfsError> {
    let ppb = bs / 4;
    if l < 12 {
        let b = iblock(raw, l);
        Ok(if b == 0 { None } else { Some(b as u64) })
    } else if l - 12 < ppb {
        let si = iblock(raw, 12);
        if si == 0 { Ok(None) } else { ptr_read(c, bs, si as int, l - 12) }
    } else if l - 12 - ppb < ppb * ppb {
        let di = iblock(raw, 13);
        let l2 = l - 12 - ppb;
        if di == 0 {
            Ok(None)
        } else {
            match ptr_read(c, bs, di as int, l2 / ppb) {
                Ok(Some(si)) => ptr_read(c, bs, si as int, l2 % ppb),
                other => other,
            }
        }
    } else {
        Ok(None)
    }
}

/// Where logical block `l` of the inode whose bytes are `raw` lives.
pub open spec fn block_map(c: Seq<u8>, g: Ext4Geometry, raw: Seq<u8>, l: int) -> Result<Option<u64>, VfsError> {
    if spec_u32_le(raw, 32) & EXT4_INODE_FLAG_EXTENTS != 0 {
        extent_walk(c, g.block_size as int, raw.subrange(40, 100), l, EXTENT_WALK_LIMIT as nat)
    } else {
        indirect_map(c, g.block_size as int, raw, l)
    }
}

/// The size of the file whose inode bytes are `raw`.
pub open spec fn file_size(raw: Seq<u8>) -> int {
    spec_u32_le(raw, 4) as int + spec_u32_le(raw, 108) as int * 0x1_0000_0000
}

/// How many bytes a read of `len` at `offset` returns.
pub open spec fn read_len(raw: Seq<u8>, offset: int, len: int) -> int {
    if offset >= file_size(raw) {
        0
    } else if len < file_size(raw) - offset {
        len
    } else {
        file_size(raw) - offset
    }
}

/// Whether byte `k` of the file can be read: its block is unmapped, or
/// it lies on the disk.
pub open spec fn byte_ok(c: Seq<u8>, g: Ext4Geometry, raw: Seq<u8>, k: int) -> bool {
    let bs = g.block_size as int;
    match block_map(c, g, raw, k / bs) {
        Ok(None) => true,
        Ok(Some(p)) => p * bs + bs <= u64::MAX && p * bs + k % bs < c.len(),
        Err(_) => false,
    }
}

/// Byte `k` of the file: zero in an unmapped block.
pub open spec fn file_byte(c: Seq<u8>, g: Ext4Geometry, raw: Seq<u8>, k: int) -> u8 {
    let bs = g.block_size as int;
    match block_map(c, g, raw, k / bs) {
        Ok(Some(p)) => c[p * bs + k % bs],
        _ => 0,
    }
}

/// Byte `i` of a read from `offset` can be read.
pub open spec fn at_ok(c: Seq<u8>, g: Ext4Geometry, raw: Seq<u8>, offset: int, i: int) -> bool {
    byte_ok(c, g, raw, offset + i)
}

/// Byte `i` of a read from `offset`.
pub open spec fn at_byte(c: Seq<u8>, g: Ext4Geometry, raw: Seq<u8>, offset: int, i: int) -> u8 {
    file_byte(c, g, raw, offset + i)
}

/// The bytes of a piece of a read that lies in one unmapped block read
/// as zeros.
proof fn lemma_hole_piece(c: Seq<u8>, g: Ext4Geometry, raw: Seq<u8>, offset: int, done: int, can: int)
    requires
        g.block_size > 0,
        offset + done >= 0,
        0 < can <= g.block_size - (offset + done) % (g.block_size as int),
        block_map(c, g, raw, (offset + done) / (g.block_size as int)) == Ok::<Option<u64>, VfsError>(None),
    ensures
        forall|i: int| #![trigger at_ok(c, g, raw, offset, i)] #![trigger at_byte(c, g, raw, offset, i)] done <= i < done + can ==> at_ok(c, g, raw, offset, i)
            && at_byte(c, g, raw, offset, i) == 0,
{
    assert forall|i: int| #![trigger at_ok(c, g, raw, offset, i)] #![trigger at_byte(c, g, raw, offset, i)] done <= i < done + can implies at_ok(c, g, raw, offset, i)
        && at_byte(c, g, raw, offset, i) == 0 by {
        lemma_in_block(offset + done, g.block_size as int, i - done);
        assert(offset + done + (i - done) == offset + i);
    }
}

/// The bytes of a piece of a read that lies in one mapped block come
/// from that block.
proof fn lemma_data_piece(c: Seq<u8>, g: Ext4Geometry, raw: Seq<u8>, offset: int, done: int, can: int, p: u64)
    requires
        g.block_size > 0,
        offset + done >= 0,
        0 < can <= g.block_size - (offset + done) % (g.block_size as int),
        block_map(c, g, raw, (offset + done) / (g.block_size as int)) == Ok::<Option<u64>, VfsError>(Some(p)),
        p * g.block_size + g.block_size <= u64::MAX,
        p * g.block_size + (offset + done) % (g.block_size as int) + can <= c.len(),
    ensures
        forall|i: int| #![trigger at_ok(c, g, raw, offset, i)] #![trigger at_byte(c, g, raw, offset, i)] done <= i < done + can ==> at_ok(c, g, raw, offset, i)
            && at_byte(c, g, raw, offset, i) == c[p * g.block_size + (offset + done) % (g.block_size as int) + (i - done)],
{
    assert forall|i: int| #![trigger at_ok(c, g, raw, offset, i)] #![trigger at_byte(c, g, raw, offset, i)] done <= i < done + can implies at_ok(c, g, raw, offset, i)
        && at_byte(c, g, raw, offset, i) == c[p * g.block_size + (offset + done) % (g.block_size as int) + (i - done)] by {
        lemma_in_block(offset + done, g.block_size as int, i - done);
        assert(offset + done + (i - done) == offset + i);
    }
}

proof fn lemma_in_block(abs: int, bs: int, t: int)
    requires
        bs > 0,
        abs >= 0,
        0 <= t < bs - abs % bs,
    ensures
        (abs + t) / bs == abs / bs,
        (abs + t) % bs == abs % bs + t,
{
    vstd::arithmetic::div_mod::lemma_fundamental_div_mod(abs, bs);
    assert((abs / bs) * bs == bs * (abs / bs)) by (nonlinear_arith);
    vstd::arithmetic::div_mod::lemma_fundamental_div_mod_converse(abs + t, bs, abs / bs, abs % bs + t);
}

impl<D: Disk> Ext4Fs<D> {
    /// Pointer `idx` of the indirect block `blk`.
    fn read_ptr(&self, blk: u64, idx: u64) -> (r: Result<Option<u64>, VfsError>)
        ensures
            r == ptr_read(self.disk.contents(), self.geo.block_size as int, blk as int, idx as int)
                || (!self.disk.reliable() && r == Err::<Option<u64>, VfsError>(EIO)),
    {
        let ghost c = self.disk.contents();
        let a = match blk.checked_mul(self.geo.block_size) {
            Some(a) => a,
            None => {
                proof {
                    assert(blk * self.geo.block_size <= blk * self.geo.block_size + idx * 4) by (nonlinear_arith)
                        requires idx >= 0;
                }
                return Err(EIO);
            },
        };
        let b = match idx.checked_mul(4) {
            Some(b) => b,
            None => {
                return Err(EIO);
            },
        };
        let off = match a.checked_add(b) {
            Some(o) => o,
            None => {
                return Err(EIO);
            },
        };
        let mut buf = zero_block(4);
        if self.disk.read_bytes(off, buf.as_mut_slice()).is_err() {
            return Err(EIO);
        }
        let p: u32 = read_u32_le(buf.as_slice(), 0);
        proof {
            assert(buf@ == c.subrange(off as int, off + 4));
            assert(p == spec_u32_le(c, off as int));
        }
        Ok(if p == 0 { None } else { Some(p as u64) })
    }

    /// Where logical block `logical` of an inode without extents lives.
    fn indirect_lookup(&self, raw: &[u8], logical: u64) -> (r: Result<Option<u64>, VfsError>)
        requires
            raw@.len() >= 100,
        ensures
            r == indirect_map(self.disk.contents(), self.geo.block_size as int, raw@, logical as int)
                || (!self.disk.reliable() && r == Err::<Option<u64>, VfsError>(EIO)),
    {
        let ppb: u64 = self.geo.block_size / 4;
        if logical < 12 {
            let b = read_u32_le(raw, 40 + 4 * logical as usize);
            return Ok(if b == 0 { None } else { Some(b as u64) });
        }
        let l1: u64 = logical - 12;
        if l1 < ppb {
            let si = read_u32_le(raw, 88);
            if si == 0 {
                return Ok(None);
            }
            return self.read_ptr(si as u64, l1);
        }
        let l2: u64 = l1 - ppb;
        let inside: bool = match ppb.checked_mul(ppb) {
            Some(q) => l2 < q,
            None => true,
        };
        if inside {
            let di = read_u32_le(raw, 92);
            if di == 0 {
                return Ok(None);
            }
            match self.read_ptr(di as u64, l2 / ppb) {
                Ok(Some(si)) => self.read_ptr(si, l2 % ppb),
                other => other,
            }
        } else {
            Ok(None)
        }
    }

    /// Where logical block `logical` of the inode whose bytes are `raw`
    /// lives: through its extent tree when it has one, else through its
    /// block pointers.
    pub fn block_lookup(&self, raw: &[u8], logical: u64) -> (r: Result<Option<u64>, VfsError>)
        requires
            raw@.len() >= 100,
            self.geo.block_size <= usize::MAX,
        ensures
            r == block_map(self.disk.contents(), self.geo, raw@, logical as int)
                || (!self.disk.reliable() && r == Err::<Option<u64>, VfsError>(EIO)),
    {
        let flags = read_u32_le(raw, 32);
        if flags & EXT4_INODE_FLAG_EXTENTS != 0 {
            let root = copy_bytes(raw, 40, 60);
            self.extent_lookup(root.as_slice(), logical)
        } else {
            self.indirect_lookup(raw, logical)
        }
    }

    /// Reads up to `len` bytes of the file whose inode bytes are `raw`,
    /// from byte `offset`: nothing at or past the end of the file, else
    /// as many bytes as are asked and left, an unmapped block reading as
    /// zeros. `EIO` when a block cannot be looked up or read.
    #[verifier::rlimit(40)]
    pub fn read_file(&self, raw: &[u8], offset: u64, len: usize) -> (r: Result<Vec<u8>, VfsError>)
        requires
            raw@.len() >= 112,
            0 < self.geo.block_size <= usize::MAX,
        ensures
            ({
                let c = self.disk.contents();
                let n = read_len(raw@, offset as int, len as int);
                &&& r matches Ok(v) ==> v@.len() == n && forall|i: int| #![trigger v@[i]] #![trigger at_ok(c, self.geo, raw@, offset as int, i)] 0 <= i < n ==>
                    at_ok(c, self.geo, raw@, offset as int, i) && v@[i] == at_byte(c, self.geo, raw@, offset as int, i)
                &&& r matches Err(e) ==> e == EIO
                &&& self.disk.reliable() && (forall|i: int| 0 <= i < n ==> #[trigger] at_ok(c, self.geo, raw@, offset as int, i))
                    ==> r is Ok
            }),
    {
        let ghost c = self.disk.contents();
        let ghost g = self.geo;
        let bs = self.geo.block_size;
        let size: u64 = read_u32_le(raw, 4) as u64 + read_u32_le(raw, 108) as u64 * 0x1_0000_0000;
        assert(size == file_size(raw@));
        if offset >= size {
            return Ok(Vec::new());
        }
        let rest: u64 = size - offset;
        let to_read: usize = if (len as u64) < rest { len } else { rest as usize };
        let ghost n = read_len(raw@, offset as int, len as int);
        assert(to_read == n);
        let mut v: Vec<u8> = Vec::new();
        let mut done: usize = 0;
        while done < to_read
            invariant
                c == self.disk.contents(),
                g == self.geo,
                bs == g.block_size,
                0 < bs <= usize::MAX,
                raw@.len() >= 112,
                to_read == n,
                n == read_len(raw@, offset as int, len as int),
                offset + to_read <= u64::MAX,
                done <= to_read,
                v@.len() == done,
                forall|i: int| #![trigger v@[i]] #![trigger at_ok(c, g, raw@, offset as int, i)] 0 <= i < done ==>
                    at_ok(c, g, raw@, offset as int, i) && v@[i] == at_byte(c, g, raw@, offset as int, i),
            decreases to_read - done,
        {
            let abs: u64 = offset + done as u64;
            let lb: u64 = abs / bs;
            let bo: u64 = abs % bs;
            let room: u64 = bs - bo;
            let left: u64 = (to_read - done) as u64;
            let can: usize = if room < left { room as usize } else { left as usize };
            proof {
                lemma_in_block(abs as int, bs as int, 0);
                lemma_in_block(abs as int, bs as int, can - 1);
                assert((offset + done) / (bs as int) == lb as int);
                assert((offset + (done + can - 1)) / (bs as int) == lb as int);
                assert((offset + (done + can - 1)) % (bs as int) == bo + can - 1);
            }
            let pm = match self.block_lookup(raw, lb) {
                Ok(x) => x,
                Err(_) => {
                    assert(!self.disk.reliable() || !at_ok(c, g, raw@, offset as int, done as int));
                    return Err(EIO);
                },
            };
            let ghost before = v@;
            match pm {
                None => {
                    let mut t: usize = 0;
                    while t < can
                        invariant
                            t <= can,
                            v@.len() == before.len() + t,
                            forall|i: int| 0 <= i < before.len() ==> v@[i] == before[i],
                            forall|i: int| before.len() <= i < before.len() + t ==> #[trigger] v@[i] == 0u8,
                        decreases can - t,
                    {
                        v.push(0u8);
                        t = t + 1;
                    }
                    proof {
                        lemma_hole_piece(c, g, raw@, offset as int, done as int, can as int);
                    }
                    assert forall|i: int| #![trigger v@[i]] #![trigger at_ok(c, g, raw@, offset as int, i)] 0 <= i < done + can implies
                        at_ok(c, g, raw@, offset as int, i) && v@[i] == at_byte(c, g, raw@, offset as int, i) by {
                        if i < done {
                            assert(v@[i] == before[i]);
                        } else {
                            assert(at_ok(c, g, raw@, offset as int, i));
                        }
                    }
                },
                Some(p) => {
                    let o = match p.checked_mul(bs) {
                        Some(o) => o,
                        None => {
                            assert(!at_ok(c, g, raw@, offset as int, done as int));
                            return Err(EIO);
                        },
                    };
                    if o > u64::MAX - bs {
                        assert(!at_ok(c, g, raw@, offset as int, done as int));
                        return Err(EIO);
                    }
                    let mut tmp = zero_block(can);
                    if self.disk.read_bytes(o + bo, tmp.as_mut_slice()).is_err() {
                        assert(!self.disk.reliable() || !at_ok(c, g, raw@, offset as int, done + can - 1));
                        return Err(EIO);
                    }
                    assert(tmp@ == c.subrange(o + bo, o + bo + can));
                    let mut t: usize = 0;
                    while t < can
                        invariant
                            t <= can,
                            tmp@.len() == can,
                            v@.len() == before.len() + t,
                            forall|i: int| 0 <= i < before.len() ==> v@[i] == before[i],
                            forall|i: int| before.len() <= i < before.len() + t ==> #[trigger] v@[i] == tmp@[i - before.len()],
                        decreases can - t,
                    {
                        v.push(tmp[t]);
                        t = t + 1;
                    }
                    proof {
                        lemma_data_piece(c, g, raw@, offset as int, done as int, can as int, p);
                    }
                    assert forall|i: int| #![trigger v@[i]] #![trigger at_ok(c, g, raw@, offset as int, i)] 0 <= i < done + can implies
                        at_ok(c, g, raw@, offset as int, i) && v@[i] == at_byte(c, g, raw@, offset as int, i) by {
                        if i < done {
                            assert(v@[i] == before[i]);
                        } else {
                            assert(at_ok(c, g, raw@, offset as int, i));
                            assert(v@[i] == tmp@[i - done]);
                        }
                    }
                },
            }
            done = done + can;
        }
        assert(done == to_read);
        assert(v@.len() == n);
        assert forall|i: int| #![trigger v@[i]] #![trigger at_ok(c, g, raw@, offset as int, i)] 0 <= i < n implies
            at_ok(c, g, raw@, offset as int, i) && v@[i] == at_byte(c, g, raw@, offset as int, i) by {
            assert(0 <= i < done);
            assert(v@[i] == at_byte(c, g, raw@, offset as int, i));
            assert(at_ok(c, g, raw@, offset as int, i));
        }
        assert forall|i: int| 0 <= i < n implies #[trigger] at_ok(c, g, raw@, offset as int, i) by {
            assert(v@[i] == at_byte(c, g, raw@, offset as int, i));
        }
        Ok(v)
    }
}

// ── Mounting ─────────────────────────────────────────────────────────────

/// The first block of the journal of a file system with a journal inode,
/// as its block map gives it; `None` where it cannot be found.
pub open spec fn journal_start_of(c: Seq<u8>, g: Ext4Geometry) -> Option<u64> {
    let o = inode_byte_offset(c, g, g.journal_inum);
    if g.has_journal && g.journal_inum != 0 && locatable(c, g, g.journal_inum) && o + g.inode_size <= c.len() {
        match block_map(c, g, c.subrange(o, o + g.inode_size), 0) {
            Ok(Some(st)) => Some(st),
            _ => None,
        }
    } else {
        None
    }
}

/// Whether the journal whose superblock is block `st` can be attached and
/// replayed: a block size the journal takes, its superblock on the disk
/// with the journal magic, and a log that the disk's offsets can address.
pub open spec fn journal_usable(c: Seq<u8>, st: u64, bs: u64) -> bool {
    let off = st * bs;
    let len = be32_at(c, off + 16) as u32;
    let head = be32_at(c, off + 28) as u32;
    &&& MIN_BLOCK_SIZE <= bs <= MAX_BLOCK_SIZE
    &&& (st + 1) * bs <= u64::MAX
    &&& off + bs <= c.len()
    &&& be32_at(c, off) == JBD2_MAGIC
    &&& head < u32::MAX
    &&& len > 0
    &&& (st + 2 + span(head, len)) * bs <= u64::MAX
}

/// The disk after the journal whose superblock is block `st` was replayed.
pub open spec fn replayed(c: Seq<u8>, st: u64, bs: u64) -> Seq<u8> {
    let off = st * bs;
    let len = be32_at(c, off + 16) as u32;
    let head = be32_at(c, off + 28) as u32;
    let t = be32_at(c, off + 84);
    let tail: u32 = if t < 1 { 1 } else { t as u32 };
    if head >= len {
        c
    } else {
        let res = scan(c, st as int, len as int, bs as int, head as int, head as int, tail, 0, len as nat);
        if res.2 > 0 { put_block(res.0, st * bs, sb_block(bs as nat, len, head, res.1)) } else { res.0 }
    }
}

/// The disk of a mounted file system: replayed when it has a usable
/// journal, else as it was.
pub open spec fn mounted(c: Seq<u8>, g: Ext4Geometry) -> Seq<u8> {
    match journal_start_of(c, g) {
        Some(st) => if journal_usable(c, st, g.block_size) { replayed(c, st, g.block_size) } else { c },
        None => c,
    }
}

/// The images whose mount needs no arithmetic that overflows or divides
/// by zero.
pub open spec fn mount_sane(c: Seq<u8>) -> bool {
    c.len() >= 2048 && sb_ok(sb_region(c)) ==> {
        let g = spec_geometry(sb_region(c));
        &&& sb_sane(sb_region(c))
        &&& g.has_journal && g.journal_inum != 0 ==> g.inodes_per_group > 0 && g.desc_size <= 64
            && desc_offset(g, g.journal_inum) <= u64::MAX && g.block_size <= usize::MAX && g.inode_size >= 100
    }
}

/// A committed transaction is replayed by mounting: on an image whose
/// journal (found through the journal inode, with a usable log of `len`
/// blocks from `head`) holds, from the head, the logged blocks of
/// transaction `seq` as `commit` writes them (its blocks `entries` in block
/// order, each block number within the tag's 48 bits and outside the log;
/// all tags within one descriptor), followed by a block that is not a log
/// block, the mounted disk has each block's image, padded to the block size
/// and with its magic restored, at its filesystem block, and the journal
/// superblock records the log as empty from `head` with the tail sequence
/// past `seq`.
pub proof fn law_mount_replays_commit(c: Seq<u8>, g: Ext4Geometry, st: u64, d0: Seq<u8>, seq: u32, tail: u32,
    entries: Seq<(u64, Vec<u8>)>, revoked: Seq<u64>)
    requires
        journal_start_of(c, g) == Some(st),
        journal_usable(c, st, g.block_size),
        ({
            let bs = g.block_size as int;
            let off = st * bs;
            let len = be32_at(c, off + 16);
            let head = be32_at(c, off + 28);
            let t = be32_at(c, off + 84);
            let plan = commit_plan(seq, entries, revoked, bs as nat);
            &&& tail == (if t < 1 { 1 } else { t as u32 })
            &&& head < len
            &&& 1 <= entries.len()
            &&& plan.len() < len
            &&& 28 + 12 * entries.len() <= bs
            &&& (st + 1 + len) * bs <= d0.len() <= u64::MAX
            &&& forall|j: int| 0 <= j < entries.len() ==> (#[trigger] entries[j]).0 < 0x1_0000_0000_0000u64
                && (entries[j].0 < st + 1 || entries[j].0 >= st + 1 + len)
            &&& c == log_writes(d0, plan, st as int, head, len, bs)
            &&& be32_at(log_block(c, st as int, log_pos(head, plan.len() as int, len), bs), 0) != JBD2_MAGIC
        }),
    ensures
        ({
            let bs = g.block_size as int;
            let off = st * bs;
            let len = be32_at(c, off + 16);
            let head = be32_at(c, off + 28);
            let keys = Seq::new(entries.len(), |j: int| entries[j].0);
            let imgs = Seq::new(entries.len(), |j: int| entries[j].1@);
            mounted(c, g) == put_block(place_from(c, keys, imgs, 0, bs), off,
                sb_block(bs as nat, len as u32, head as u32, if seq >= tail { seq.wrapping_add(1) } else { tail }))
        }),
{
    let bs = g.block_size as int;
    let off = st * bs;
    let len = be32_at(c, off + 16);
    let head = be32_at(c, off + 28);
    law_recover_replays_commit(d0, st as int, len, bs, head, seq, tail, entries, revoked);
    assert(len as u32 as int == len);
    assert(head as u32 as int == head);
}

/// The first block of the journal, found through the journal inode's
/// block map.
fn journal_block(fs: &Ext4Fs<MemDisk>) -> (r: Option<u64>)
    requires
        ({
            let g = fs.geo;
            g.has_journal && g.journal_inum != 0 ==> g.inodes_per_group > 0 && g.desc_size <= 64
                && desc_offset(g, g.journal_inum) <= u64::MAX && g.block_size <= usize::MAX && g.inode_size >= 100
        }),
    ensures
        r == journal_start_of(fs.disk.data@, fs.geo),
{
    let g = fs.geo;
    if !(g.has_journal && g.journal_inum != 0) {
        return None;
    }
    let raw = match fs.read_inode(g.journal_inum) {
        Ok(raw) => raw,
        Err(_) => {
            return None;
        },
    };
    match fs.block_lookup(raw.as_slice(), 0) {
        Ok(Some(st)) => Some(st),
        _ => None,
    }
}

/// Whether the journal whose superblock is block `st` can be attached:
/// a block size the journal takes, and the superblock on the disk with
/// the journal magic.
fn journal_attachable(disk: &MemDisk, st: u64, bs: u64) -> (r: bool)
    ensures
        r == (MIN_BLOCK_SIZE <= bs <= MAX_BLOCK_SIZE && (st + 1) * bs <= u64::MAX
            && st * bs + bs <= disk.data@.len() && be32_at(disk.data@, st * bs) == JBD2_MAGIC),
{
    if bs < MIN_BLOCK_SIZE || bs > MAX_BLOCK_SIZE {
        return false;
    }
    let end = match st.checked_add(1) {
        Some(e) => e,
        None => {
            proof {
                assert((st + 1) * bs >= st + 1) by (nonlinear_arith)
                    requires bs >= 1;
            }
            return false;
        },
    };
    if end.checked_mul(bs).is_none() {
        return false;
    }
    proof {
        assert(st * bs + bs == (st + 1) * bs) by (nonlinear_arith);
    }
    let off: u64 = st * bs;
    if off + bs > disk.data.len() as u64 {
        return false;
    }
    let o: usize = off as usize;
    let magic: u32 = disk.data[o] as u32 * 0x100_0000 + disk.data[o + 1] as u32 * 0x1_0000
        + disk.data[o + 2] as u32 * 0x100 + disk.data[o + 3] as u32;
    magic == JBD2_MAGIC
}

/// Mounts the ext4 image `data`: `None` unless it holds a superblock with
/// the ext4 magic. A file system with a journal inode has its journal
/// attached and replayed, when the journal can be found and addressed.
pub fn mount_from_bytes(data: Vec<u8>) -> (r: Option<Ext4Fs<MemDisk>>)
    requires
        mount_sane(data@),
    ensures
        r is Some <==> data@.len() >= 2048 && sb_ok(sb_region(data@)),
        r matches Some(fs) ==> fs.geo == spec_geometry(sb_region(data@)) && fs.disk.data@ == mounted(data@, fs.geo),
{
    let ghost c = data@;
    let fs = match Ext4Fs::open(MemDisk::new(data)) {
        Some(f) => f,
        None => {
            return None;
        },
    };
    let bs = fs.geo.block_size;
    let st = match journal_block(&fs) {
        Some(st) => st,
        None => {
            return Some(fs);
        },
    };
    if !journal_attachable(&fs.disk, st, bs) {
        return Some(fs);
    }
    let Ext4Fs { disk, geo } = fs;
    let disk = attach_and_replay(disk, st, bs);
    Some(Ext4Fs { disk, geo })
}

/// Attaches the journal whose superblock is block `st` and replays it
/// when its log can be addressed; gives the disk back.
fn attach_and_replay(disk: MemDisk, st: u64, bs: u64) -> (r: MemDisk)
    requires
        MIN_BLOCK_SIZE <= bs <= MAX_BLOCK_SIZE,
        (st + 1) * bs <= u64::MAX,
        st * bs + bs <= disk.data@.len(),
        be32_at(disk.data@, st * bs) == JBD2_MAGIC,
    ensures
        r.data@ == if journal_usable(disk.data@, st, bs) { replayed(disk.data@, st, bs) } else { disk.data@ },
{
    let ghost c = disk.data@;
    let mut j = match Journal::new(disk, st, bs) {
        Some(j) => j,
        None => {
            assert(false);
            return MemDisk::new(Vec::new());
        },
    };
    let span_blocks: u64 = if j.head >= j.journal_len { j.head as u64 } else { j.journal_len as u64 };
    let fits: bool = match st.checked_add(2 + span_blocks) {
        Some(b) => b.checked_mul(bs).is_some(),
        None => {
            proof {
                assert((st + 2 + span_blocks) * bs >= st + 2 + span_blocks) by (nonlinear_arith)
                    requires bs >= 1, st + 2 + span_blocks >= 0;
            }
            false
        },
    };
    let usable: bool = j.head < u32::MAX && j.journal_len > 0 && fits;
    proof {
        let off = st * bs;
        assert(j.journal_len == be32_at(c, off + 16) as u32);
        assert(j.head == be32_at(c, off + 28) as u32);
        assert(span_blocks == span(j.head, j.journal_len));
        assert(fits == ((st + 2 + span(j.head, j.journal_len)) * bs <= u64::MAX));
    }
    assert(usable == journal_usable(c, st, bs));
    if usable {
        let _ = j.recover();
    }
    j.disk
}

// ── Directories ──────────────────────────────────────────────────────────

/// The entries of a directory block from byte `pos`: a record of at least
/// 8 bytes that fits gives its name, inode and file type, when its inode
/// is not 0 and its name is not empty and fits; a short or overrunning
/// record ends the block.
pub open spec fn dir_entries(b: Seq<u8>, pos: int) -> Seq<(Seq<u8>, u32, u8)>
    decreases b.len() - pos,
{
    if pos < 0 || pos + 8 > b.len() {
        Seq::empty()
    } else {
        let ino = spec_u32_le(b, pos);
        let rec = spec_u16_le(b, pos + 4) as int;
        let nl = b[pos + 6] as int;
        if rec < 8 || pos + rec > b.len() {
            Seq::empty()
        } else {
            let rest = dir_entries(b, pos + rec);
            if ino != 0 && nl > 0 && pos + 8 + nl <= b.len() {
                seq![(b.subrange(pos + 8, pos + 8 + nl), ino, b[pos + 7])] + rest
            } else {
                rest
            }
        }
    }
}

/// Directory entries as values.
pub open spec fn entry_views(s: Seq<(Vec<u8>, u32, u8)>) -> Seq<(Seq<u8>, u32, u8)> {
    s.map_values(|e: (Vec<u8>, u32, u8)| (e.0@, e.1, e.2))
}

/// The entries of the directory block `b`.
pub fn parse_dir_block(b: &[u8]) -> (r: Vec<(Vec<u8>, u32, u8)>)
    ensures
        entry_views(r@) == dir_entries(b@, 0),
{
    let mut out: Vec<(Vec<u8>, u32, u8)> = Vec::new();
    let mut pos: usize = 0;
    let len: usize = b.len();
    while pos <= len && len - pos >= 8
        invariant
            len == b@.len(),
            pos <= len,
            entry_views(out@) + dir_entries(b@, pos as int) == dir_entries(b@, 0),
        decreases len - pos,
    {
        let ino = read_u32_le(b, pos);
        let rec: usize = read_u16_le(b, pos + 4) as usize;
        let nl: usize = b[pos + 6] as usize;
        let ft: u8 = b[pos + 7];
        if rec < 8 || rec > len - pos {
            assert(dir_entries(b@, pos as int) == Seq::<(Seq<u8>, u32, u8)>::empty());
            assert(entry_views(out@) =~= entry_views(out@) + dir_entries(b@, pos as int));
            return out;
        }
        let ghost before = out@;
        if ino != 0 && nl > 0 && nl <= len - pos - 8 {
            let name = copy_bytes(b, pos + 8, nl);
            out.push((name, ino, ft));
            assert(entry_views(out@) =~= entry_views(before).push((b@.subrange(pos + 8, pos + 8 + nl), ino, ft)));
        }
        pos = pos + rec;
    }
    assert(dir_entries(b@, pos as int) == Seq::<(Seq<u8>, u32, u8)>::empty());
    assert(entry_views(out@) =~= entry_views(out@) + dir_entries(b@, pos as int));
    out
}

/// The entries of logical block `lb` of the directory whose inode bytes
/// are `raw`: none for an unmapped block; `None` when the block cannot be
/// looked up or lies off the disk.
pub open spec fn dir_block(c: Seq<u8>, g: Ext4Geometry, raw: Seq<u8>, lb: int) -> Option<Seq<(Seq<u8>, u32, u8)>> {
    let bs = g.block_size as int;
    match block_map(c, g, raw, lb) {
        Ok(None) => Some(Seq::empty()),
        Ok(Some(p)) => if block_in(c, bs, p as int) {
            Some(dir_entries(c.subrange(p * bs, p * bs + bs), 0))
        } else {
            None
        },
        Err(_) => None,
    }
}

/// The entries of the first `n` blocks of the directory, in order;
/// `None` when one of them cannot be read.
pub open spec fn dir_listing(c: Seq<u8>, g: Ext4Geometry, raw: Seq<u8>, n: nat) -> Option<Seq<(Seq<u8>, u32, u8)>>
    decreases n,
{
    if n == 0 {
        Some(Seq::empty())
    } else {
        match dir_listing(c, g, raw, (n - 1) as nat) {
            Some(prev) => match dir_block(c, g, raw, n - 1) {
                Some(e) => Some(prev + e),
                None => None,
            },
            None => None,
        }
    }
}

/// The blocks a directory of the inode bytes `raw` spans.
pub open spec fn dir_blocks(raw: Seq<u8>, bs: int) -> int {
    (file_size(raw) + bs - 1) / bs
}

/// The inode number of the first entry named `name`, or -1.
pub open spec fn first_named(es: Seq<(Seq<u8>, u32, u8)>, name: Seq<u8>, i: int) -> int
    decreases es.len() - i,
{
    if i < 0 || i >= es.len() { -1 } else if es[i].0 == name { i } else { first_named(es, name, i + 1) }
}

impl<D: Disk> Ext4Fs<D> {
    /// The entries of the directory whose inode bytes are `raw`, block by
    /// block; `EIO` when a block cannot be looked up or read.
    pub fn dir_read_entries(&self, raw: &[u8]) -> (r: Result<Vec<(Vec<u8>, u32, u8)>, VfsError>)
        requires
            raw@.len() >= 112,
            0 < self.geo.block_size <= usize::MAX,
        ensures
            ({
                let c = self.disk.contents();
                let n = dir_blocks(raw@, self.geo.block_size as int);
                &&& r matches Ok(v) ==> dir_listing(c, self.geo, raw@, n as nat) == Some(entry_views(v@))
                &&& r matches Err(e) ==> e == EIO
                &&& self.disk.reliable() && dir_listing(c, self.geo, raw@, n as nat) is Some ==> r is Ok
            }),
    {
        let ghost c = self.disk.contents();
        let ghost g = self.geo;
        let bs = self.geo.block_size;
        let size: u64 = read_u32_le(raw, 4) as u64 + read_u32_le(raw, 108) as u64 * 0x1_0000_0000;
        assert(size == file_size(raw@));
        let q: u64 = size / bs;
        proof {
            let sz = size as int;
            let b = bs as int;
            vstd::arithmetic::div_mod::lemma_fundamental_div_mod(sz, b);
            assert(b * (sz / b) == (sz / b) * b) by (nonlinear_arith);
            if sz % b != 0 {
                assert(b >= 2);
                assert((sz / b) * 2 <= (sz / b) * b) by (nonlinear_arith)
                    requires b >= 2, sz / b >= 0;
            }
        }
        let n: u64 = if size % bs == 0 { q } else { q + 1 };
        proof {
            let sz = size as int;
            let b = bs as int;
            vstd::arithmetic::div_mod::lemma_fundamental_div_mod(sz, b);
            assert(b * (sz / b) == (sz / b) * b) by (nonlinear_arith);
            assert((sz / b + 1) * b == (sz / b) * b + b) by (nonlinear_arith);
            if sz % b == 0 {
                vstd::arithmetic::div_mod::lemma_fundamental_div_mod_converse(sz + b - 1, b, sz / b, b - 1);
            } else {
                vstd::arithmetic::div_mod::lemma_fundamental_div_mod_converse(sz + b - 1, b, sz / b + 1, sz % b - 1);
            }
            assert(n == dir_blocks(raw@, b));
        }
        let mut out: Vec<(Vec<u8>, u32, u8)> = Vec::new();
        let mut lb: u64 = 0;
        while lb < n
            invariant
                c == self.disk.contents(),
                g == self.geo,
                bs == g.block_size,
                0 < bs <= usize::MAX,
                raw@.len() >= 112,
                lb <= n,
                n == dir_blocks(raw@, bs as int),
                dir_listing(c, g, raw@, lb as nat) == Some(entry_views(out@)),
            decreases n - lb,
        {
            let pm = match self.block_lookup(raw, lb) {
                Ok(x) => x,
                Err(_) => {
                    proof {
                        if self.disk.reliable() {
                            lemma_listing_stops(c, g, raw@, (lb + 1) as nat, n as nat);
                        }
                    }
                    return Err(EIO);
                },
            };
            match pm {
                None => {
                    assert(entry_views(out@) + Seq::<(Seq<u8>, u32, u8)>::empty() =~= entry_views(out@));
                },
                Some(p) => {
                    let o = match p.checked_mul(bs) {
                        Some(o) => o,
                        None => {
                            proof { lemma_listing_stops(c, g, raw@, (lb + 1) as nat, n as nat); }
                            return Err(EIO);
                        },
                    };
                    if o > u64::MAX - bs {
                        proof { lemma_listing_stops(c, g, raw@, (lb + 1) as nat, n as nat); }
                        return Err(EIO);
                    }
                    let mut blk = zero_block(bs as usize);
                    if self.disk.read_bytes(o, blk.as_mut_slice()).is_err() {
                        proof {
                            if self.disk.reliable() {
                                lemma_listing_stops(c, g, raw@, (lb + 1) as nat, n as nat);
                            }
                        }
                        return Err(EIO);
                    }
                    let es = parse_dir_block(blk.as_slice());
                    let ghost before = out@;
                    let mut k: usize = 0;
                    while k < es.len()
                        invariant
                            k <= es@.len(),
                            entry_views(out@) == entry_views(before) + entry_views(es@).take(k as int),
                        decreases es@.len() - k,
                    {
                        let e = &es[k];
                        let name = copy_bytes(e.0.as_slice(), 0, e.0.len());
                        let ghost old_out = out@;
                        assert(name@ =~= es@[k as int].0@);
                        out.push((name, e.1, e.2));
                        proof {
                            assert(entry_views(out@) =~= entry_views(old_out).push(entry_views(es@)[k as int]));
                            assert(entry_views(es@).take(k + 1) =~= entry_views(es@).take(k as int).push(entry_views(es@)[k as int]));
                            assert(entry_views(out@) =~= entry_views(before) + entry_views(es@).take(k + 1));
                        }
                        k = k + 1;
                    }
                    assert(entry_views(es@).take(es@.len() as int) =~= entry_views(es@));
                },
            }
            lb = lb + 1;
        }
        Ok(out)
    }

    /// The inode that the first entry named `name` of the directory whose
    /// inode bytes are `raw` names: `ENOENT` when none is, `EIO` when the
    /// directory cannot be read.
    pub fn dir_lookup(&self, raw: &[u8], name: &[u8]) -> (r: Result<u32, VfsError>)
        requires
            raw@.len() >= 112,
            0 < self.geo.block_size <= usize::MAX,
        ensures
            ({
                let c = self.disk.contents();
                let l = dir_listing(c, self.geo, raw@, dir_blocks(raw@, self.geo.block_size as int) as nat);
                &&& r matches Ok(ino) ==> (l is Some && first_named(l->0, name@, 0) >= 0
                    && ino == l->0[first_named(l->0, name@, 0)].1)
                &&& r == Err::<u32, VfsError>(ENOENT) ==> (l is Some && first_named(l->0, name@, 0) == -1)
                &&& r matches Err(e) ==> e == ENOENT || e == EIO
                &&& self.disk.reliable() && l is Some ==> r != Err::<u32, VfsError>(EIO)
            }),
    {
        let es = match self.dir_read_entries(raw) {
            Ok(es) => es,
            Err(e) => {
                return Err(e);
            },
        };
        let ghost v = entry_views(es@);
        let mut i: usize = 0;
        while i < es.len()
            invariant
                i <= es@.len(),
                v == entry_views(es@),
                dir_listing(self.disk.contents(), self.geo, raw@, dir_blocks(raw@, self.geo.block_size as int) as nat)
                    == Some(v),
                first_named(v, name@, 0) == first_named(v, name@, i as int),
            decreases es@.len() - i,
        {
            if bytes_equal(es[i].0.as_slice(), name) {
                assert(v[i as int].0 == name@);
                assert(first_named(v, name@, i as int) == i);
                assert(v[i as int].1 == es@[i as int].1);
                return Ok(es[i].1);
            }
            assert(v[i as int].0 != name@);
            i = i + 1;
        }
        Err(ENOENT)
    }
}

/// Whether `a` and `b` hold the same bytes.
fn bytes_equal(a: &[u8], b: &[u8]) -> (r: bool)
    ensures
        r == (a@ == b@),
{
    if a.len() != b.len() {
        return false;
    }
    let mut i: usize = 0;
    while i < a.len()
        invariant
            a@.len() == b@.len(),
            i <= a@.len(),
            forall|j: int| 0 <= j < i ==> a@[j] == b@[j],
        decreases a@.len() - i,
    {
        if a[i] != b[i] {
            return false;
        }
        i = i + 1;
    }
    assert(a@ =~= b@);
    true
}

/// Once a block cannot be read, no longer listing can be had.
proof fn lemma_listing_stops(c: Seq<u8>, g: Ext4Geometry, raw: Seq<u8>, k: nat, n: nat)
    requires
        k <= n,
        dir_listing(c, g, raw, k) is None,
    ensures
        dir_listing(c, g, raw, n) is None,
    decreases n - k,
{
    if k < n {
        lemma_listing_stops(c, g, raw, k + 1, n);
    }
}

} // verus!
