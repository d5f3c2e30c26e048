//! The JBD2 journal of an ext4 file system: transactions collect block
//! images and revocations; a commit logs a descriptor block, the data
//! blocks, a revoke block if any and a commit block, then advances the
//! log head and checkpoints the transaction.
use vstd::prelude::*;
use std::collections::BTreeMap;

verus! {

broadcast use vstd::std_specs::btree::group_btree_axioms;

pub const JBD2_MAGIC: u32 = 0xC03B3998;
pub const JBD2_SUPERBLOCK_V2: u32 = 4;
pub const JBD2_DESCRIPTOR_BLOCK: u32 = 1;
pub const JBD2_COMMIT_BLOCK: u32 = 2;
pub const JBD2_SUPERBLOCK_V1: u32 = 3;
pub const JBD2_REVOKE_BLOCK: u32 = 5;
pub const JBD2_FLAG_ESCAPE: u16 = 1;
pub const JBD2_FLAG_SAME_UUID: u16 = 2;
pub const JBD2_FLAG_DELETED: u16 = 4;
pub const JBD2_FLAG_LAST_TAG: u16 = 8;
pub const TAG_SIZE: usize = 12;
pub const HEADER_SIZE: usize = 12;
/// Journal blocks are at least this large, so the superblock fits.
pub const MIN_BLOCK_SIZE: u64 = 1024;
pub const MAX_BLOCK_SIZE: u64 = 65536;

/// `d` with `data` written at `off`.
pub open spec fn write_range(d: Seq<u8>, off: int, data: Seq<u8>) -> Seq<u8> {
    d.take(off) + data + d.skip(off + data.len())
}

/// A byte-addressed disk.
pub trait Disk {
    /// The disk's bytes.
    spec fn contents(&self) -> Seq<u8>;

    /// Whether every access within the disk's bytes succeeds.
    spec fn reliable(&self) -> bool;

    fn read_bytes(&self, offset: u64, buf: &mut [u8]) -> (r: Result<(), &'static str>)
        ensures
            final(buf)@.len() == old(buf)@.len(),
            r is Ok ==> offset + old(buf)@.len() <= self.contents().len()
                && final(buf)@ == self.contents().subrange(offset as int, offset + old(buf)@.len()),
            self.reliable() && offset + old(buf)@.len() <= self.contents().len() ==> r is Ok,
    ;

    fn write_bytes(&mut self, offset: u64, data: &[u8]) -> (r: Result<(), &'static str>)
        ensures
            r is Ok ==> offset + data@.len() <= old(self).contents().len()
                && final(self).contents() == write_range(old(self).contents(), offset as int, data@),
            r is Err ==> final(self).contents() == old(self).contents(),
            old(self).reliable() && offset + data@.len() <= old(self).contents().len() ==> r is Ok,
            final(self).reliable() == old(self).reliable(),
    ;

    fn size_bytes(&self) -> (r: u64)
        ensures
            r == self.contents().len(),
    ;
}

/// A disk held in memory.
pub struct MemDisk {
    pub data: Vec<u8>,
}

impl MemDisk {
    pub fn new(data: Vec<u8>) -> (r: MemDisk)
        ensures
            r.data@ == data@,
    {
        MemDisk { data }
    }
}

impl Disk for MemDisk {
    open spec fn contents(&self) -> Seq<u8> {
        self.data@
    }

    open spec fn reliable(&self) -> bool {
        true
    }

    /// Out-of-range reads fail with "OOB read" and leave `buf` as it was.
    fn read_bytes(&self, offset: u64, buf: &mut [u8]) -> (r: Result<(), &'static str>)
        ensures
            r is Ok <==> offset + old(buf)@.len() <= self.data@.len(),
            r is Err ==> final(buf)@ == old(buf)@,
    {
        let len = buf.len();
        if offset as u128 + len as u128 > self.data.len() as u128 {
            return Err("OOB read");
        }
        let start = offset as usize;
        let mut k: usize = 0;
        while k < len
            invariant
                k <= len,
                len == buf@.len(),
                start + len <= self.data@.len(),
                self.data@.len() <= usize::MAX,
                start == offset,
                forall|i: int| 0 <= i < k ==> #[trigger] buf@[i] == self.data@[start + i],
            decreases len - k,
        {
            buf[k] = self.data[start + k];
            k = k + 1;
        }
        assert(buf@ =~= self.data@.subrange(offset as int, offset + len));
        Ok(())
    }

    /// Out-of-range writes fail with "OOB write" and change nothing.
    fn write_bytes(&mut self, offset: u64, data: &[u8]) -> (r: Result<(), &'static str>)
        ensures
            r is Ok <==> offset + data@.len() <= old(self).data@.len(),
    {
        let len = data.len();
        if offset as u128 + len as u128 > self.data.len() as u128 {
            return Err("OOB write");
        }
        let start = offset as usize;
        let ghost before = self.data@;
        let mut k: usize = 0;
        while k < len
            invariant
                k <= len,
                len == data@.len(),
                start == offset,
                start + len <= self.data@.len(),
                self.data@.len() <= usize::MAX,
                self.data@.len() == before.len(),
                forall|i: int| 0 <= i < self.data@.len() ==> #[trigger] self.data@[i]
                    == if start <= i < start + k { data@[i - start] } else { before[i] },
            decreases len - k,
        {
            self.data.set(start + k, data[k]);
            k = k + 1;
        }
        assert(self.data@ =~= write_range(before, offset as int, data@));
        Ok(())
    }

    fn size_bytes(&self) -> (r: u64) {
        self.data.len() as u64
    }
}

// ── Block images ────────────────────────────────────────────────────────

pub open spec fn be32(x: u32) -> Seq<u8> {
    seq![(x >> 24u32) as u8, (x >> 16u32) as u8, (x >> 8u32) as u8, x as u8]
}

pub open spec fn be16(x: u16) -> Seq<u8> {
    seq![(x >> 8u16) as u8, x as u8]
}

pub open spec fn be64(x: u64) -> Seq<u8> {
    seq![(x >> 56u64) as u8, (x >> 48u64) as u8, (x >> 40u64) as u8, (x >> 32u64) as u8,
        (x >> 24u64) as u8, (x >> 16u64) as u8, (x >> 8u64) as u8, x as u8]
}

pub open spec fn le32(x: u32) -> Seq<u8> {
    seq![x as u8, (x >> 8u32) as u8, (x >> 16u32) as u8, (x >> 24u32) as u8]
}

/// A block header: magic, block type and sequence, big-endian.
pub open spec fn header(blocktype: u32, seq: u32) -> Seq<u8> {
    be32(JBD2_MAGIC) + be32(blocktype) + be32(seq)
}

pub open spec fn zeros(n: nat) -> Seq<u8> {
    Seq::new(n, |i: int| 0u8)
}

/// The tag of block `key`: the low 32 bits, the flags, the high 16 bits,
/// and a zero checksum.
pub open spec fn tag(key: u64, flags: u16) -> Seq<u8> {
    be32(key as u32) + be16(flags) + be16((key >> 32u64) as u16) + be32(0)
}

/// The flags of the tag of the `bi`-th of `n` blocks, `esc` when its
/// logged copy had the magic bytes zeroed.
pub open spec fn tag_flags(bi: int, n: int, esc: bool) -> u16 {
    let f: u16 = if bi > 0 { JBD2_FLAG_SAME_UUID } else { 0 };
    let g: u16 = if bi == n - 1 { f | JBD2_FLAG_LAST_TAG } else { f };
    if esc { g | JBD2_FLAG_ESCAPE } else { g }
}

/// The descriptor block with the tags of `keys[bi..]` written from
/// `off`: each tag takes 12 bytes, the first is followed by a 16-byte UUID
/// slot, and the tags stop at the first that would not fit.
#[verifier::opaque]
pub open spec fn desc_tags(b: Seq<u8>, keys: Seq<u64>, escs: Seq<bool>, bi: int, off: int) -> Seq<u8>
    decreases keys.len() - bi,
{
    if bi < 0 || bi >= keys.len() || off + TAG_SIZE > b.len() {
        b
    } else {
        let b2 = write_range(b, off, tag(keys[bi], tag_flags(bi, keys.len() as int, escs[bi])));
        let next = off + TAG_SIZE + if bi == 0 { 16int } else { 0int };
        desc_tags(b2, keys, escs, bi + 1, next)
    }
}

proof fn lemma_desc_tags_unfold(b: Seq<u8>, keys: Seq<u64>, escs: Seq<bool>, bi: int, off: int)
    ensures
        desc_tags(b, keys, escs, bi, off) == if bi < 0 || bi >= keys.len() || off + TAG_SIZE > b.len() {
            b
        } else {
            desc_tags(write_range(b, off, tag(keys[bi], tag_flags(bi, keys.len() as int, escs[bi]))), keys, escs, bi + 1,
                off + TAG_SIZE + if bi == 0 { 16int } else { 0int })
        },
{
    reveal(desc_tags);
}

pub open spec fn desc_block(seq: u32, keys: Seq<u64>, escs: Seq<bool>, bs: nat) -> Seq<u8> {
    desc_tags(write_range(zeros(bs), 0, header(JBD2_DESCRIPTOR_BLOCK, seq)), keys, escs, 0, HEADER_SIZE as int)
}

/// A block image padded with zeros or cut to the block size.
pub open spec fn padded(data: Seq<u8>, bs: nat) -> Seq<u8> {
    if data.len() >= bs { data.take(bs as int) } else { data + zeros((bs - data.len()) as nat) }
}

/// Whether the block image starts with the journal magic, which the log
/// must not hold at a data block's start.
pub open spec fn needs_escape(data: Seq<u8>, bs: nat) -> bool {
    let d = padded(data, bs);
    d.len() >= 4 && d.take(4) == be32(JBD2_MAGIC)
}

/// A data block as logged: padded with zeros or cut to the block size, and
/// with its first four bytes zeroed when they spell the journal magic.
pub open spec fn data_block(data: Seq<u8>, bs: nat) -> Seq<u8> {
    let d = padded(data, bs);
    if needs_escape(data, bs) { write_range(d, 0, zeros(4)) } else { d }
}

/// A logged block as it was before logging: the magic put back at its
/// start where the tag says it was escaped.
pub open spec fn unescape(b: Seq<u8>, esc: bool) -> Seq<u8> {
    if esc && b.len() >= 4 { write_range(b, 0, be32(JBD2_MAGIC)) } else { b }
}

#[verifier::opaque]
pub open spec fn revoke_entries(b: Seq<u8>, revoked: Seq<u64>, i: int) -> Seq<u8>
    decreases revoked.len() - i,
{
    if i < 0 || i >= revoked.len() || 16 + i * 8 + 8 > b.len() {
        b
    } else {
        revoke_entries(write_range(b, 16 + i * 8, be64(revoked[i])), revoked, i + 1)
    }
}

/// The revoke block: the header, the byte count (at most the block size)
/// and as many revoked block numbers as fit.
pub open spec fn revoke_block(seq: u32, revoked: Seq<u64>, bs: nat) -> Seq<u8> {
    let count: int = if 12 + revoked.len() * 8 <= bs { (12 + revoked.len() * 8) as int } else { bs as int };
    revoke_entries(write_range(write_range(zeros(bs), 0, header(JBD2_REVOKE_BLOCK, seq)), 12, be32(count as u32)), revoked, 0)
}

// ── CRC-32C (Castagnoli, reflected) ─────────────────────────────────────

/// One shift of the reflected CRC-32C register (polynomial 0x82F63B78).
pub open spec fn crc32c_bit(c: u32) -> u32 {
    if c & 1 != 0 { (c >> 1u32) ^ 0x82F6_3B78u32 } else { c >> 1u32 }
}

pub open spec fn crc32c_bits(c: u32, k: nat) -> u32
    decreases k,
{
    if k == 0 { c } else { crc32c_bit(crc32c_bits(c, (k - 1) as nat)) }
}

/// The register after the first `n` bytes of `data`, from `c`.
pub open spec fn crc32c_fold(c: u32, data: Seq<u8>, n: nat) -> u32
    decreases n,
{
    if n == 0 { c } else { crc32c_bits(crc32c_fold(c, data, (n - 1) as nat) ^ (data[n - 1] as u32), 8) }
}

/// The CRC-32C of `data` continued from the checksum `crc`.
pub open spec fn spec_crc32c(crc: u32, data: Seq<u8>) -> u32 {
    !crc32c_fold(!crc, data, data.len())
}

pub fn crc32c(crc: u32, data: &[u8]) -> (r: u32)
    ensures
        r == spec_crc32c(crc, data@),
{
    let mut c: u32 = !crc;
    let mut i: usize = 0;
    while i < data.len()
        invariant
            i <= data@.len(),
            c == crc32c_fold(!crc, data@, i as nat),
        decreases data@.len() - i,
    {
        let x: u32 = c ^ (data[i] as u32);
        let mut v: u32 = x;
        let mut j: usize = 0;
        while j < 8
            invariant
                j <= 8,
                v == crc32c_bits(x, j as nat),
            decreases 8 - j,
        {
            v = if v & 1 != 0 { (v >> 1u32) ^ 0x82F6_3B78u32 } else { v >> 1u32 };
            j = j + 1;
        }
        c = v;
        i = i + 1;
    }
    !c
}

/// The commit block: the header, then the checksum of the header,
/// little-endian.
pub open spec fn commit_block(seq: u32, bs: nat) -> Seq<u8> {
    write_range(write_range(zeros(bs), 0, header(JBD2_COMMIT_BLOCK, seq)), 12,
        le32(spec_crc32c(0xFFFF_FFFF, header(JBD2_COMMIT_BLOCK, seq))))
}


/// The journal superblock as written back: magic, type, block size,
/// length, first and last block, head and oldest sequence, then the
/// checksum of its first 1020 bytes.
pub open spec fn sb_fields(bs: nat, len: u32, head: u32, tail: u32) -> Seq<u8> {
    let b0 = write_range(zeros(bs), 0, be32(JBD2_MAGIC));
    let b1 = write_range(b0, 4, be32(JBD2_SUPERBLOCK_V2));
    let b2 = write_range(b1, 12, be32(bs as u32));
    let b3 = write_range(b2, 16, be32(len));
    let b4 = write_range(b3, 20, be32(1));
    let b5 = write_range(b4, 24, be32(len));
    let b6 = write_range(b5, 28, be32(head));
    write_range(b6, 84, be32(tail))
}

pub open spec fn sb_block(bs: nat, len: u32, head: u32, tail: u32) -> Seq<u8> {
    let f = sb_fields(bs, len, head, tail);
    write_range(f, 88, le32(spec_crc32c(0xFFFF_FFFF, f.take(1020))))
}

// ── Building blocks ─────────────────────────────────────────────────────

pub(crate) fn zero_block(n: usize) -> (r: Vec<u8>)
    ensures
        r@ == zeros(n as nat),
{
    let mut v: Vec<u8> = Vec::new();
    while v.len() < n
        invariant
            v@.len() <= n,
            forall|i: int| 0 <= i < v@.len() ==> #[trigger] v@[i] == 0u8,
        decreases n - v@.len(),
    {
        v.push(0u8);
    }
    assert(v@ =~= zeros(n as nat));
    v
}

fn put_bytes(b: &mut Vec<u8>, off: usize, bytes: &[u8])
    requires
        off + bytes@.len() <= old(b)@.len(),
    ensures
        final(b)@ == write_range(old(b)@, off as int, bytes@),
{
    let ghost before = b@;
    let n = bytes.len();
    let bl = b.len();
    let mut k: usize = 0;
    while k < n
        invariant
            k <= n,
            bl == b@.len(),
            n == bytes@.len(),
            off + n <= b@.len(),
            b@.len() == before.len(),
            before == old(b)@,
            forall|i: int| 0 <= i < b@.len() ==> #[trigger] b@[i] == if off <= i < off + k { bytes@[i - off] } else { before[i] },
        decreases n - k,
    {
        b.set(off + k, bytes[k]);
        k = k + 1;
    }
    assert(b@ =~= write_range(before, off as int, bytes@));
}

fn be32_bytes(x: u32) -> (r: [u8; 4])
    ensures
        r@ == be32(x),
{
    let r = [#[verifier::truncate] ((x >> 24u32) as u8), #[verifier::truncate] ((x >> 16u32) as u8),
        #[verifier::truncate] ((x >> 8u32) as u8), #[verifier::truncate] (x as u8)];
    assert(r@ =~= be32(x));
    r
}

fn be16_bytes(x: u16) -> (r: [u8; 2])
    ensures
        r@ == be16(x),
{
    let r = [#[verifier::truncate] ((x >> 8u16) as u8), #[verifier::truncate] (x as u8)];
    assert(r@ =~= be16(x));
    r
}

fn be64_bytes(x: u64) -> (r: [u8; 8])
    ensures
        r@ == be64(x),
{
    let r = [#[verifier::truncate] ((x >> 56u64) as u8), #[verifier::truncate] ((x >> 48u64) as u8),
        #[verifier::truncate] ((x >> 40u64) as u8), #[verifier::truncate] ((x >> 32u64) as u8),
        #[verifier::truncate] ((x >> 24u64) as u8), #[verifier::truncate] ((x >> 16u64) as u8),
        #[verifier::truncate] ((x >> 8u64) as u8), #[verifier::truncate] (x as u8)];
    assert(r@ =~= be64(x));
    r
}

fn le32_bytes(x: u32) -> (r: [u8; 4])
    ensures
        r@ == le32(x),
{
    let r = [#[verifier::truncate] (x as u8), #[verifier::truncate] ((x >> 8u32) as u8),
        #[verifier::truncate] ((x >> 16u32) as u8), #[verifier::truncate] ((x >> 24u32) as u8)];
    assert(r@ =~= le32(x));
    r
}

fn put_header(b: &mut Vec<u8>, blocktype: u32, seq: u32)
    requires
        old(b)@.len() >= 12,
    ensures
        final(b)@ == write_range(old(b)@, 0, header(blocktype, seq)),
{
    let ghost before = b@;
    put_bytes(b, 0, &be32_bytes(JBD2_MAGIC));
    put_bytes(b, 4, &be32_bytes(blocktype));
    put_bytes(b, 8, &be32_bytes(seq));
    assert(b@ =~= write_range(before, 0, header(blocktype, seq)));
}

/// The descriptor block for the blocks `keys` of transaction `seq`, the
/// escape flag set on the tags where `escs` says so.
#[verifier::rlimit(30)]
pub fn build_descriptor(seq: u32, keys: &[u64], escs: &[bool], bs: usize) -> (r: Vec<u8>)
    requires
        12 <= bs <= MAX_BLOCK_SIZE,
        escs@.len() == keys@.len(),
    ensures
        r@.len() == bs,
        r@ == desc_block(seq, keys@, escs@, bs as nat),
{
    let mut b = zero_block(bs);
    put_header(&mut b, JBD2_DESCRIPTOR_BLOCK, seq);
    let n = keys.len();
    let mut tag_off: usize = HEADER_SIZE;
    let mut bi: usize = 0;
    let ghost start = b@;
    proof {
        lemma_desc_tags_unfold(b@, keys@, escs@, n as int, tag_off as int);
    }
    while bi < n
        invariant
            bi <= n,
            n == keys@.len(),
            escs@.len() == n,
            b@.len() == bs,
            bs <= MAX_BLOCK_SIZE,
            tag_off <= bs + TAG_SIZE + 16,
            bi > 0 ==> tag_off >= 28,
            desc_tags(start, keys@, escs@, 0, HEADER_SIZE as int) == desc_tags(b@, keys@, escs@, bi as int, tag_off as int),
            desc_tags(b@, keys@, escs@, n as int, tag_off as int) == b@,
        ensures
            desc_tags(start, keys@, escs@, 0, HEADER_SIZE as int) == b@,
        decreases n - bi,
    {
        let mut flags: u16 = if bi > 0 { JBD2_FLAG_SAME_UUID } else { 0 };
        if bi == n - 1 {
            flags = flags | JBD2_FLAG_LAST_TAG;
        }
        if escs[bi] {
            flags = flags | JBD2_FLAG_ESCAPE;
        }
        if tag_off + TAG_SIZE > bs {
            proof {
                lemma_desc_tags_unfold(b@, keys@, escs@, bi as int, tag_off as int);
            }
            break;
        }
        proof {
            lemma_desc_tags_unfold(b@, keys@, escs@, bi as int, tag_off as int);
        }
        let key = keys[bi];
        let ghost before = b@;
        put_bytes(&mut b, tag_off, &be32_bytes(#[verifier::truncate] (key as u32)));
        put_bytes(&mut b, tag_off + 4, &be16_bytes(flags));
        put_bytes(&mut b, tag_off + 6, &be16_bytes(#[verifier::truncate] ((key >> 32u64) as u16)));
        put_bytes(&mut b, tag_off + 8, &be32_bytes(0));
        assert(b@ =~= write_range(before, tag_off as int, tag(key, tag_flags(bi as int, n as int, escs@[bi as int]))));
        tag_off = tag_off + TAG_SIZE;
        if bi == 0 {
            tag_off = tag_off + 16;
        }
        bi = bi + 1;
        proof {
            lemma_desc_tags_unfold(b@, keys@, escs@, n as int, tag_off as int);
        }
    }
    proof {
        lemma_desc_tags_unfold(b@, keys@, escs@, bi as int, tag_off as int);
    }
    b
}


proof fn lemma_revoke_entries_unfold(b: Seq<u8>, revoked: Seq<u64>, i: int)
    ensures
        revoke_entries(b, revoked, i) == if i < 0 || i >= revoked.len() || 16 + i * 8 + 8 > b.len() {
            b
        } else {
            revoke_entries(write_range(b, 16 + i * 8, be64(revoked[i])), revoked, i + 1)
        },
{
    reveal(revoke_entries);
}

/// A data block as it goes into the log.
pub fn build_data(data: &[u8], bs: usize) -> (r: Vec<u8>)
    requires
        4 <= bs <= MAX_BLOCK_SIZE,
    ensures
        r@.len() == bs,
        r@ == data_block(data@, bs as nat),
{
    let mut d: Vec<u8> = Vec::new();
    let mut k: usize = 0;
    while k < bs
        invariant
            k <= bs,
            d@.len() == k,
            forall|i: int| 0 <= i < k ==> #[trigger] d@[i] == if i < data@.len() { data@[i] } else { 0u8 },
        decreases bs - k,
    {
        if k < data.len() {
            d.push(data[k]);
        } else {
            d.push(0u8);
        }
        k = k + 1;
    }
    assert(d@ =~= padded(data@, bs as nat));
    let m = be32_bytes(JBD2_MAGIC);
    if d[0] == m[0] && d[1] == m[1] && d[2] == m[2] && d[3] == m[3] {
        assert(d@.take(4) =~= be32(JBD2_MAGIC));
        put_bytes(&mut d, 0, &[0u8, 0u8, 0u8, 0u8]);
        assert(seq![0u8, 0u8, 0u8, 0u8] =~= zeros(4));
    } else {
        assert(d@.take(4) != be32(JBD2_MAGIC)) by {
            if d@.take(4) == be32(JBD2_MAGIC) {
                assert(d@.take(4)[0] == m@[0] && d@.take(4)[1] == m@[1] && d@.take(4)[2] == m@[2] && d@.take(4)[3] == m@[3]);
            }
        }
    }
    d
}

/// Whether `data`, as a block of `bs` bytes, starts with the journal magic.
pub fn starts_with_magic(data: &[u8], bs: usize) -> (r: bool)
    requires
        4 <= bs,
    ensures
        r == needs_escape(data@, bs as nat),
{
    let m = be32_bytes(JBD2_MAGIC);
    let ghost d = padded(data@, bs as nat);
    let n = data.len();
    let b0: u8 = if n > 0 { data[0] } else { 0 };
    let b1: u8 = if n > 1 { data[1] } else { 0 };
    let b2: u8 = if n > 2 { data[2] } else { 0 };
    let b3: u8 = if n > 3 { data[3] } else { 0 };
    proof {
        assert(d.len() == bs);
        assert(d.take(4)[0] == b0 && d.take(4)[1] == b1 && d.take(4)[2] == b2 && d.take(4)[3] == b3);
    }
    if b0 == m[0] && b1 == m[1] && b2 == m[2] && b3 == m[3] {
        assert(d.take(4) =~= be32(JBD2_MAGIC));
        true
    } else {
        proof {
            if d.take(4) == be32(JBD2_MAGIC) {
                assert(d.take(4)[0] == m@[0] && d.take(4)[1] == m@[1] && d.take(4)[2] == m@[2] && d.take(4)[3] == m@[3]);
            }
        }
        false
    }
}

/// The revoke block for transaction `seq`.
pub fn build_revoke(seq: u32, revoked: &[u64], bs: usize) -> (r: Vec<u8>)
    requires
        16 <= bs <= MAX_BLOCK_SIZE,
        12 + revoked@.len() * 8 <= usize::MAX,
    ensures
        r@.len() == bs,
        r@ == revoke_block(seq, revoked@, bs as nat),
{
    let mut b = zero_block(bs);
    put_header(&mut b, JBD2_REVOKE_BLOCK, seq);
    let n = revoked.len();
    let count: usize = if 12 + n * 8 <= bs { 12 + n * 8 } else { bs };
    put_bytes(&mut b, 12, &be32_bytes(count as u32));
    let ghost start = b@;
    let mut i: usize = 0;
    proof {
        lemma_revoke_entries_unfold(b@, revoked@, n as int);
    }
    while i < n
        invariant
            i <= n,
            n == revoked@.len(),
            12 + n * 8 <= usize::MAX,
            b@.len() == bs,
            bs <= MAX_BLOCK_SIZE,
            revoke_entries(start, revoked@, 0) == revoke_entries(b@, revoked@, i as int),
            revoke_entries(b@, revoked@, n as int) == b@,
        ensures
            revoke_entries(start, revoked@, 0) == b@,
        decreases n - i,
    {
        proof {
            lemma_revoke_entries_unfold(b@, revoked@, i as int);
        }
        let off = 16 + i * 8;
        if off > bs || bs - off < 8 {
            break;
        }
        put_bytes(&mut b, off, &be64_bytes(revoked[i]));
        i = i + 1;
        proof {
            lemma_revoke_entries_unfold(b@, revoked@, n as int);
        }
    }
    b
}

/// The commit block for transaction `seq`.
pub fn build_commit(seq: u32, bs: usize) -> (r: Vec<u8>)
    requires
        16 <= bs <= MAX_BLOCK_SIZE,
    ensures
        r@.len() == bs,
        r@ == commit_block(seq, bs as nat),
{
    let mut b = zero_block(bs);
    put_header(&mut b, JBD2_COMMIT_BLOCK, seq);
    let h = vstd::slice::slice_subrange(b.as_slice(), 0, 12);
    assert(h@ =~= header(JBD2_COMMIT_BLOCK, seq));
    let crc = crc32c(0xFFFF_FFFF, h);
    put_bytes(&mut b, 12, &le32_bytes(crc));
    b
}

/// The superblock image for the journal's current state.
pub fn build_superblock(bs: usize, len: u32, head: u32, tail: u32) -> (r: Vec<u8>)
    requires
        MIN_BLOCK_SIZE <= bs <= MAX_BLOCK_SIZE,
    ensures
        r@ == sb_block(bs as nat, len, head, tail),
{
    let mut b = zero_block(bs);
    put_bytes(&mut b, 0, &be32_bytes(JBD2_MAGIC));
    put_bytes(&mut b, 4, &be32_bytes(JBD2_SUPERBLOCK_V2));
    put_bytes(&mut b, 12, &be32_bytes(bs as u32));
    put_bytes(&mut b, 16, &be32_bytes(len));
    put_bytes(&mut b, 20, &be32_bytes(1));
    put_bytes(&mut b, 24, &be32_bytes(len));
    put_bytes(&mut b, 28, &be32_bytes(head));
    put_bytes(&mut b, 84, &be32_bytes(tail));
    assert(b@ == sb_fields(bs as nat, len, head, tail));
    let f = vstd::slice::slice_subrange(b.as_slice(), 0, 1020);
    let crc = crc32c(0xFFFF_FFFF, f);
    put_bytes(&mut b, 88, &le32_bytes(crc));
    b
}


// ── The journal ─────────────────────────────────────────────────────────

/// The blocks of a transaction in block-number order, as
/// `BTreeMap::iter` yields them.
pub uninterp spec fn sorted_entries(m: Map<u64, Vec<u8>>) -> Seq<(u64, Vec<u8>)>;

/// `s` lists the blocks of `m` in increasing block order, each once, with
/// its image.
pub open spec fn in_block_order(m: Map<u64, Vec<u8>>, s: Seq<(u64, Vec<u8>)>) -> bool {
    &&& s.len() == m.len()
    &&& forall|i: int| 0 <= i < s.len() ==> #[trigger] m.contains_key(s[i].0) && m[s[i].0]@ == s[i].1@
    &&& forall|i: int, j: int| 0 <= i < j < s.len() ==> #[trigger] s[i].0 < #[trigger] s[j].0
}

/// The entries of `m` through `BTreeMap::iter`, which the standard library
/// documents as visiting them in increasing key order: each key once, with
/// a copy of its value.
#[verifier::external_body]
fn block_entries(m: &BTreeMap<u64, Vec<u8>>) -> (r: Vec<(u64, Vec<u8>)>)
    ensures
        r@ == sorted_entries(m@),
        in_block_order(m@, r@),
{
    let mut v: Vec<(u64, Vec<u8>)> = Vec::new();
    for (k, d) in m.iter() {
        v.push((*k, d.clone()));
    }
    v
}

/// The big-endian 32-bit value at `off`.
pub open spec fn be32_at(b: Seq<u8>, off: int) -> int {
    b[off] * 0x100_0000 + b[off + 1] * 0x1_0000 + b[off + 2] * 0x100 + b[off + 3]
}

/// The big-endian 16-bit value at `off`.
pub open spec fn be16_at(b: Seq<u8>, off: int) -> int {
    b[off] * 0x100 + b[off + 1]
}

/// The tags of a descriptor block read from byte `off` on: each gives the
/// filesystem block, the tag flags and a zero sequence. A tag with the
/// last-tag flag ends the list; a tag without the same-uuid flag is
/// followed by a 16-byte uuid.
pub open spec fn parse_tags(b: Seq<u8>, off: int) -> Seq<(u64, u32, u32)>
    decreases b.len() - off,
{
    if off < 0 || off + TAG_SIZE > b.len() {
        Seq::empty()
    } else {
        let blk = (be32_at(b, off) + be16_at(b, off + 6) * 0x1_0000_0000) as u64;
        let flags = be16_at(b, off + 4) as u32;
        let t = seq![(blk, flags, 0u32)];
        if flags & (JBD2_FLAG_LAST_TAG as u32) != 0 {
            t
        } else {
            let next = off + TAG_SIZE + if flags & (JBD2_FLAG_SAME_UUID as u32) == 0 { 16int } else { 0int };
            if next > b.len() { t } else { t + parse_tags(b, next) }
        }
    }
}

/// Byte-order facts the descriptor codec rests on.
proof fn lemma_byte_codec()
    by (bit_vector)
    ensures
        forall|x: u32| #![trigger (x >> 24u32) as u8]
            ((x >> 24u32) as u8) as u32 * 0x100_0000u32 + ((x >> 16u32) as u8) as u32 * 0x1_0000u32
                + ((x >> 8u32) as u8) as u32 * 0x100u32 + (x as u8) as u32 == x,
        forall|x: u16| #![trigger (x >> 8u16) as u8]
            ((x >> 8u16) as u8) as u16 * 0x100u16 + (x as u8) as u16 == x,
        forall|k: u64| #![trigger (k >> 32u64) as u16]
            k < 0x1_0000_0000_0000u64 ==> (k as u32) as u64 + ((k >> 32u64) as u16) as u64 * 0x1_0000_0000u64 == k,
        0u16 | 8u16 == 8u16,
        2u16 | 8u16 == 10u16,
        0u16 | 1u16 == 1u16,
        2u16 | 1u16 == 3u16,
        8u16 | 1u16 == 9u16,
        10u16 | 1u16 == 11u16,
        9u32 & 8u32 != 0u32,
        11u32 & 8u32 != 0u32,
        1u32 & 8u32 == 0u32,
        3u32 & 8u32 == 0u32,
        1u32 & 2u32 == 0u32,
        3u32 & 2u32 != 0u32,
        0u32 & 1u32 == 0u32,
        1u32 & 1u32 != 0u32,
        2u32 & 1u32 == 0u32,
        3u32 & 1u32 != 0u32,
        8u32 & 1u32 == 0u32,
        9u32 & 1u32 != 0u32,
        10u32 & 1u32 == 0u32,
        11u32 & 1u32 != 0u32,
        8u32 & 8u32 != 0u32,
        10u32 & 8u32 != 0u32,
        2u32 & 8u32 == 0u32,
        0u32 & 8u32 == 0u32,
        0u32 & 2u32 == 0u32,
        2u32 & 2u32 != 0u32,
{
}

/// Where the `j`-th tag of a descriptor block starts: the first right
/// after the header, the others after it and its 16-byte uuid slot.
pub open spec fn tag_off(j: int) -> int {
    if j == 0 { HEADER_SIZE as int } else { 28 + 12 * j }
}

proof fn lemma_desc_tags_frame(b: Seq<u8>, keys: Seq<u64>, escs: Seq<bool>, bi: int)
    requires
        0 <= bi,
    ensures
        desc_tags(b, keys, escs, bi, tag_off(bi)).len() == b.len(),
        forall|i: int| 0 <= i < tag_off(bi) ==> #[trigger] desc_tags(b, keys, escs, bi, tag_off(bi))[i] == b[i],
        forall|j: int| bi <= j < keys.len() && tag_off(j) + TAG_SIZE <= b.len()
            ==> #[trigger] desc_tags(b, keys, escs, bi, tag_off(bi)).subrange(tag_off(j), tag_off(j) + TAG_SIZE)
                == tag(keys[j], tag_flags(j, keys.len() as int, escs[j])),
    decreases keys.len() - bi,
{
    let off = tag_off(bi);
    lemma_desc_tags_unfold(b, keys, escs, bi, off);
    if bi >= keys.len() || off + TAG_SIZE > b.len() {
        assert forall|j: int| bi <= j < keys.len() && tag_off(j) + TAG_SIZE <= b.len() implies false by {
            assert(tag_off(j) >= off);
        }
    } else {
        let t = tag(keys[bi], tag_flags(bi, keys.len() as int, escs[bi]));
        let b2 = write_range(b, off, t);
        assert(t.len() == TAG_SIZE);
        assert(b2.len() == b.len());
        assert(tag_off(bi + 1) == off + TAG_SIZE + if bi == 0 { 16int } else { 0int });
        lemma_desc_tags_frame(b2, keys, escs, bi + 1);
        let r = desc_tags(b, keys, escs, bi, off);
        assert(r == desc_tags(b2, keys, escs, bi + 1, tag_off(bi + 1)));
        assert forall|i: int| 0 <= i < off implies #[trigger] r[i] == b[i] by {
            assert(r[i] == b2[i]);
        }
        assert(r.subrange(off, off + TAG_SIZE) =~= t) by {
            assert forall|k: int| 0 <= k < TAG_SIZE implies r[off + k] == t[k] by {
                assert(r[off + k] == b2[off + k]);
            }
        }
    }
}

proof fn lemma_parse_desc(r: Seq<u8>, keys: Seq<u64>, escs: Seq<bool>, bi: int)
    requires
        0 <= bi < keys.len(),
        escs.len() == keys.len(),
        tag_off(keys.len() - 1) + TAG_SIZE <= r.len(),
        forall|j: int| 0 <= j < keys.len() ==> #[trigger] keys[j] < 0x1_0000_0000_0000u64,
        forall|j: int| 0 <= j < keys.len() ==> #[trigger] r.subrange(tag_off(j), tag_off(j) + TAG_SIZE)
            == tag(keys[j], tag_flags(j, keys.len() as int, escs[j])),
    ensures
        parse_tags(r, tag_off(bi)) == Seq::new((keys.len() - bi) as nat,
            |k: int| (keys[bi + k], tag_flags(bi + k, keys.len() as int, escs[bi + k]) as u32, 0u32)),
    decreases keys.len() - bi,
{
    let n = keys.len() as int;
    let off = tag_off(bi);
    let key = keys[bi];
    let fl = tag_flags(bi, n, escs[bi]);
    let t = tag(key, fl);
    assert(r.subrange(off, off + TAG_SIZE) == t);
    assert(tag_off(bi) <= tag_off(n - 1));
    assert forall|k: int| 0 <= k < TAG_SIZE implies r[off + k] == #[trigger] t[k] by {
        assert(r.subrange(off, off + TAG_SIZE)[k] == r[off + k]);
    }
    lemma_byte_codec();
    let lo = key as u32;
    let hi = (key >> 32u64) as u16;
    assert(be32_at(r, off) == lo) by {
        assert(r[off] == t[0] && t[0] == (lo >> 24u32) as u8);
        assert(r[off + 1] == t[1] && t[1] == (lo >> 16u32) as u8);
        assert(r[off + 2] == t[2] && t[2] == (lo >> 8u32) as u8);
        assert(r[off + 3] == t[3] && t[3] == lo as u8);
    }
    assert(be16_at(r, off + 4) == fl) by {
        assert(r[off + 4] == t[4] && t[4] == (fl >> 8u16) as u8);
        assert(r[off + 5] == t[5] && t[5] == fl as u8);
    }
    assert(be16_at(r, off + 6) == hi) by {
        assert(r[off + 6] == t[6] && t[6] == (hi >> 8u16) as u8);
        assert(r[off + 7] == t[7] && t[7] == hi as u8);
    }
    assert((lo + hi * 0x1_0000_0000) as u64 == key);
    let flags = be16_at(r, off + 4) as u32;
    assert(flags == fl as u32);
    let want = Seq::new((n - bi) as nat, |k: int| (keys[bi + k], tag_flags(bi + k, n, escs[bi + k]) as u32, 0u32));
    if bi == n - 1 {
        assert(fl == 8u16 || fl == 10u16 || fl == 9u16 || fl == 11u16);
        assert(flags & (JBD2_FLAG_LAST_TAG as u32) != 0);
        assert(parse_tags(r, off) =~= want);
    } else {
        assert(fl == 0u16 || fl == 2u16 || fl == 1u16 || fl == 3u16);
        assert(flags & (JBD2_FLAG_LAST_TAG as u32) == 0);
        assert(bi == 0 ==> (fl == 0u16 || fl == 1u16) && flags & (JBD2_FLAG_SAME_UUID as u32) == 0);
        assert(bi > 0 ==> (fl == 2u16 || fl == 3u16) && flags & (JBD2_FLAG_SAME_UUID as u32) != 0);
        let next = off + TAG_SIZE + if flags & (JBD2_FLAG_SAME_UUID as u32) == 0 { 16int } else { 0int };
        assert(next == tag_off(bi + 1));
        assert(tag_off(bi + 1) <= tag_off(n - 1));
        lemma_parse_desc(r, keys, escs, bi + 1);
        assert(parse_tags(r, off) =~= want);
    }
}

/// Reading back a descriptor block gives the blocks it was built for, in
/// order, with their flags (escape included), when all their tags fit in the block and each block number fits
/// in the tag's 48 bits.
pub proof fn law_descriptor_roundtrip(seq: u32, keys: Seq<u64>, escs: Seq<bool>, bs: nat)
    requires
        1 <= keys.len(),
        escs.len() == keys.len(),
        28 + 12 * keys.len() <= bs,
        forall|j: int| 0 <= j < keys.len() ==> #[trigger] keys[j] < 0x1_0000_0000_0000u64,
    ensures
        parse_tags(desc_block(seq, keys, escs, bs), HEADER_SIZE as int)
            == Seq::new(keys.len(), |k: int| (keys[k], tag_flags(k, keys.len() as int, escs[k]) as u32, 0u32)),
{
    let b = write_range(zeros(bs), 0, header(JBD2_DESCRIPTOR_BLOCK, seq));
    assert(b.len() == bs);
    lemma_desc_tags_frame(b, keys, escs, 0);
    let r = desc_block(seq, keys, escs, bs);
    assert(forall|j: int| 0 <= j < keys.len() ==> #[trigger] tag_off(j) + TAG_SIZE <= tag_off(keys.len() - 1) + TAG_SIZE);
    lemma_parse_desc(r, keys, escs, 0);
    assert(Seq::new((keys.len() - 0) as nat, |k: int| (keys[0 + k], tag_flags(0 + k, keys.len() as int, escs[0 + k]) as u32, 0u32))
        =~= Seq::new(keys.len(), |k: int| (keys[k], tag_flags(k, keys.len() as int, escs[k]) as u32, 0u32)));
}

/// What one journal block read during recovery calls for.
pub enum RecoverAction {
    /// Not a journal block, or of an unknown type: recovery ends.
    Stop,
    /// A descriptor: copy each logged block (at the journal byte offset) to
    /// its filesystem block, restoring the magic where the tag says it was
    /// escaped; then go on at `next`.
    Replay { copies: Vec<(u64, u64, bool)>, next: u32 },
    /// A commit or revoke block: go on at `next` with `tail_seq`.
    Advance { next: u32, tail_seq: u32 },
}

/// The position `k` steps after `p` in a journal of `len` blocks.
pub open spec fn steps_after(p: int, k: int, len: int) -> int
    decreases k,
{
    if k <= 0 { p } else { (steps_after(p, k - 1, len) + 1) % len }
}

pub struct Transaction {
    pub sequence: u32,
    pub blocks: BTreeMap<u64, Vec<u8>>,
    pub revoked: Vec<u64>,
    pub committed: bool,
}

pub struct Journal<D: Disk> {
    pub disk: D,
    pub journal_start: u64,
    pub journal_len: u32,
    pub block_size: u64,
    pub next_seq: u32,
    pub head: u32,
    pub tail_seq: u32,
    pub current: Option<Transaction>,
    /// Per committed transaction: each block's filesystem block, the log
    /// block (from the disk's start) holding it, and whether it was escaped.
    pub checkpoints: BTreeMap<u32, Vec<(u64, u64, bool)>>,
}

/// The larger of the head and the journal length: log positions stay
/// below it.
pub open spec fn span(head: u32, len: u32) -> int {
    if head >= len { head as int } else { len as int }
}

/// The log position after `pos`, wrapping to the start.
pub open spec fn adv(pos: int, len: int) -> int {
    if pos + 1 >= len { 0 } else { pos + 1 }
}

/// The position `k` steps after `pos`.
pub open spec fn pos_after(pos: int, k: nat, len: int) -> int
    decreases k,
{
    if k == 0 { pos } else { adv(pos_after(pos, (k - 1) as nat, len), len) }
}

/// `d` after logging `blocks` at successive positions from `pos`.
pub open spec fn log_writes(d: Seq<u8>, blocks: Seq<Seq<u8>>, start: int, pos: int, len: int, bs: int) -> Seq<u8>
    decreases blocks.len(),
{
    if blocks.len() == 0 {
        d
    } else {
        log_writes(write_range(d, (start + 1 + pos) * bs, blocks[0]), blocks.drop_first(), start, adv(pos, len), len, bs)
    }
}

/// The blocks a commit logs, in order.
pub open spec fn commit_plan(seq: u32, entries: Seq<(u64, Vec<u8>)>, revoked: Seq<u64>, bs: nat) -> Seq<Seq<u8>> {
    let keys = entries.map_values(|e: (u64, Vec<u8>)| e.0);
    let escs = entries.map_values(|e: (u64, Vec<u8>)| needs_escape(e.1@, bs));
    let data = entries.map_values(|e: (u64, Vec<u8>)| data_block(e.1@, bs));
    seq![desc_block(seq, keys, escs, bs)] + data
        + (if revoked.len() > 0 { seq![revoke_block(seq, revoked, bs)] } else { Seq::empty() })
        + seq![commit_block(seq, bs)]
}

/// After a superblock write whose outcome is not checked: written, or
/// unchanged.
pub open spec fn flushed(before: Seq<u8>, after: Seq<u8>, off: int, sb: Seq<u8>) -> bool {
    after == before || after == write_range(before, off, sb)
}

/// `d` after a write of `data` at `off` on a reliable disk: written when
/// it lies within the disk, else refused.
pub open spec fn put_block(d: Seq<u8>, off: int, data: Seq<u8>) -> Seq<u8> {
    if off + data.len() <= d.len() { write_range(d, off, data) } else { d }
}

/// `d` after the checkpoint copy of the log block `src` to the filesystem
/// block `dst` on a reliable disk, the magic restored where `esc` says it
/// was escaped: a read outside the disk copies nothing.
pub open spec fn copy_back(d: Seq<u8>, src: u64, dst: u64, esc: bool, bs: int) -> Seq<u8> {
    let off = src * bs;
    if off <= u64::MAX && off + bs <= d.len() && dst * bs <= u64::MAX {
        put_block(d, dst * bs, unescape(d.subrange(off, off + bs), esc))
    } else {
        d
    }
}

/// `d` after the checkpoint copies of `pairs`, in order.
pub open spec fn copy_all(d: Seq<u8>, pairs: Seq<(u64, u64, bool)>, bs: int) -> Seq<u8>
    decreases pairs.len(),
{
    if pairs.len() == 0 {
        d
    } else {
        copy_all(copy_back(d, pairs[0].1, pairs[0].0, pairs[0].2, bs), pairs.drop_first(), bs)
    }
}

/// A count that stops at its largest value.
pub open spec fn sat_inc(c: u32) -> u32 {
    if c < u32::MAX { (c + 1) as u32 } else { c }
}

/// Recovery of the descriptor at log position `pos` with tags `tags`,
/// from the `k`-th on, on a reliable disk `d` whose log starts after block
/// `start`: each logged block is read and written to its filesystem block
/// (the magic put back where the tag has the escape flag); a read outside
/// the disk ends it. Gives the disk, the tags done and the replay count.
pub open spec fn replay_tags(d: Seq<u8>, tags: Seq<(u64, u32, u32)>, k: int, pos: int, start: int, len: int, bs: int,
    c: u32) -> (Seq<u8>, int, u32)
    decreases tags.len() - k,
{
    if k < 0 || k >= tags.len() {
        (d, k, c)
    } else {
        let off = (start + 1 + steps_after(pos, k + 1, len)) * bs;
        if off + bs > d.len() {
            (d, k, c)
        } else {
            let blk = unescape(d.subrange(off, off + bs), tags[k].1 & (JBD2_FLAG_ESCAPE as u32) != 0);
            let d2 = if tags[k].0 * bs <= u64::MAX { put_block(d, tags[k].0 * bs, blk) } else { d };
            replay_tags(d2, tags, k + 1, pos, start, len, bs, sat_inc(c))
        }
    }
}

/// Recovery on a reliable disk `d` from log position `pos`, with the tail
/// sequence `tail`, `c` blocks replayed so far, for at most `fuel` more
/// records: a record that is not a log block (or lies outside the disk)
/// ends it, a descriptor replays its blocks (`replay_tags`), a commit
/// block moves the tail past its sequence, a revoke block is passed over;
/// coming back to `head` ends it. Gives the disk, the tail sequence and
/// the replay count.
pub open spec fn scan(d: Seq<u8>, start: int, len: int, bs: int, head: int, pos: int, tail: u32, c: u32, fuel: nat)
    -> (Seq<u8>, u32, u32)
    decreases fuel,
{
    if fuel == 0 {
        (d, tail, c)
    } else {
        let off = (start + 1 + pos) * bs;
        if off + bs > d.len() {
            (d, tail, c)
        } else {
            let b = d.subrange(off, off + bs);
            let ty = be32_at(b, 4);
            let sq = be32_at(b, 8);
            if be32_at(b, 0) != JBD2_MAGIC {
                (d, tail, c)
            } else if ty == JBD2_DESCRIPTOR_BLOCK {
                let rt = replay_tags(d, parse_tags(b, HEADER_SIZE as int), 0, pos, start, len, bs, c);
                let next = steps_after(pos, rt.1 + 1, len);
                if next == head { (rt.0, tail, rt.2) } else { scan(rt.0, start, len, bs, head, next, tail, rt.2, (fuel - 1) as nat) }
            } else if ty == JBD2_COMMIT_BLOCK || ty == JBD2_REVOKE_BLOCK {
                let t2 = if ty == JBD2_COMMIT_BLOCK && sq >= tail { (sq as u32).wrapping_add(1) } else { tail };
                let next = (pos + 1) % len;
                if next == head { (d, t2, c) } else { scan(d, start, len, bs, head, next, t2, c, (fuel - 1) as nat) }
            } else {
                (d, tail, c)
            }
        }
    }
}

proof fn lemma_log_room(start: int, pos: int, sp: int, bs: int)
    requires
        0 <= pos <= sp,
        0 <= bs,
    ensures
        (start + 2 + pos) * bs <= (start + 2 + sp) * bs,
{
    assert((start + 2 + pos) * bs <= (start + 2 + sp) * bs) by (nonlinear_arith)
        requires pos <= sp, bs >= 0;
}

proof fn lemma_steps_after_lt(p: int, k: int, len: int)
    requires
        0 <= p < len,
    ensures
        0 <= steps_after(p, k, len) < len,
    decreases k,
{
    if k > 0 {
        lemma_steps_after_lt(p, k - 1, len);
    }
}

impl<D: Disk> Journal<D> {
    /// Block sizes are sane, and every log position stays addressable.
    pub open spec fn wf(&self) -> bool {
        &&& MIN_BLOCK_SIZE <= self.block_size <= MAX_BLOCK_SIZE
        &&& self.head < u32::MAX
        &&& (self.journal_start + 2 + span(self.head, self.journal_len)) * self.block_size <= u64::MAX
    }

    /// Attaches to the journal whose superblock is block `journal_start`
    /// of `disk` (blocks of `block_size` bytes): `None` when that block
    /// cannot be read or does not start with the journal magic. The log's
    /// length, head and oldest sequence (at least 1) come from the
    /// superblock; the next transaction takes that sequence.
    pub fn new(disk: D, journal_start: u64, block_size: u64) -> (r: Option<Journal<D>>)
        requires
            MIN_BLOCK_SIZE <= block_size <= MAX_BLOCK_SIZE,
            (journal_start + 1) * block_size <= u64::MAX,
        ensures
            ({
                let c = disk.contents();
                let off = journal_start * block_size;
                &&& r matches Some(j) ==> {
                    &&& off + block_size <= c.len() && be32_at(c, off) == JBD2_MAGIC
                    &&& j.disk == disk && j.journal_start == journal_start && j.block_size == block_size
                    &&& j.journal_len == be32_at(c, off + 16) && j.head == be32_at(c, off + 28)
                    &&& j.tail_seq == (if be32_at(c, off + 84) < 1 { 1 } else { be32_at(c, off + 84) })
                    &&& j.next_seq == j.tail_seq && j.current is None && j.checkpoints@.len() == 0
                }
                &&& off + block_size <= c.len() && be32_at(c, off) != JBD2_MAGIC ==> r is None
                &&& disk.reliable() && off + block_size <= c.len() && be32_at(c, off) == JBD2_MAGIC ==> r is Some
            }),
    {
        proof {
            assert(journal_start * block_size + block_size == (journal_start + 1) * block_size) by (nonlinear_arith);
        }
        let off = journal_start * block_size;
        let mut buf = zero_block(block_size as usize);
        if disk.read_bytes(off, buf.as_mut_slice()).is_err() {
            return None;
        }
        let ghost c = disk.contents();
        let magic: u32 = buf[0] as u32 * 0x100_0000 + buf[1] as u32 * 0x1_0000 + buf[2] as u32 * 0x100 + buf[3] as u32;
        if magic != JBD2_MAGIC {
            return None;
        }
        let len: u32 = buf[16] as u32 * 0x100_0000 + buf[17] as u32 * 0x1_0000 + buf[18] as u32 * 0x100 + buf[19] as u32;
        let head: u32 = buf[28] as u32 * 0x100_0000 + buf[29] as u32 * 0x1_0000 + buf[30] as u32 * 0x100 + buf[31] as u32;
        let t: u32 = buf[84] as u32 * 0x100_0000 + buf[85] as u32 * 0x1_0000 + buf[86] as u32 * 0x100 + buf[87] as u32;
        let tail = if t < 1 { 1 } else { t };
        proof {
            assert(buf@ == c.subrange(off as int, off + block_size));
            assert(be32_at(c, off as int) == magic);
            assert(be32_at(c, off + 16) == len);
            assert(be32_at(c, off + 28) == head);
            assert(be32_at(c, off + 84) == t);
        }
        Some(Journal {
            disk,
            journal_start,
            journal_len: len,
            block_size,
            next_seq: tail,
            head,
            tail_seq: tail,
            current: None,
            checkpoints: BTreeMap::new(),
        })
    }

    /// The tags of the descriptor block `buf`.
    pub fn parse_descriptor(&self, buf: &[u8]) -> (r: Vec<(u64, u32, u32)>)
        ensures
            r@ == parse_tags(buf@, HEADER_SIZE as int),
    {
        let mut tags: Vec<(u64, u32, u32)> = Vec::new();
        let mut off: usize = HEADER_SIZE;
        let len: usize = buf.len();
        while off <= len && TAG_SIZE <= len - off
            invariant
                len == buf@.len(),
                tags@ + parse_tags(buf@, off as int) == parse_tags(buf@, HEADER_SIZE as int),
            decreases len - off,
        {
            let lo: u64 = buf[off] as u64 * 0x100_0000 + buf[off + 1] as u64 * 0x1_0000
                + buf[off + 2] as u64 * 0x100 + buf[off + 3] as u64;
            let hi: u64 = buf[off + 6] as u64 * 0x100 + buf[off + 7] as u64;
            let blk: u64 = lo + hi * 0x1_0000_0000;
            let flags: u32 = buf[off + 4] as u32 * 0x100 + buf[off + 5] as u32;
            let ghost before = tags@;
            tags.push((blk, flags, 0));
            proof {
                assert(blk as int == be32_at(buf@, off as int) + be16_at(buf@, off as int + 6) * 0x1_0000_0000);
                assert(flags as int == be16_at(buf@, off as int + 4));
            }
            if flags & (JBD2_FLAG_LAST_TAG as u32) != 0 {
                assert(tags@ =~= before + parse_tags(buf@, off as int));
                return tags;
            }
            let step: usize = if flags & (JBD2_FLAG_SAME_UUID as u32) == 0 { TAG_SIZE + 16 } else { TAG_SIZE };
            if step > len - off {
                assert(tags@ =~= before + parse_tags(buf@, off as int));
                return tags;
            }
            assert(before + parse_tags(buf@, off as int) =~= tags@ + parse_tags(buf@, off as int + step as int));
            off = off + step;
        }
        assert(parse_tags(buf@, off as int) =~= Seq::<(u64, u32, u32)>::empty());
        assert(tags@ =~= tags@ + parse_tags(buf@, off as int));
        tags
    }

    /// One step of recovery at log position `pos` with the block `buf` read
    /// there. Recovery ends on `Stop`, and also once the next position is
    /// back at the head.
    pub fn recover_step(&self, pos: u32, tail_seq: u32, buf: &[u8]) -> (r: RecoverAction)
        requires
            self.wf(),
            self.journal_len > 0,
            pos < self.journal_len,
            buf@.len() >= HEADER_SIZE,
        ensures
            be32_at(buf@, 0) != JBD2_MAGIC ==> r is Stop,
            be32_at(buf@, 0) == JBD2_MAGIC ==> ({
                let ty = be32_at(buf@, 4);
                let seq = be32_at(buf@, 8);
                let len = self.journal_len as int;
                let tags = parse_tags(buf@, HEADER_SIZE as int);
                &&& ty == JBD2_DESCRIPTOR_BLOCK ==> r is Replay
                    && r->Replay_next == steps_after(pos as int, tags.len() as int + 1, len)
                    && r->Replay_copies@.len() == tags.len()
                    && forall|k: int| 0 <= k < tags.len() ==> #[trigger] r->Replay_copies@[k] == (
                        ((self.journal_start + 1 + steps_after(pos as int, k + 1, len)) * self.block_size) as u64,
                        tags[k].0, tags[k].1 & (JBD2_FLAG_ESCAPE as u32) != 0)
                &&& ty == JBD2_COMMIT_BLOCK ==> r == RecoverAction::Advance { next: ((pos + 1) % len) as u32,
                    tail_seq: if seq >= tail_seq { (seq as u32).wrapping_add(1) } else { tail_seq } }
                &&& ty == JBD2_REVOKE_BLOCK ==> r == RecoverAction::Advance { next: ((pos + 1) % len) as u32, tail_seq }
                &&& ty != JBD2_DESCRIPTOR_BLOCK && ty != JBD2_COMMIT_BLOCK && ty != JBD2_REVOKE_BLOCK ==> r is Stop
            }),
    {
        let magic: u32 = buf[0] as u32 * 0x100_0000 + buf[1] as u32 * 0x1_0000 + buf[2] as u32 * 0x100 + buf[3] as u32;
        let ty: u32 = buf[4] as u32 * 0x100_0000 + buf[5] as u32 * 0x1_0000 + buf[6] as u32 * 0x100 + buf[7] as u32;
        let seq: u32 = buf[8] as u32 * 0x100_0000 + buf[9] as u32 * 0x1_0000 + buf[10] as u32 * 0x100 + buf[11] as u32;
        if magic != JBD2_MAGIC {
            return RecoverAction::Stop;
        }
        let len = self.journal_len;
        if ty == JBD2_DESCRIPTOR_BLOCK {
            let tags = self.parse_descriptor(buf);
            let mut copies: Vec<(u64, u64, bool)> = Vec::new();
            let mut data_pos: u32 = (pos + 1) % len;
            assert(steps_after(pos as int, 0, len as int) == pos);
            let mut k: usize = 0;
            while k < tags.len()
                invariant
                    self.wf(),
                    len == self.journal_len > 0,
                    k <= tags@.len(),
                    data_pos < len,
                    data_pos == steps_after(pos as int, k as int + 1, len as int),
                    copies@.len() == k,
                    forall|q: int| 0 <= q < k ==> #[trigger] copies@[q] == (
                        ((self.journal_start + 1 + steps_after(pos as int, q + 1, len as int)) * self.block_size) as u64,
                        tags@[q].0, tags@[q].1 & (JBD2_FLAG_ESCAPE as u32) != 0),
                decreases tags@.len() - k,
            {
                proof {
                    let sp = span(self.head, self.journal_len);
                    assert((self.journal_start + 1 + data_pos) * self.block_size
                        <= (self.journal_start + 2 + sp) * self.block_size) by (nonlinear_arith)
                        requires
                            data_pos < sp,
                            self.block_size >= 0,
                    ;
                    assert(self.journal_start + 2 + sp <= (self.journal_start + 2 + sp) * self.block_size)
                        by (nonlinear_arith)
                        requires
                            self.block_size >= 1,
                            self.journal_start + 2 + sp >= 0,
                    ;
                }
                let off: u64 = (self.journal_start + 1 + data_pos as u64) * self.block_size;
                let (blk, flags, _) = tags[k];
                copies.push((off, blk, flags & (JBD2_FLAG_ESCAPE as u32) != 0));
                data_pos = (data_pos + 1) % len;
                k = k + 1;
            }
            return RecoverAction::Replay { copies, next: data_pos };
        }
        if ty == JBD2_COMMIT_BLOCK {
            let t = if seq >= tail_seq { seq.wrapping_add(1) } else { tail_seq };
            return RecoverAction::Advance { next: (pos + 1) % len, tail_seq: t };
        }
        if ty == JBD2_REVOKE_BLOCK {
            return RecoverAction::Advance { next: (pos + 1) % len, tail_seq };
        }
        RecoverAction::Stop
    }

    /// Replays the log after a crash, from the head: each descriptor's
    /// blocks are copied to their filesystem blocks (the magic put back
    /// where it was escaped), and each commit block moves the tail sequence
    /// past its transaction. The scan ends at a block that is not a log
    /// block or cannot be read, once it comes back to the head, and after
    /// at most as many records as the log has blocks; a head outside the
    /// log finds nothing. When anything was replayed the superblock is
    /// written back. Returns the number of blocks replayed.
    #[verifier::rlimit(60)]
    pub fn recover(&mut self) -> (r: u32)
        requires
            old(self).wf(),
            old(self).journal_len > 0,
        ensures
            final(self).wf(),
            final(self).disk.reliable() == old(self).disk.reliable(),
            final(self).head == old(self).head && final(self).next_seq == old(self).next_seq
                && final(self).current == old(self).current && final(self).checkpoints@ == old(self).checkpoints@
                && final(self).journal_start == old(self).journal_start && final(self).journal_len == old(self).journal_len
                && final(self).block_size == old(self).block_size,
            old(self).head >= old(self).journal_len ==> r == 0 && final(self).disk == old(self).disk
                && final(self).tail_seq == old(self).tail_seq,
            old(self).head < old(self).journal_len && old(self).disk.reliable() ==> ({
                let bs = old(self).block_size as int;
                let res = scan(old(self).disk.contents(), old(self).journal_start as int, old(self).journal_len as int,
                    bs, old(self).head as int, old(self).head as int, old(self).tail_seq, 0, old(self).journal_len as nat);
                &&& r == res.2
                &&& final(self).tail_seq == res.1
                &&& final(self).disk.contents() == if res.2 > 0 {
                    put_block(res.0, old(self).journal_start * bs,
                        sb_block(bs as nat, old(self).journal_len, old(self).head, res.1))
                } else {
                    res.0
                }
            }),
    {
        if self.head >= self.journal_len {
            return 0;
        }
        let bs = self.block_size;
        let len = self.journal_len;
        let ghost start = self.journal_start as int;
        let ghost rel = self.disk.reliable();
        let ghost s0 = *self;
        let ghost target = scan(self.disk.contents(), start, len as int, bs as int, self.head as int, self.head as int,
            self.tail_seq, 0, len as nat);
        let mut pos: u32 = self.head;
        let mut count: u32 = 0;
        let mut fuel: u32 = len;
        let mut stop = false;
        while fuel > 0 && !stop
            invariant
                self.wf(),
                pos < len,
                len == self.journal_len > 0,
                bs == self.block_size,
                start == self.journal_start,
                self.disk.reliable() == rel,
                self.head == s0.head && self.next_seq == s0.next_seq && self.current == s0.current
                    && self.checkpoints@ == s0.checkpoints@ && self.journal_start == s0.journal_start
                    && self.journal_len == s0.journal_len && self.block_size == s0.block_size,
                rel ==> target == if stop {
                    (self.disk.contents(), self.tail_seq, count)
                } else {
                    scan(self.disk.contents(), start, len as int, bs as int, self.head as int, pos as int,
                        self.tail_seq, count, fuel as nat)
                },
            decreases fuel,
        {
            let ghost d0 = self.disk.contents();
            let ghost c0 = count;
            let ghost t0 = self.tail_seq;
            proof {
                let sp = span(self.head, self.journal_len);
                assert((start + 2 + pos) * bs <= (start + 2 + sp) * bs) by (nonlinear_arith)
                    requires pos < sp, bs >= 0;
                assert((start + 1 + pos) * bs + bs == (start + 2 + pos) * bs) by (nonlinear_arith);
                assert(start + 2 + sp <= (start + 2 + sp) * bs) by (nonlinear_arith)
                    requires bs >= 1, start + 2 + sp >= 0;
            }
            let off: u64 = (self.journal_start + 1 + pos as u64) * bs;
            let mut buf = zero_block(bs as usize);
            let rd = self.disk.read_bytes(off, buf.as_mut_slice());
            if rd.is_err() {
                stop = true;
            } else {
                let act = self.recover_step(pos, self.tail_seq, buf.as_slice());
                match act {
                    RecoverAction::Stop => {
                        stop = true;
                    },
                    RecoverAction::Advance { next, tail_seq } => {
                        self.tail_seq = tail_seq;
                        pos = next;
                        if pos == self.head {
                            stop = true;
                        }
                    },
                    RecoverAction::Replay { copies, next } => {
                        let ghost tags = parse_tags(buf@, HEADER_SIZE as int);
                        let ghost inner = replay_tags(d0, tags, 0, pos as int, start, len as int, bs as int, c0);
                        let mut k: usize = 0;
                        let mut data_pos: u32 = (pos + 1) % len;
                        let mut istop = false;
                        assert(steps_after(pos as int, 0, len as int) == pos);
                        assert(steps_after(pos as int, 1, len as int) == (pos + 1) % (len as int));
                        while k < copies.len() && !istop
                            invariant
                                self.wf(),
                                len == self.journal_len > 0,
                                bs == self.block_size,
                                start == self.journal_start,
                                pos < len,
                                self.disk.reliable() == rel,
                                self.head == s0.head && self.next_seq == s0.next_seq && self.current == s0.current
                                    && self.checkpoints@ == s0.checkpoints@ && self.journal_start == s0.journal_start
                                    && self.journal_len == s0.journal_len && self.block_size == s0.block_size,
                                self.tail_seq == t0,
                                k <= copies@.len(),
                                copies@.len() == tags.len(),
                                forall|q: int| 0 <= q < tags.len() ==> #[trigger] copies@[q] == (
                                    ((start + 1 + steps_after(pos as int, q + 1, len as int)) * bs) as u64,
                                    tags[q].0, tags[q].1 & (JBD2_FLAG_ESCAPE as u32) != 0),
                                data_pos == steps_after(pos as int, k as int + 1, len as int),
                                data_pos < len,
                                rel ==> inner == if istop {
                                    (self.disk.contents(), k as int, count)
                                } else {
                                    replay_tags(self.disk.contents(), tags, k as int, pos as int, start, len as int,
                                        bs as int, count)
                                },
                            decreases copies@.len() - k + if istop { 0int } else { 1int },
                        {
                            let (src, fs, esc) = copies[k];
                            let ghost cur = self.disk.contents();
                            proof {
                                lemma_steps_after_lt(pos as int, k as int + 1, len as int);
                                let sa = steps_after(pos as int, k as int + 1, len as int);
                                let sp = span(self.head, self.journal_len);
                                assert((start + 1 + sa) * bs <= (start + 2 + sp) * bs) by (nonlinear_arith)
                                    requires sa < sp, bs >= 0;
                                assert(src == (start + 1 + sa) * bs);
                            }
                            let mut data = zero_block(bs as usize);
                            let rd2 = self.disk.read_bytes(src, data.as_mut_slice());
                            if rd2.is_err() {
                                istop = true;
                            } else {
                                if esc {
                                    put_bytes(&mut data, 0, &be32_bytes(JBD2_MAGIC));
                                }
                                match fs.checked_mul(bs) {
                                    Some(dst) => {
                                        let _ = self.disk.write_bytes(dst, data.as_slice());
                                    },
                                    None => {},
                                }
                                count = if count < u32::MAX { count + 1 } else { count };
                                data_pos = (data_pos + 1) % len;
                                k = k + 1;
                            }
                        }
                        pos = data_pos;
                        if pos == self.head {
                            stop = true;
                        }
                    },
                }
            }
            fuel = fuel - 1;
        }
        if count > 0 {
            self.flush_journal_superblock();
        }
        count
    }

    /// Whether a transaction is open.
    pub fn in_transaction(&self) -> (r: bool)
        ensures
            r == self.current is Some,
    {
        self.current.is_some()
    }

    /// Opens a transaction with the next sequence number.
    pub fn begin(&mut self)
        requires
            old(self).current is None,
        ensures
            final(self).current matches Some(t) && t.sequence == old(self).next_seq && t.blocks@.len() == 0
                && t.revoked@.len() == 0 && !t.committed,
            final(self).next_seq == old(self).next_seq.wrapping_add(1),
            final(self).head == old(self).head && final(self).tail_seq == old(self).tail_seq,
            final(self).journal_start == old(self).journal_start && final(self).journal_len == old(self).journal_len
                && final(self).block_size == old(self).block_size,
            final(self).disk == old(self).disk,
    {
        let seq = self.next_seq;
        self.next_seq = self.next_seq.wrapping_add(1);
        self.current = Some(Transaction { sequence: seq, blocks: BTreeMap::new(), revoked: Vec::new(), committed: false });
    }

    /// Adds a block image to the open transaction (replacing an earlier
    /// image of the same block); without one, writes it in place.
    pub fn write(&mut self, fs_block: u64, data: Vec<u8>)
        requires
            old(self).current is None ==> fs_block * old(self).block_size <= u64::MAX,
        ensures
            final(self).head == old(self).head && final(self).tail_seq == old(self).tail_seq
                && final(self).next_seq == old(self).next_seq,
            final(self).journal_start == old(self).journal_start && final(self).journal_len == old(self).journal_len
                && final(self).block_size == old(self).block_size,
            old(self).current matches Some(t) ==> final(self).current matches Some(u) && u.sequence == t.sequence
                && u.blocks@ == t.blocks@.insert(fs_block, data) && u.revoked@ == t.revoked@
                && final(self).disk == old(self).disk,
            old(self).current is None ==> final(self).current is None && flushed(old(self).disk.contents(),
                final(self).disk.contents(), fs_block * old(self).block_size, data@),
    {
        match self.current.as_mut() {
            Some(txn) => {
                txn.blocks.insert(fs_block, data);
            },
            None => {
                let _ = self.disk.write_bytes(fs_block * self.block_size, data.as_slice());
            },
        }
    }

    /// Records that `fs_block` was freed in the open transaction, once.
    pub fn revoke(&mut self, fs_block: u64)
        ensures
            old(self).current is None ==> *final(self) == *old(self),
            old(self).current matches Some(t) ==> final(self).current matches Some(u) && u.sequence == t.sequence
                && u.blocks@ == t.blocks@
                && u.revoked@ == if t.revoked@.contains(fs_block) { t.revoked@ } else { t.revoked@.push(fs_block) },
            final(self).disk == old(self).disk && final(self).head == old(self).head,
    {
        match self.current.as_mut() {
            Some(txn) => {
                let mut found = false;
                let mut i: usize = 0;
                while i < txn.revoked.len()
                    invariant
                        i <= txn.revoked@.len(),
                        found == exists|k: int| 0 <= k < i && txn.revoked@[k] == fs_block,
                    decreases txn.revoked@.len() - i,
                {
                    if txn.revoked[i] == fs_block {
                        found = true;
                    }
                    i = i + 1;
                }
                if !found {
                    txn.revoked.push(fs_block);
                } else {
                    assert(txn.revoked@.contains(fs_block));
                }
            },
            None => {},
        }
    }

    /// The position after `pos`, wrapping at the journal's end.
    fn advance_pos(&self, pos: u32) -> (r: u32)
        requires
            pos < u32::MAX,
        ensures
            r == adv(pos as int, self.journal_len as int),
    {
        if pos + 1 >= self.journal_len { 0 } else { pos + 1 }
    }

    fn flush_journal_superblock(&mut self)
        requires
            old(self).wf(),
        ensures
            final(self).wf(),
            flushed(old(self).disk.contents(), final(self).disk.contents(),
                old(self).journal_start * old(self).block_size,
                sb_block(old(self).block_size as nat, old(self).journal_len, old(self).head, old(self).tail_seq)),
            old(self).disk.reliable() ==> final(self).disk.contents() == put_block(old(self).disk.contents(),
                old(self).journal_start * old(self).block_size,
                sb_block(old(self).block_size as nat, old(self).journal_len, old(self).head, old(self).tail_seq)),
            final(self).disk.reliable() == old(self).disk.reliable(),
            final(self).head == old(self).head && final(self).tail_seq == old(self).tail_seq
                && final(self).next_seq == old(self).next_seq && final(self).current == old(self).current
                && final(self).checkpoints@ == old(self).checkpoints@,
            final(self).journal_start == old(self).journal_start && final(self).journal_len == old(self).journal_len
                && final(self).block_size == old(self).block_size,
    {
        let b = build_superblock(self.block_size as usize, self.journal_len, self.head, self.tail_seq);
        proof {
            assert(self.journal_start * self.block_size <= (self.journal_start + 2 + span(self.head, self.journal_len)) * self.block_size) by (nonlinear_arith)
                requires self.block_size >= 0, span(self.head, self.journal_len) >= 0;
        }
        let _ = self.disk.write_bytes(self.journal_start * self.block_size, b.as_slice());
    }

    /// Writes the blocks of committed transaction `seq` to their places in
    /// the filesystem, each read back from the log (the magic put back
    /// where it was escaped), and drops its checkpoint record; when it was
    /// the oldest in the log, the log's tail moves past it. The superblock
    /// is then written back. A copy whose read or write fails is skipped.
    pub fn checkpoint_transaction(&mut self, seq: u32)
        requires
            old(self).wf(),
            seq == old(self).tail_seq && old(self).checkpoints@.contains_key(seq) ==> seq < u32::MAX,
        ensures
            final(self).wf(),
            final(self).disk.reliable() == old(self).disk.reliable(),
            final(self).head == old(self).head && final(self).next_seq == old(self).next_seq
                && final(self).current == old(self).current
                && final(self).journal_start == old(self).journal_start && final(self).journal_len == old(self).journal_len
                && final(self).block_size == old(self).block_size,
            !old(self).checkpoints@.contains_key(seq) ==> final(self).checkpoints@ == old(self).checkpoints@
                && final(self).tail_seq == old(self).tail_seq && final(self).disk == old(self).disk,
            old(self).checkpoints@.contains_key(seq) ==> {
                &&& final(self).checkpoints@ == old(self).checkpoints@.remove(seq)
                &&& final(self).tail_seq == if seq == old(self).tail_seq { (seq + 1) as u32 } else { old(self).tail_seq }
                &&& old(self).disk.reliable() ==> final(self).disk.contents() == put_block(
                    copy_all(old(self).disk.contents(), old(self).checkpoints@[seq]@, old(self).block_size as int),
                    old(self).journal_start * old(self).block_size,
                    sb_block(old(self).block_size as nat, old(self).journal_len, old(self).head, final(self).tail_seq))
            },
    {
        let removed = self.checkpoints.remove(&seq);
        let pairs = match removed {
            Some(p) => p,
            None => {
                return;
            },
        };
        let bs = self.block_size;
        let ghost c0 = self.disk.contents();
        let ghost rel = self.disk.reliable();
        let ghost s0 = *self;
        let mut i: usize = 0;
        proof {
            assert(pairs@.skip(0) =~= pairs@);
        }
        while i < pairs.len()
            invariant
                i <= pairs@.len(),
                self.wf(),
                bs == self.block_size,
                self.disk.reliable() == rel,
                self.head == s0.head && self.next_seq == s0.next_seq && self.current == s0.current
                    && self.journal_start == s0.journal_start && self.journal_len == s0.journal_len
                    && self.block_size == s0.block_size && self.tail_seq == s0.tail_seq
                    && self.checkpoints@ == s0.checkpoints@,
                rel ==> copy_all(c0, pairs@, bs as int) == copy_all(self.disk.contents(), pairs@.skip(i as int), bs as int),
            decreases pairs@.len() - i,
        {
            let (fs, jb, esc) = pairs[i];
            let ghost cur = self.disk.contents();
            proof {
                assert(pairs@.skip(i as int)[0] == pairs@[i as int]);
                assert(pairs@.skip(i as int).drop_first() =~= pairs@.skip(i + 1));
            }
            match jb.checked_mul(bs) {
                Some(off) => {
                    let mut buf = zero_block(bs as usize);
                    let rd = self.disk.read_bytes(off, buf.as_mut_slice());
                    if rd.is_ok() {
                        if esc {
                            put_bytes(&mut buf, 0, &be32_bytes(JBD2_MAGIC));
                        }
                        assert(buf@ == unescape(cur.subrange(off as int, off + bs), esc));
                        match fs.checked_mul(bs) {
                            Some(dst) => {
                                let _ = self.disk.write_bytes(dst, buf.as_slice());
                            },
                            None => {},
                        }
                    }
                },
                None => {},
            }
            proof {
                if rel {
                    assert(self.disk.contents() == copy_back(cur, jb, fs, esc, bs as int));
                }
            }
            i = i + 1;
        }
        proof {
            if rel {
                assert(pairs@.skip(i as int) =~= Seq::<(u64, u64, bool)>::empty());
            }
        }
        if seq == self.tail_seq {
            self.tail_seq = seq + 1;
        }
        self.flush_journal_superblock();
    }

    /// Writes one log block at position `pos`.
    fn write_journal_block(&mut self, pos: u32, data: &[u8]) -> (r: Result<(), &'static str>)
        requires
            old(self).wf(),
            pos <= old(self).head || pos < old(self).journal_len,
            data@.len() == old(self).block_size,
        ensures
            final(self).wf(),
            r is Ok ==> final(self).disk.contents() == write_range(old(self).disk.contents(),
                (old(self).journal_start + 1 + pos) * old(self).block_size, data@),
            r is Err ==> final(self).disk.contents() == old(self).disk.contents(),
            old(self).disk.reliable() && (old(self).journal_start + 2 + pos) * old(self).block_size
                <= old(self).disk.contents().len() ==> r is Ok,
            final(self).disk.contents().len() == old(self).disk.contents().len(),
            final(self).disk.reliable() == old(self).disk.reliable(),
            final(self).head == old(self).head && final(self).tail_seq == old(self).tail_seq
                && final(self).next_seq == old(self).next_seq && final(self).current == old(self).current
                && final(self).checkpoints@ == old(self).checkpoints@,
            final(self).journal_start == old(self).journal_start && final(self).journal_len == old(self).journal_len
                && final(self).block_size == old(self).block_size,
    {
        proof {
            assert((self.journal_start + 1 + pos) * self.block_size <= (self.journal_start + 2 + span(self.head, self.journal_len)) * self.block_size
                && self.journal_start + 1 + pos <= (self.journal_start + 2 + span(self.head, self.journal_len)) * self.block_size) by (nonlinear_arith)
                requires
                    pos <= span(self.head, self.journal_len),
                    self.block_size >= 1;
        }
        let abs = (self.journal_start + 1 + pos as u64) * self.block_size;
        assert(abs + data@.len() == (self.journal_start + 2 + pos) * self.block_size) by (nonlinear_arith)
            requires
                abs == (self.journal_start + 1 + pos) * self.block_size,
                data@.len() == self.block_size;
        match self.disk.write_bytes(abs, data) {
            Ok(()) => Ok(()),
            Err(_) => Err("JBD2: journal write failed"),
        }
    }

    /// Commits the open transaction (see `commit_post`): logs its
    /// descriptor block, its data blocks in block order, a revoke block
    /// when blocks were revoked, and a commit block at successive positions
    /// from the head; then moves the head past them, writes the superblock
    /// back and checkpoints the transaction. No open transaction, or an
    /// empty one, is a success with nothing written. A failed log write
    /// ends the commit with an error, the transaction dropped and the head
    /// where it was.
    #[verifier::rlimit(100)]
    pub fn commit(&mut self) -> (r: Result<(), &'static str>)
        requires
            old(self).wf(),
            old(self).current matches Some(t) ==> (t.sequence == old(self).tail_seq ==> t.sequence < u32::MAX)
                && 12 + t.revoked@.len() * 8 <= usize::MAX,
        ensures
            final(self).wf(),
            commit_post(*old(self), *final(self), r),
    {
        let txn = match self.current.take() {
            Some(t) => t,
            None => {
                return Ok(());
            },
        };
        if txn.blocks.len() == 0 && txn.revoked.len() == 0 {
            return Ok(());
        }
        let seq = txn.sequence;
        let bs = self.block_size as usize;
        let ghost head0 = self.head as int;
        let ghost len = self.journal_len as int;
        let ghost start = self.journal_start as int;
        let entries = block_entries(&txn.blocks);
        let mut keys: Vec<u64> = Vec::new();
        let mut escs: Vec<bool> = Vec::new();
        let mut i: usize = 0;
        while i < entries.len()
            invariant
                i <= entries@.len(),
                4 <= bs,
                keys@ == entries@.take(i as int).map_values(|e: (u64, Vec<u8>)| e.0),
                escs@ == entries@.take(i as int).map_values(|e: (u64, Vec<u8>)| needs_escape(e.1@, bs as nat)),
            decreases entries@.len() - i,
        {
            keys.push(entries[i].0);
            let e = starts_with_magic(entries[i].1.as_slice(), bs);
            escs.push(e);
            assert(keys@ =~= entries@.take(i + 1).map_values(|e: (u64, Vec<u8>)| e.0));
            assert(escs@ =~= entries@.take(i + 1).map_values(|e: (u64, Vec<u8>)| needs_escape(e.1@, bs as nat)));
            i = i + 1;
        }
        assert(entries@.take(entries@.len() as int) =~= entries@);
        let ghost plan = commit_plan(seq, entries@, txn.revoked@, bs as nat);
        let ghost target = log_writes(self.disk.contents(), plan, start, head0, len, bs as int);
        let mut pos = self.head;
        let ghost mut k: nat = 0;
        let desc = build_descriptor(seq, keys.as_slice(), escs.as_slice(), bs);
        assert(plan[0] == desc@);
        proof {
            lemma_log_room(start, pos as int, span(head0 as u32, len as u32), bs as int);
        }
        assert(plan.skip(0) =~= plan);
        self.write_journal_block(pos, desc.as_slice())?;
        proof {
            assert(plan.skip(0).drop_first() =~= plan.skip(1));
        }
        pos = self.advance_pos(pos);
        proof {
            k = 1;
            assert(pos_after(head0, 1, len) == adv(pos_after(head0, 0, len), len));
        }
        let mut checkpoint_pairs: Vec<(u64, u64, bool)> = Vec::new();
        proof {
            assert(start + 2 + span(head0 as u32, len as u32) <= (start + 2 + span(head0 as u32, len as u32)) * (bs as int)) by (nonlinear_arith)
                requires bs >= 1, start + 2 + span(head0 as u32, len as u32) >= 0;
        }
        let mut j: usize = 0;
        while j < entries.len()
            invariant
                j <= entries@.len(),
                k == 1 + j,
                self.wf(),
                self.current is None,
                self.head == head0 && self.journal_len == len && self.journal_start == start && self.block_size == bs,
                pos <= head0 || pos < len,
                pos == pos_after(head0, k, len),
                plan == commit_plan(seq, entries@, txn.revoked@, bs as nat),
                log_writes(self.disk.contents(), plan.skip(k as int), start, pos as int, len, bs as int) == target,
                start == old(self).journal_start && len == old(self).journal_len && bs == old(self).block_size,
                head0 == old(self).head,
                old(self).current is Some,
                txn == old(self).current->0,
                seq == txn.sequence,
                !(txn.blocks@.len() == 0 && txn.revoked@.len() == 0),
                start + 2 + span(head0 as u32, len as u32) <= u64::MAX,
                self.tail_seq == old(self).tail_seq,
                self.next_seq == old(self).next_seq,
                self.checkpoints@ == old(self).checkpoints@,
                self.disk.reliable() == old(self).disk.reliable(),
                escs@ == entries@.map_values(|e: (u64, Vec<u8>)| needs_escape(e.1@, bs as nat)),
                checkpoint_pairs@ == cp_pairs(entries@.take(j as int), bs as nat, start, head0, len),
                entries@ == sorted_entries(txn.blocks@),
                in_block_order(txn.blocks@, entries@),
                self.disk.contents().len() == old(self).disk.contents().len(),
            decreases entries@.len() - j,
        {
            let d = build_data(entries[j].1.as_slice(), bs);
            assert(plan[k as int] == d@);
            proof {
                lemma_log_room(start, pos as int, span(head0 as u32, len as u32), bs as int);
            }
            self.write_journal_block(pos, d.as_slice())?;
            proof {
                assert(plan.skip(k as int)[0] == d@);
                assert(plan.skip(k as int).drop_first() =~= plan.skip(k as int + 1));
            }
            checkpoint_pairs.push((entries[j].0, pos as u64 + self.journal_start + 1, escs[j]));
            assert(checkpoint_pairs@ =~= cp_pairs(entries@.take(j + 1), bs as nat, start, head0, len));
            pos = self.advance_pos(pos);
            proof {
                k = k + 1;
            }
            j = j + 1;
        }
        assert(entries@.take(j as int) =~= entries@);
        assert(log_writes(self.disk.contents(), plan.skip(k as int), start, pos as int, len, bs as int) == target);
        if txn.revoked.len() > 0 {
            let rb = build_revoke(seq, txn.revoked.as_slice(), bs);
            assert(plan[k as int] == rb@);
            proof {
                lemma_log_room(start, pos as int, span(head0 as u32, len as u32), bs as int);
            }
            self.write_journal_block(pos, rb.as_slice())?;
            proof {
                assert(plan.skip(k as int)[0] == rb@);
                assert(plan.skip(k as int).drop_first() =~= plan.skip(k as int + 1));
            }
            pos = self.advance_pos(pos);
            proof {
                k = k + 1;
                assert(pos_after(head0, k, len) == adv(pos_after(head0, (k - 1) as nat, len), len));
            }
        }
        assert(pos == pos_after(head0, k, len));
        let cb = build_commit(seq, bs);
        assert(log_writes(self.disk.contents(), plan.skip(k as int), start, pos as int, len, bs as int) == target);
        assert(plan[k as int] == cb@);
        proof {
            lemma_log_room(start, pos as int, span(head0 as u32, len as u32), bs as int);
        }
        self.write_journal_block(pos, cb.as_slice())?;
        proof {
            assert(plan.skip(k as int)[0] == cb@);
            assert(plan.skip(k as int).drop_first() =~= plan.skip(k as int + 1));
            assert(plan.skip(k as int + 1) =~= Seq::<Seq<u8>>::empty());
        }
        pos = self.advance_pos(pos);
        proof {
            k = k + 1;
            assert(pos_after(head0, k, len) == adv(pos_after(head0, (k - 1) as nat, len), len));
            assert(log_writes(self.disk.contents(), plan.skip(k as int), start, pos as int, len, bs as int) == self.disk.contents());
            assert(span(pos, len as u32) <= span(head0 as u32, len as u32));
            assert((start + 2 + span(pos, len as u32)) * (bs as int) <= (start + 2 + span(head0 as u32, len as u32)) * (bs as int)) by (nonlinear_arith)
                requires
                    span(pos, len as u32) <= span(head0 as u32, len as u32),
                    bs >= 0;
        }
        self.head = pos;
        let ghost logged = self.disk.contents();
        let ghost cp0 = self.checkpoints@;
        let ghost pairs = checkpoint_pairs@;
        self.checkpoints.insert(seq, checkpoint_pairs);
        proof {
            assert(self.checkpoints@.remove(seq) =~= cp0.remove(seq));
            assert(k == plan.len());
        }
        self.flush_journal_superblock();
        let ghost d1 = self.disk.contents();
        self.checkpoint_transaction(seq);
        proof {
            assert(logged == target);
            let t = old(self).current->0;
            assert(t == txn);
            assert(entries@ == sorted_entries(t.blocks@));
            assert(plan == commit_plan(t.sequence, sorted_entries(t.blocks@), t.revoked@, old(self).block_size as nat));
            assert(self.head == pos_after(old(self).head as int, plan.len(), old(self).journal_len as int));
            assert(pairs == cp_pairs(sorted_entries(t.blocks@), old(self).block_size as nat,
                old(self).journal_start as int, old(self).head as int, old(self).journal_len as int));
        }
        Ok(())
    }

    /// Commits the open transaction, if any, ignoring a failure: whatever
    /// the outcome, what `commit` states of it holds.
    pub fn sync(&mut self)
        requires
            old(self).wf(),
            old(self).current matches Some(t) ==> (t.sequence == old(self).tail_seq ==> t.sequence < u32::MAX)
                && 12 + t.revoked@.len() * 8 <= usize::MAX,
        ensures
            final(self).wf(),
            exists|r: Result<(), &'static str>| #[trigger] commit_post(*old(self), *final(self), r),
    {
        let r = self.commit();
        assert(commit_post(*old(self), *self, r));
    }
}

/// The checkpoint record of the data blocks `entries` logged after a
/// descriptor at `head`: each block's filesystem block, the log block
/// holding it (counted from the disk's start) and whether it was escaped.
pub open spec fn cp_pairs(entries: Seq<(u64, Vec<u8>)>, bs: nat, start: int, head: int, len: int) -> Seq<(u64, u64, bool)> {
    Seq::new(entries.len(), |q: int| (entries[q].0, (start + 1 + pos_after(head, (q + 1) as nat, len)) as u64,
        needs_escape(entries[q].1@, bs)))
}

/// What `commit` leaves of the journal `o` as `f`, answering `r`.
pub open spec fn commit_post<D: Disk>(o: Journal<D>, f: Journal<D>, r: Result<(), &'static str>) -> bool {
    &&& f.current is None
    &&& f.journal_start == o.journal_start && f.journal_len == o.journal_len && f.block_size == o.block_size
    &&& f.next_seq == o.next_seq
    &&& f.disk.reliable() == o.disk.reliable()
    &&& (o.current is None ==> r is Ok && f.disk == o.disk && f.head == o.head && f.tail_seq == o.tail_seq
        && f.checkpoints@ == o.checkpoints@)
    &&& (o.current matches Some(t) && t.blocks@.len() == 0 && t.revoked@.len() == 0 ==> r is Ok
        && f.disk == o.disk && f.head == o.head && f.tail_seq == o.tail_seq && f.checkpoints@ == o.checkpoints@)
    &&& (o.current is Some && !(o.current->0.blocks@.len() == 0 && o.current->0.revoked@.len() == 0) ==> {
        let t = o.current->0;
        let bs = o.block_size;
        let entries = sorted_entries(t.blocks@);
        let plan = commit_plan(t.sequence, entries, t.revoked@, bs as nat);
        let logged = log_writes(o.disk.contents(), plan, o.journal_start as int, o.head as int,
            o.journal_len as int, bs as int);
        let new_head = pos_after(o.head as int, plan.len(), o.journal_len as int);
        let sb_off = o.journal_start * bs;
        let pairs = cp_pairs(entries, bs as nat, o.journal_start as int, o.head as int, o.journal_len as int);
        &&& in_block_order(t.blocks@, entries)
        &&& o.disk.reliable() && (o.journal_start + 2 + span(o.head, o.journal_len)) * bs <= o.disk.contents().len()
            ==> r is Ok
        &&& r is Ok ==> {
            &&& f.head == new_head
            &&& f.tail_seq == if t.sequence == o.tail_seq { (t.sequence + 1) as u32 } else { o.tail_seq }
            &&& f.checkpoints@ == o.checkpoints@.remove(t.sequence)
            &&& o.disk.reliable() ==> f.disk.contents() == put_block(
                copy_all(put_block(logged, sb_off as int, sb_block(bs as nat, o.journal_len, new_head as u32, o.tail_seq)),
                    pairs, bs as int),
                sb_off as int, sb_block(bs as nat, o.journal_len, new_head as u32, f.tail_seq))
        }
        &&& r is Err ==> f.head == o.head && f.tail_seq == o.tail_seq && f.checkpoints@ == o.checkpoints@
    })
}

} // verus!

verus! {

// ── Recovery replays a logged transaction ───────────────────────────────

/// The bytes of log position `pos` on the disk `d`.
pub open spec fn log_block(d: Seq<u8>, start: int, pos: int, bs: int) -> Seq<u8> {
    d.subrange((start + 1 + pos) * bs, (start + 1 + pos) * bs + bs)
}

/// `d` with the images `imgs[k..]`, each padded to the block size, written
/// to the filesystem blocks `keys[k..]` in order.
pub open spec fn place_from(d: Seq<u8>, keys: Seq<u64>, imgs: Seq<Seq<u8>>, k: int, bs: int) -> Seq<u8>
    decreases keys.len() - k,
{
    if k < 0 || k >= keys.len() {
        d
    } else {
        place_from(put_block(d, keys[k] * bs, padded(imgs[k], bs as nat)), keys, imgs, k + 1, bs)
    }
}

proof fn lemma_pos_after_mod(p: int, k: nat, len: int)
    requires
        0 <= p < len,
    ensures
        pos_after(p, k, len) == (p + k) % len,
        steps_after(p, k as int, len) == (p + k) % len,
    decreases k,
{
    if k == 0 {
        vstd::arithmetic::div_mod::lemma_small_mod(p as nat, len as nat);
    } else {
        lemma_pos_after_mod(p, (k - 1) as nat, len);
        let q = (p + k - 1) % len;
        vstd::arithmetic::div_mod::lemma_mod_bound(p + k - 1, len);
        assert((q + 1) % len == (p + k) % len) by {
            vstd::arithmetic::div_mod::lemma_add_mod_noop(p + k - 1, 1, len);
            if len > 1 {
                vstd::arithmetic::div_mod::lemma_small_mod(1, len as nat);
            } else {
                assert((p + k) % 1 == 0);
                assert((q + 1) % 1 == 0);
            }
        }
        if q + 1 >= len {
            assert(q + 1 == len);
            vstd::arithmetic::div_mod::lemma_mod_self_0(len);
        } else {
            vstd::arithmetic::div_mod::lemma_small_mod((q + 1) as nat, len as nat);
        }
    }
}

/// The log position `m` steps after `p`.
pub open spec fn log_pos(p: int, m: int, len: int) -> int {
    (p + m) % len
}

proof fn lemma_block_write(d: Seq<u8>, start: int, p: int, q: int, len: int, bs: int, blk: Seq<u8>)
    requires
        0 <= start,
        1 <= bs,
        0 <= p < len,
        0 <= q < len,
        blk.len() == bs,
        (start + 1 + len) * bs <= d.len(),
    ensures
        write_range(d, (start + 1 + p) * bs, blk).len() == d.len(),
        log_block(write_range(d, (start + 1 + p) * bs, blk), start, p, bs) == blk,
        q != p ==> log_block(write_range(d, (start + 1 + p) * bs, blk), start, q, bs) == log_block(d, start, q, bs),
{
    let op = (start + 1 + p) * bs;
    let oq = (start + 1 + q) * bs;
    assert(op + bs <= (start + 1 + len) * bs && 0 <= op) by (nonlinear_arith)
        requires op == (start + 1 + p) * bs, p + 1 <= len, bs >= 1, start >= 0, p >= 0;
    assert(oq + bs <= (start + 1 + len) * bs && 0 <= oq) by (nonlinear_arith)
        requires oq == (start + 1 + q) * bs, q + 1 <= len, bs >= 1, start >= 0, q >= 0;
    if q < p {
        assert(oq + bs <= op) by (nonlinear_arith)
            requires oq == (start + 1 + q) * bs, op == (start + 1 + p) * bs, q + 1 <= p, bs >= 1;
    }
    if q > p {
        assert(op + bs <= oq) by (nonlinear_arith)
            requires oq == (start + 1 + q) * bs, op == (start + 1 + p) * bs, p + 1 <= q, bs >= 1;
    }
    let w = write_range(d, op, blk);
    assert(w.len() == d.len());
    assert(w.subrange(op, op + bs) =~= blk);
    if q != p {
        assert(w.subrange(oq, oq + bs) =~= d.subrange(oq, oq + bs));
    }
}

proof fn lemma_pos_step(p: int, m: int, len: int)
    requires
        0 <= p < len,
        1 <= m,
    ensures
        log_pos(adv(p, len), m - 1, len) == log_pos(p, m, len),
        adv(p, len) == (p + 1) % len,
{
    if p + 1 >= len {
        vstd::arithmetic::div_mod::lemma_mod_self_0(len);
    } else {
        vstd::arithmetic::div_mod::lemma_small_mod((p + 1) as nat, len as nat);
    }
    vstd::arithmetic::div_mod::lemma_add_mod_noop_right(m - 1, p + 1, len);
}

proof fn lemma_log_writes(d: Seq<u8>, blocks: Seq<Seq<u8>>, start: int, p: int, len: int, bs: int)
    requires
        0 <= start,
        1 <= bs,
        0 <= p < len,
        blocks.len() <= len,
        forall|i: int| 0 <= i < blocks.len() ==> (#[trigger] blocks[i]).len() == bs,
        (start + 1 + len) * bs <= d.len(),
    ensures
        log_writes(d, blocks, start, p, len, bs).len() == d.len(),
        forall|i: int| 0 <= i < blocks.len() ==> log_block(log_writes(d, blocks, start, p, len, bs), start,
            log_pos(p, i, len), bs) == #[trigger] blocks[i],
        forall|m: int| blocks.len() <= m < len ==> #[trigger] log_block(log_writes(d, blocks, start, p, len, bs),
            start, log_pos(p, m, len), bs) == log_block(d, start, log_pos(p, m, len), bs),
    decreases blocks.len(),
{
    let r = log_writes(d, blocks, start, p, len, bs);
    if blocks.len() == 0 {
        assert(r == d);
    } else {
        let d1 = write_range(d, (start + 1 + p) * bs, blocks[0]);
        let p1 = adv(p, len);
        let rest = blocks.drop_first();
        assert(r == log_writes(d1, rest, start, p1, len, bs));
        lemma_block_write(d, start, p, p, len, bs, blocks[0]);
        lemma_pos_step(p, 1, len);
        vstd::arithmetic::div_mod::lemma_mod_bound(p + 1, len);
        assert(forall|i: int| 0 <= i < rest.len() ==> (#[trigger] rest[i]).len() == bs) by {
            assert forall|i: int| 0 <= i < rest.len() implies (#[trigger] rest[i]).len() == bs by {
                assert(rest[i] == blocks[i + 1]);
            }
        }
        lemma_log_writes(d1, rest, start, p1, len, bs);
        assert forall|i: int| 0 <= i < blocks.len() implies log_block(r, start, log_pos(p, i, len), bs)
            == #[trigger] blocks[i] by {
            if i == 0 {
                vstd::arithmetic::div_mod::lemma_small_mod(p as nat, len as nat);
                lemma_pos_step(p, len, len);
                vstd::arithmetic::div_mod::lemma_mod_add_multiples_vanish(p, len);
                assert(log_pos(p, len, len) == p);
                assert(log_pos(p1, len - 1, len) == p);
                assert(log_block(r, start, log_pos(p1, len - 1, len), bs) == log_block(d1, start, log_pos(p1, len - 1, len), bs));
            } else {
                lemma_pos_step(p, i, len);
                assert(rest[i - 1] == blocks[i]);
            }
        }
        assert forall|m: int| blocks.len() <= m < len implies #[trigger] log_block(r, start, log_pos(p, m, len), bs)
            == log_block(d, start, log_pos(p, m, len), bs) by {
            lemma_pos_step(p, m, len);
            let q = log_pos(p, m, len);
            vstd::arithmetic::div_mod::lemma_mod_bound(p + m, len);
            assert(log_block(r, start, log_pos(p1, m - 1, len), bs) == log_block(d1, start, log_pos(p1, m - 1, len), bs));
            if p + m < len {
                vstd::arithmetic::div_mod::lemma_small_mod((p + m) as nat, len as nat);
            } else {
                vstd::arithmetic::div_mod::lemma_mod_sub_multiples_vanish(p + m, len);
                vstd::arithmetic::div_mod::lemma_small_mod((p + m - len) as nat, len as nat);
            }
            assert(q != p);
            lemma_block_write(d, start, p, q, len, bs, blocks[0]);
        }
    }
}

proof fn lemma_put_outside(d: Seq<u8>, key: u64, blk: Seq<u8>, start: int, q: int, len: int, bs: int)
    requires
        0 <= start,
        1 <= bs,
        0 <= q < len,
        (start + 1 + len) * bs <= d.len(),
        blk.len() == bs,
        key < start + 1 || key >= start + 1 + len,
    ensures
        put_block(d, key * bs, blk).len() == d.len(),
        log_block(put_block(d, key * bs, blk), start, q, bs) == log_block(d, start, q, bs),
{
    let off = key * bs;
    let oq = (start + 1 + q) * bs;
    if off + bs <= d.len() {
        if key < start + 1 {
            assert(off + bs <= oq) by (nonlinear_arith)
                requires off == key * bs, oq == (start + 1 + q) * bs, key + 1 <= start + 1 + q, bs >= 1;
        } else {
            assert(oq + bs <= off) by (nonlinear_arith)
                requires off == key * bs, oq == (start + 1 + q) * bs, start + 1 + q + 1 <= key, bs >= 1;
        }
        assert(oq + bs <= d.len()) by (nonlinear_arith)
            requires oq == (start + 1 + q) * bs, q + 1 <= len, (start + 1 + len) * bs <= d.len(), bs >= 1, start >= 0;
        assert(0 <= off) by (nonlinear_arith) requires off == key * bs, bs >= 1;
        let w = write_range(d, off, blk);
        assert(w.subrange(oq, oq + bs) =~= d.subrange(oq, oq + bs));
    }
}

proof fn lemma_place_frame(d: Seq<u8>, keys: Seq<u64>, imgs: Seq<Seq<u8>>, k: int, start: int, len: int, bs: int)
    requires
        0 <= start,
        0 < len,
        1 <= bs,
        (start + 1 + len) * bs <= d.len(),
        keys.len() == imgs.len(),
        forall|j: int| 0 <= j < keys.len() ==> #[trigger] keys[j] < start + 1 || keys[j] >= start + 1 + len,
    ensures
        place_from(d, keys, imgs, k, bs).len() == d.len(),
        forall|q: int| 0 <= q < len ==> #[trigger] log_block(place_from(d, keys, imgs, k, bs), start, q, bs)
            == log_block(d, start, q, bs),
    decreases keys.len() - k,
{
    if 0 <= k < keys.len() {
        let blk = padded(imgs[k], bs as nat);
        let d2 = put_block(d, keys[k] * bs, blk);
        assert(blk.len() == bs);
        lemma_put_outside(d, keys[k], blk, start, 0, len, bs);
        lemma_place_frame(d2, keys, imgs, k + 1, start, len, bs);
        assert forall|q: int| 0 <= q < len implies #[trigger] log_block(place_from(d, keys, imgs, k, bs), start, q, bs)
            == log_block(d, start, q, bs) by {
            lemma_put_outside(d, keys[k], blk, start, q, len, bs);
        }
    }
}

proof fn lemma_unescape_data(img: Seq<u8>, bs: nat)
    requires
        4 <= bs,
    ensures
        data_block(img, bs).len() == bs,
        padded(img, bs).len() == bs,
        unescape(data_block(img, bs), needs_escape(img, bs)) == padded(img, bs),
{
    let pd = padded(img, bs);
    assert(pd.len() == bs);
    if needs_escape(img, bs) {
        let x = write_range(pd, 0, zeros(4));
        assert(write_range(x, 0, be32(JBD2_MAGIC)) =~= pd) by {
            assert forall|i: int| 0 <= i < 4 implies pd[i] == be32(JBD2_MAGIC)[i] by {
                assert(pd.take(4)[i] == pd[i]);
            }
        }
    }
}

proof fn lemma_flag_escape(bi: int, n: int, esc: bool)
    ensures
        (tag_flags(bi, n, esc) as u32) & (JBD2_FLAG_ESCAPE as u32) != 0 <==> esc,
{
    lemma_byte_codec();
}

proof fn lemma_replay_commit_tags(d: Seq<u8>, keys: Seq<u64>, imgs: Seq<Seq<u8>>, escs: Seq<bool>,
    tags: Seq<(u64, u32, u32)>, k: int, head: int, start: int, len: int, bs: int, c: u32)
    requires
        0 <= start,
        MIN_BLOCK_SIZE <= bs,
        0 <= head < len,
        keys.len() == imgs.len() && escs.len() == keys.len(),
        keys.len() + 1 <= len,
        0 <= k <= keys.len(),
        c + keys.len() - k <= u32::MAX,
        (start + 1 + len) * bs <= d.len() <= u64::MAX,
        tags == Seq::new(keys.len(), |j: int| (keys[j], tag_flags(j, keys.len() as int, escs[j]) as u32, 0u32)),
        forall|j: int| 0 <= j < keys.len() ==> #[trigger] escs[j] == needs_escape(imgs[j], bs as nat),
        forall|j: int| 0 <= j < keys.len() ==> #[trigger] keys[j] < start + 1 || keys[j] >= start + 1 + len,
        forall|j: int| k <= j < keys.len() ==> #[trigger] log_block(d, start, log_pos(head, j + 1, len), bs)
            == data_block(imgs[j], bs as nat),
    ensures
        replay_tags(d, tags, k, head, start, len, bs, c) == (place_from(d, keys, imgs, k, bs), keys.len() as int,
            (c + keys.len() - k) as u32),
    decreases keys.len() - k,
{
    if k < keys.len() {
        let pos = log_pos(head, k + 1, len);
        lemma_pos_after_mod(head, (k + 1) as nat, len);
        vstd::arithmetic::div_mod::lemma_mod_bound(head + k + 1, len);
        let off = (start + 1 + steps_after(head, k + 1, len)) * bs;
        assert(off + bs <= d.len() && off >= 0) by (nonlinear_arith)
            requires off == (start + 1 + pos) * bs, pos + 1 <= len, (start + 1 + len) * bs <= d.len(), bs >= 1,
                start >= 0, pos >= 0;
        assert(d.subrange(off, off + bs) == log_block(d, start, pos, bs));
        lemma_flag_escape(k, keys.len() as int, escs[k]);
        lemma_unescape_data(imgs[k], bs as nat);
        let blk = padded(imgs[k], bs as nat);
        assert(tags[k].0 == keys[k]);
        assert(unescape(d.subrange(off, off + bs), tags[k].1 & (JBD2_FLAG_ESCAPE as u32) != 0) == blk);
        let d2 = put_block(d, keys[k] * bs, blk);
        if keys[k] * bs > u64::MAX {
            assert(d2 == d);
        }
        lemma_put_outside(d, keys[k], blk, start, 0, len, bs);
        assert forall|j: int| k + 1 <= j < keys.len() implies #[trigger] log_block(d2, start, log_pos(head, j + 1, len), bs)
            == data_block(imgs[j], bs as nat) by {
            vstd::arithmetic::div_mod::lemma_mod_bound(head + j + 1, len);
            lemma_put_outside(d, keys[k], blk, start, log_pos(head, j + 1, len), len, bs);
        }
        lemma_replay_commit_tags(d2, keys, imgs, escs, tags, k + 1, head, start, len, bs, sat_inc(c));
    }
}

proof fn lemma_header_fields(b: Seq<u8>, ty: u32, seq: u32)
    requires
        b.len() >= 12,
        forall|i: int| 0 <= i < 12 ==> b[i] == #[trigger] header(ty, seq)[i],
    ensures
        be32_at(b, 0) == JBD2_MAGIC,
        be32_at(b, 4) == ty,
        be32_at(b, 8) == seq,
{
    lemma_byte_codec();
    let h = header(ty, seq);
    assert(b[0] == h[0] && b[1] == h[1] && b[2] == h[2] && b[3] == h[3]);
    assert(b[4] == h[4] && b[5] == h[5] && b[6] == h[6] && b[7] == h[7]);
    assert(b[8] == h[8] && b[9] == h[9] && b[10] == h[10] && b[11] == h[11]);
    let m = JBD2_MAGIC;
    assert(be32_at(b, 0) == ((m >> 24u32) as u8) as u32 * 0x100_0000u32 + ((m >> 16u32) as u8) as u32 * 0x1_0000u32
        + ((m >> 8u32) as u8) as u32 * 0x100u32 + (m as u8) as u32);
    assert(be32_at(b, 4) == ((ty >> 24u32) as u8) as u32 * 0x100_0000u32 + ((ty >> 16u32) as u8) as u32 * 0x1_0000u32
        + ((ty >> 8u32) as u8) as u32 * 0x100u32 + (ty as u8) as u32);
    assert(be32_at(b, 8) == ((seq >> 24u32) as u8) as u32 * 0x100_0000u32 + ((seq >> 16u32) as u8) as u32 * 0x1_0000u32
        + ((seq >> 8u32) as u8) as u32 * 0x100u32 + (seq as u8) as u32);
}

proof fn lemma_revoke_entries_frame(b: Seq<u8>, revoked: Seq<u64>, i: int)
    requires
        0 <= i,
    ensures
        revoke_entries(b, revoked, i).len() == b.len(),
        forall|x: int| 0 <= x < 16 ==> #[trigger] revoke_entries(b, revoked, i)[x] == b[x],
    decreases revoked.len() - i,
{
    lemma_revoke_entries_unfold(b, revoked, i);
    if !(i >= revoked.len() || 16 + i * 8 + 8 > b.len()) {
        let b2 = write_range(b, 16 + i * 8, be64(revoked[i]));
        lemma_revoke_entries_frame(b2, revoked, i + 1);
        assert forall|x: int| 0 <= x < 16 implies #[trigger] revoke_entries(b, revoked, i)[x] == b[x] by {
            assert(b2[x] == b[x]);
        }
    }
}

/// Log positions 1 to `len - 1` steps after the head are not the head,
/// and each is followed by the next.
proof fn lemma_pos_after_head(head: int, m: int, len: int)
    requires
        0 <= head < len,
        0 < m < len,
    ensures
        0 <= log_pos(head, m, len) < len,
        log_pos(head, m, len) != head,
        (log_pos(head, m, len) + 1) % len == log_pos(head, m + 1, len),
{
    vstd::arithmetic::div_mod::lemma_mod_bound(head + m, len);
    vstd::arithmetic::div_mod::lemma_add_mod_noop_right(1, head + m, len);
    if head + m < len {
        vstd::arithmetic::div_mod::lemma_small_mod((head + m) as nat, len as nat);
    } else {
        vstd::arithmetic::div_mod::lemma_mod_sub_multiples_vanish(head + m, len);
        vstd::arithmetic::div_mod::lemma_small_mod((head + m - len) as nat, len as nat);
    }
}

/// A transaction that `commit` logged is replayed by `recover`: on a disk
/// whose log holds, from the head, the descriptor, data, revoke (when
/// blocks were revoked) and commit blocks of transaction `seq` (its blocks
/// `entries` in block order, each block number within the tag's 48 bits
/// and outside the log; all tags within one descriptor), followed by a
/// block that is not a log block, recovery from the head writes each
/// block's image, padded to the block size and with its magic restored,
/// to its filesystem block in order, moves the tail sequence past `seq`,
/// and counts the blocks.
pub proof fn law_recover_replays_commit(d0: Seq<u8>, start: int, len: int, bs: int, head: int, seq: u32, tail: u32,
    entries: Seq<(u64, Vec<u8>)>, revoked: Seq<u64>)
    requires
        MIN_BLOCK_SIZE <= bs <= MAX_BLOCK_SIZE,
        0 <= start,
        0 <= head < len,
        1 <= entries.len(),
        commit_plan(seq, entries, revoked, bs as nat).len() < len,
        28 + 12 * entries.len() <= bs,
        (start + 1 + len) * bs <= d0.len() <= u64::MAX,
        forall|j: int| 0 <= j < entries.len() ==> (#[trigger] entries[j]).0 < 0x1_0000_0000_0000u64
            && (entries[j].0 < start + 1 || entries[j].0 >= start + 1 + len),
        be32_at(log_block(log_writes(d0, commit_plan(seq, entries, revoked, bs as nat), start, head, len, bs),
            start, log_pos(head, commit_plan(seq, entries, revoked, bs as nat).len() as int, len), bs), 0)
            != JBD2_MAGIC,
    ensures
        ({
            let d = log_writes(d0, commit_plan(seq, entries, revoked, bs as nat), start, head, len, bs);
            let keys = Seq::new(entries.len(), |j: int| entries[j].0);
            let imgs = Seq::new(entries.len(), |j: int| entries[j].1@);
            scan(d, start, len, bs, head, head, tail, 0, len as nat) == (place_from(d, keys, imgs, 0, bs),
                if seq >= tail { seq.wrapping_add(1) } else { tail }, entries.len() as u32)
        }),
{
    let n = entries.len() as int;
    let rv: int = if revoked.len() > 0 { 1 } else { 0 };
    let plan = commit_plan(seq, entries, revoked, bs as nat);
    let d = log_writes(d0, plan, start, head, len, bs);
    let keys = Seq::new(entries.len(), |j: int| entries[j].0);
    let imgs = Seq::new(entries.len(), |j: int| entries[j].1@);
    let escs = Seq::new(entries.len(), |j: int| needs_escape(imgs[j], bs as nat));
    assert(entries.map_values(|e: (u64, Vec<u8>)| e.0) =~= keys);
    assert(entries.map_values(|e: (u64, Vec<u8>)| needs_escape(e.1@, bs as nat)) =~= escs);
    let desc = desc_block(seq, keys, escs, bs as nat);
    let cb = commit_block(seq, bs as nat);
    let rb = revoke_block(seq, revoked, bs as nat);
    assert(plan.len() == n + 2 + rv);
    assert(plan[0] == desc);
    assert(plan[n + 1 + rv] == cb);
    assert(rv == 1 ==> plan[n + 1] == rb);
    assert forall|j: int| 0 <= j < n implies plan[j + 1] == data_block(#[trigger] imgs[j], bs as nat) by {
        assert(plan[j + 1] == entries.map_values(|e: (u64, Vec<u8>)| data_block(e.1@, bs as nat))[j]);
    }
    // Every planned block fills one log block.
    let b0 = write_range(zeros(bs as nat), 0, header(JBD2_DESCRIPTOR_BLOCK, seq));
    lemma_desc_tags_frame(b0, keys, escs, 0);
    let r0 = write_range(write_range(zeros(bs as nat), 0, header(JBD2_REVOKE_BLOCK, seq)), 12,
        be32((if 12 + revoked.len() * 8 <= bs { (12 + revoked.len() * 8) as int } else { bs as int }) as u32));
    lemma_revoke_entries_frame(r0, revoked, 0);
    assert(desc.len() == bs);
    assert(cb.len() == bs);
    assert(rb.len() == bs);
    assert forall|i: int| 0 <= i < plan.len() implies (#[trigger] plan[i]).len() == bs by {
        if 1 <= i <= n {
            lemma_unescape_data(imgs[i - 1], bs as nat);
            assert(plan[(i - 1) + 1] == data_block(imgs[i - 1], bs as nat));
        }
    }
    lemma_log_writes(d0, plan, start, head, len, bs);
    vstd::arithmetic::div_mod::lemma_small_mod(head as nat, len as nat);
    assert(log_pos(head, 0, len) == head);
    assert(log_block(d, start, head, bs) == desc);
    // The descriptor: its header, then its tags.
    assert forall|i: int| 0 <= i < 12 implies desc[i] == #[trigger] header(JBD2_DESCRIPTOR_BLOCK, seq)[i] by {
        assert(desc[i] == b0[i]);
    }
    lemma_header_fields(desc, JBD2_DESCRIPTOR_BLOCK, seq);
    law_descriptor_roundtrip(seq, keys, escs, bs as nat);
    let tags = parse_tags(desc, HEADER_SIZE as int);
    assert(tags == Seq::new(keys.len(), |k: int| (keys[k], tag_flags(k, keys.len() as int, escs[k]) as u32, 0u32)));
    assert forall|j: int| 0 <= j < keys.len() implies #[trigger] log_block(d, start, log_pos(head, j + 1, len), bs)
        == data_block(imgs[j], bs as nat) by {
        assert(plan[j + 1] == data_block(imgs[j], bs as nat));
    }
    assert forall|j: int| 0 <= j < keys.len() implies #[trigger] keys[j] < start + 1 || keys[j] >= start + 1 + len by {
        assert(entries[j].0 == keys[j]);
    }
    lemma_replay_commit_tags(d, keys, imgs, escs, tags, 0, head, start, len, bs, 0);
    let d2 = place_from(d, keys, imgs, 0, bs);
    lemma_place_frame(d, keys, imgs, 0, start, len, bs);
    // The positions after the data blocks.
    lemma_pos_after_mod(head, (n + 1) as nat, len);
    let p2 = log_pos(head, n + 1, len);
    let pc = log_pos(head, n + 1 + rv, len);
    let pa = log_pos(head, n + 2 + rv, len);
    lemma_pos_after_head(head, n + 1, len);
    lemma_pos_after_head(head, n + 1 + rv, len);
    lemma_pos_after_head(head, n + 2 + rv, len);
    // The commit block, and the revoke block before it.
    assert(log_block(d2, start, pc, bs) == cb);
    let cb0 = write_range(zeros(bs as nat), 0, header(JBD2_COMMIT_BLOCK, seq));
    assert forall|i: int| 0 <= i < 12 implies cb[i] == #[trigger] header(JBD2_COMMIT_BLOCK, seq)[i] by {
        assert(cb[i] == cb0[i]);
    }
    lemma_header_fields(cb, JBD2_COMMIT_BLOCK, seq);
    assert(log_block(d2, start, pa, bs) == log_block(d, start, pa, bs));
    assert((start + 1 + head) * bs + bs <= (start + 1 + len) * bs) by (nonlinear_arith)
        requires head + 1 <= len, bs >= 1;
    assert((start + 1 + pc) * bs + bs <= (start + 1 + len) * bs) by (nonlinear_arith)
        requires pc + 1 <= len, bs >= 1;
    assert((start + 1 + pa) * bs + bs <= (start + 1 + len) * bs) by (nonlinear_arith)
        requires pa + 1 <= len, bs >= 1;
    let t2 = if seq >= tail { seq.wrapping_add(1) } else { tail };
    assert(scan(d2, start, len, bs, head, pa, t2, n as u32, (len - 2 - rv) as nat) == (d2, t2, n as u32));
    assert(scan(d2, start, len, bs, head, pc, tail, n as u32, (len - 1 - rv) as nat)
        == scan(d2, start, len, bs, head, pa, t2, n as u32, (len - 2 - rv) as nat));
    if rv == 1 {
        assert(log_block(d2, start, p2, bs) == rb);
        assert forall|i: int| 0 <= i < 12 implies rb[i] == #[trigger] header(JBD2_REVOKE_BLOCK, seq)[i] by {
            assert(rb[i] == r0[i]);
        }
        lemma_header_fields(rb, JBD2_REVOKE_BLOCK, seq);
        assert((start + 1 + p2) * bs + bs <= (start + 1 + len) * bs) by (nonlinear_arith)
            requires p2 + 1 <= len, bs >= 1;
        assert(scan(d2, start, len, bs, head, p2, tail, n as u32, (len - 1) as nat)
            == scan(d2, start, len, bs, head, pc, tail, n as u32, (len - 2) as nat));
    }
    assert(scan(d, start, len, bs, head, head, tail, 0, len as nat)
        == scan(d2, start, len, bs, head, p2, tail, n as u32, (len - 1) as nat));
}

} // verus!
