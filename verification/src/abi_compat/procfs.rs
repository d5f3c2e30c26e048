//! The text of the `/proc` files whose contents come from the kernel's
//! state: memory counts, the calling process's mappings, status and stat.
use vstd::prelude::*;
use vstd::string::StringSliceAdditionalSpecFns;
use crate::drm::dec;
use crate::memory::vmm::{VmaRegion, PROT_READ, PROT_WRITE, PROT_EXEC};

verus! {

/// Appends the bytes of `b`.
fn push_all(out: &mut Vec<u8>, b: &[u8])
    ensures
        final(out)@ == old(out)@ + b@,
{
    let mut i: usize = 0;
    while i < b.len()
        invariant
            i <= b@.len(),
            out@ == old(out)@ + b@.take(i as int),
        decreases b@.len() - i,
    {
        out.push(b[i]);
        assert(b@.take(i + 1) =~= b@.take(i as int).push(b@[i as int]));
        i = i + 1;
    }
    assert(b@.take(b@.len() as int) =~= b@);
}

/// Appends the bytes of the text `s`.
fn push_str(out: &mut Vec<u8>, s: &str)
    ensures
        final(out)@ == old(out)@ + s.spec_bytes(),
{
    push_all(out, s.as_bytes());
}

/// Appends the decimal digits of `n`.
fn push_dec(out: &mut Vec<u8>, n: u64)
    ensures
        final(out)@ == old(out)@ + dec(n as nat),
    decreases n,
{
    if n >= 10 {
        push_dec(out, n / 10);
    }
    let d: u8 = (48 + n % 10) as u8;
    out.push(d);
    proof {
        if n >= 10 {
            assert(dec(n as nat) == dec((n / 10) as nat).push(d));
        }
    }
}

/// A hexadecimal digit, lower case.
pub open spec fn hex_digit(v: int) -> u8 {
    if v < 10 { (48 + v) as u8 } else { (87 + v) as u8 }
}

/// The last `k` hexadecimal digits of `n`, zero-padded.
pub open spec fn hex_pad(n: nat, k: nat) -> Seq<u8>
    decreases k,
{
    if k == 0 { Seq::empty() } else { hex_pad(n / 16, (k - 1) as nat).push(hex_digit((n % 16) as int)) }
}

/// Appends the last `k` hexadecimal digits of `n`.
fn push_hex(out: &mut Vec<u8>, n: u64, k: u32)
    ensures
        final(out)@ == old(out)@ + hex_pad(n as nat, k as nat),
    decreases k,
{
    if k == 0 {
        assert(old(out)@ + hex_pad(n as nat, 0) =~= old(out)@);
        return;
    }
    push_hex(out, n / 16, k - 1);
    let v = n % 16;
    let d: u8 = if v < 10 { (48 + v) as u8 } else { (87 + v) as u8 };
    out.push(d);
    assert(hex_pad(n as nat, k as nat) == hex_pad((n / 16) as nat, (k - 1) as nat).push(d));
}

/// `/proc/meminfo` for `total_kb` kilobytes of memory of which `free_kb`
/// are free.
pub open spec fn meminfo_text(total_kb: nat, free_kb: nat) -> Seq<u8> {
    "MemTotal:\t".spec_bytes() + dec(total_kb) + " kB\nMemFree:\t".spec_bytes() + dec(free_kb)
        + " kB\nMemAvailable:\t".spec_bytes() + dec(free_kb)
        + " kB\nBuffers:\t0 kB\nCached:\t\t0 kB\nSwapTotal:\t0 kB\nSwapFree:\t0 kB\n".spec_bytes()
}

/// `/proc/meminfo` for `total` frames of which `free` are free (4 kB each).
pub fn render_meminfo(total: u64, free: u64) -> (r: Vec<u8>)
    requires
        total * 4 <= u64::MAX,
        free * 4 <= u64::MAX,
    ensures
        r@ == meminfo_text((total * 4) as nat, (free * 4) as nat),
{
    let mut out: Vec<u8> = Vec::new();
    push_str(&mut out, "MemTotal:\t");
    push_dec(&mut out, total * 4);
    push_str(&mut out, " kB\nMemFree:\t");
    push_dec(&mut out, free * 4);
    push_str(&mut out, " kB\nMemAvailable:\t");
    push_dec(&mut out, free * 4);
    push_str(&mut out, " kB\nBuffers:\t0 kB\nCached:\t\t0 kB\nSwapTotal:\t0 kB\nSwapFree:\t0 kB\n");
    assert(out@ =~= meminfo_text((total * 4) as nat, (free * 4) as nat));
    out
}

/// The permission letters of a mapping: `r`, `w`, `x` or `-` each, then
/// `p`.
pub open spec fn perms(bits: u32) -> Seq<u8> {
    seq![if bits & PROT_READ != 0 { 114u8 } else { 45u8 }, if bits & PROT_WRITE != 0 { 119u8 } else { 45u8 },
        if bits & PROT_EXEC != 0 { 120u8 } else { 45u8 }, 112u8]
}

/// The line of `/proc/self/maps` for one region: start and end in 16
/// hexadecimal digits, the permissions, and a zero offset, device and
/// inode.
pub open spec fn maps_line(r: VmaRegion) -> Seq<u8> {
    hex_pad(r.start as nat, 16) + seq![45u8] + hex_pad(r.end as nat, 16) + seq![32u8] + perms(r.prot.bits)
        + " 0 00:00 0\n".spec_bytes()
}

/// `/proc/self/maps` for the regions `rs`, one line each, in order.
pub open spec fn maps_text(rs: Seq<VmaRegion>) -> Seq<u8>
    decreases rs.len(),
{
    if rs.len() == 0 { Seq::empty() } else { maps_text(rs.drop_last()) + maps_line(rs.last()) }
}

/// `/proc/self/maps` for the regions `rs`.
pub fn render_maps(rs: &[VmaRegion]) -> (r: Vec<u8>)
    ensures
        r@ == maps_text(rs@),
{
    let mut out: Vec<u8> = Vec::new();
    let mut i: usize = 0;
    while i < rs.len()
        invariant
            i <= rs@.len(),
            out@ == maps_text(rs@.take(i as int)),
        decreases rs@.len() - i,
    {
        let r = &rs[i];
        let ghost before = out@;
        push_hex(&mut out, r.start, 16);
        out.push(45u8);
        push_hex(&mut out, r.end, 16);
        out.push(32u8);
        let b = r.prot.bits;
        out.push(if b & PROT_READ != 0 { 114u8 } else { 45u8 });
        out.push(if b & PROT_WRITE != 0 { 119u8 } else { 45u8 });
        out.push(if b & PROT_EXEC != 0 { 120u8 } else { 45u8 });
        out.push(112u8);
        push_str(&mut out, " 0 00:00 0\n");
        proof {
            assert(rs@.take(i + 1).drop_last() =~= rs@.take(i as int));
            assert(out@ =~= before + maps_line(rs@[i as int]));
        }
        i = i + 1;
    }
    assert(rs@.take(rs@.len() as int) =~= rs@);
    out
}

/// `/proc/self/status` for process `pid` named `name` with ids `uid` and
/// `gid`.
pub open spec fn status_text(pid: nat, name: Seq<u8>, uid: nat, gid: nat) -> Seq<u8> {
    "Name:\t".spec_bytes() + name + "\nPid:\t".spec_bytes() + dec(pid) + "\nUid:\t".spec_bytes()
        + dec(uid) + seq![32u8] + dec(uid) + seq![32u8] + dec(uid) + seq![32u8] + dec(uid)
        + "\nGid:\t".spec_bytes() + dec(gid) + seq![32u8] + dec(gid) + seq![32u8] + dec(gid) + seq![32u8] + dec(gid)
        + "\nVmRSS:\t1024 kB\nThreads:\t1\n".spec_bytes()
}

/// `/proc/self/status` for the calling process.
pub fn render_status(pid: u32, name: &str, uid: u32, gid: u32) -> (r: Vec<u8>)
    ensures
        r@ == status_text(pid as nat, name.spec_bytes(), uid as nat, gid as nat),
{
    let mut out: Vec<u8> = Vec::new();
    push_str(&mut out, "Name:\t");
    push_str(&mut out, name);
    push_str(&mut out, "\nPid:\t");
    push_dec(&mut out, pid as u64);
    push_str(&mut out, "\nUid:\t");
    push_dec(&mut out, uid as u64);
    out.push(32u8);
    push_dec(&mut out, uid as u64);
    out.push(32u8);
    push_dec(&mut out, uid as u64);
    out.push(32u8);
    push_dec(&mut out, uid as u64);
    push_str(&mut out, "\nGid:\t");
    push_dec(&mut out, gid as u64);
    out.push(32u8);
    push_dec(&mut out, gid as u64);
    out.push(32u8);
    push_dec(&mut out, gid as u64);
    out.push(32u8);
    push_dec(&mut out, gid as u64);
    push_str(&mut out, "\nVmRSS:\t1024 kB\nThreads:\t1\n");
    assert(out@ =~= status_text(pid as nat, name.spec_bytes(), uid as nat, gid as nat));
    out
}

/// `/proc/self/stat` for process `pid`.
pub open spec fn stat_text(pid: nat) -> Seq<u8> {
    dec(pid) + " (qunix) S 0 ".spec_bytes() + dec(pid) + seq![32u8] + dec(pid)
        + " 0 0 0 0 0 0 0 0 0 0 0 0 20 0 1 0 0 0 0\n".spec_bytes()
}

/// `/proc/self/stat` for the calling process.
pub fn render_stat(pid: u32) -> (r: Vec<u8>)
    ensures
        r@ == stat_text(pid as nat),
{
    let mut out: Vec<u8> = Vec::new();
    push_dec(&mut out, pid as u64);
    push_str(&mut out, " (qunix) S 0 ");
    push_dec(&mut out, pid as u64);
    out.push(32u8);
    push_dec(&mut out, pid as u64);
    push_str(&mut out, " 0 0 0 0 0 0 0 0 0 0 0 0 20 0 1 0 0 0 0\n");
    assert(out@ =~= stat_text(pid as nat));
    out
}

} // verus!
