//! Little-endian integers read from byte buffers.
use vstd::prelude::*;

verus! {

pub open spec fn spec_u16_le(b: Seq<u8>, off: int) -> u16 {
    (b[off] as int + b[off + 1] as int * 0x100) as u16
}

pub open spec fn spec_u32_le(b: Seq<u8>, off: int) -> u32 {
    (b[off] as int + b[off + 1] as int * 0x100 + b[off + 2] as int * 0x10000 + b[off + 3] as int * 0x1000000) as u32
}

pub open spec fn spec_u64_le(b: Seq<u8>, off: int) -> u64 {
    (spec_u32_le(b, off) as int + spec_u32_le(b, off + 4) as int * 0x1_0000_0000) as u64
}

pub fn read_u16_le(b: &[u8], off: usize) -> (r: u16)
    requires
        off + 2 <= b@.len(),
    ensures
        r == spec_u16_le(b@, off as int),
{
    let _len = b.len();
    let b0 = b[off] as u16;
    let b1 = b[off + 1] as u16;
    let r = b0 | (b1 << 8);
    assert(r == b0 + b1 * 0x100) by (bit_vector)
        requires
            b0 < 256, b1 < 256,
            r == b0 | (b1 << 8);
    r
}

pub fn read_u32_le(b: &[u8], off: usize) -> (r: u32)
    requires
        off + 4 <= b@.len(),
    ensures
        r == spec_u32_le(b@, off as int),
{
    let _len = b.len();
    let b0 = b[off] as u32;
    let b1 = b[off + 1] as u32;
    let b2 = b[off + 2] as u32;
    let b3 = b[off + 3] as u32;
    let r = b0 | (b1 << 8) | (b2 << 16) | (b3 << 24);
    assert(r == b0 + b1 * 0x100 + b2 * 0x10000 + b3 * 0x1000000) by (bit_vector)
        requires
            b0 < 256, b1 < 256, b2 < 256, b3 < 256,
            r == b0 | (b1 << 8) | (b2 << 16) | (b3 << 24);
    r
}

pub fn read_u64_le(b: &[u8], off: usize) -> (r: u64)
    requires
        off + 8 <= b@.len(),
    ensures
        r == spec_u64_le(b@, off as int),
{
    let _len = b.len();
    let lo = read_u32_le(b, off) as u64;
    let hi = read_u32_le(b, off + 4) as u64;
    let r = lo | (hi << 32);
    assert(r == lo + hi * 0x1_0000_0000) by (bit_vector)
        requires
            lo < 0x1_0000_0000, hi < 0x1_0000_0000,
            r == lo | (hi << 32);
    r
}

/// Bytes `off .. off + n` of `b` equal `pat`.
pub fn bytes_eq_at(b: &[u8], off: usize, pat: &[u8]) -> (r: bool)
    requires
        off + pat@.len() <= b@.len(),
    ensures
        r == (b@.subrange(off as int, off + pat@.len()) == pat@),
{
    let _len = b.len();
    let mut i: usize = 0;
    while i < pat.len()
        invariant
            i <= pat@.len(),
            _len == b@.len(),
            off + pat@.len() <= b@.len(),
            forall|k: int| 0 <= k < i ==> b@[off + k] == pat@[k],
        decreases pat@.len() - i,
    {
        if b[off + i] != pat[i] {
            proof {
                assert(b@.subrange(off as int, off + pat@.len())[i as int] != pat@[i as int]);
            }
            return false;
        }
        i = i + 1;
    }
    assert(b@.subrange(off as int, off + pat@.len()) =~= pat@);
    true
}

/// The first `n` bytes of `b`, copied into a vector.
pub fn copy_bytes(b: &[u8], off: usize, n: usize) -> (r: Vec<u8>)
    requires
        off + n <= b@.len(),
    ensures
        r@ == b@.subrange(off as int, off + n),
{
    let _len = b.len();
    let mut v: Vec<u8> = Vec::with_capacity(n);
    let mut i: usize = 0;
    while i < n
        invariant
            i <= n,
            _len == b@.len(),
            off + n <= b@.len(),
            v@ == b@.subrange(off as int, off + i),
        decreases n - i,
    {
        v.push(b[off + i]);
        i = i + 1;
        proof {
            assert(v@ =~= b@.subrange(off as int, off + i));
        }
    }
    v
}

} // verus!
