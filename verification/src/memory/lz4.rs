//! LZ4 block format: decoder, encoder and the CRC-32 used to check pages.
//!
//! A block is a run of sequences. Each sequence is a token byte (high
//! nibble: literal count, low nibble: match length minus four, 15 meaning
//! "more length bytes follow"), the literals, and, except in the last
//! sequence, a two-byte little-endian back-reference distance and the
//! match. A length extension is a run of 255 bytes closed by a byte below
//! 255, all added to the nibble.
use vstd::prelude::*;

verus! {

pub const LZ4_MIN_MATCH: usize = 4;
pub const LZ4_HASH_BITS: usize = 16;
pub const LZ4_HASH_SIZE: usize = 65536;
pub const LZ4_MAX_DISTANCE: usize = 65535;
pub const LZ4_SKIP_TRIGGER: usize = 6;

/// A length extension read from `i` on, added to `acc`: the value and the
/// index just past it, or `None` when the input ends inside it.
pub open spec fn ext_len(b: Seq<u8>, i: int, acc: int) -> Option<(int, int)>
    decreases b.len() - i,
{
    if i < 0 || i >= b.len() {
        None
    } else if b[i] == 255 {
        ext_len(b, i + 1, acc + 255)
    } else {
        Some((acc + b[i] as int, i + 1))
    }
}

/// `out` extended by `n` bytes, each copied from `off` bytes before it.
pub open spec fn copy_match(out: Seq<u8>, off: int, n: nat) -> Seq<u8>
    decreases n,
{
    if n == 0 {
        out
    } else {
        let o = copy_match(out, off, (n - 1) as nat);
        o.push(o[o.len() - off])
    }
}

/// One sequence decoded from index `i` onto `out`, for an output of `dlen`
/// bytes: the index after it, the output, and whether it was the last one.
pub open spec fn seq_step(b: Seq<u8>, i: int, out: Seq<u8>, dlen: int) -> Option<(int, Seq<u8>, bool)> {
    if i < 0 || i >= b.len() {
        None
    } else {
        let t = b[i] as int;
        let lit = if t / 16 == 15 { ext_len(b, i + 1, 15) } else { Some((t / 16, i + 1)) };
        match lit {
            None => None,
            Some((ll, p)) => {
                if p + ll > b.len() || out.len() + ll > dlen {
                    None
                } else {
                    let out1 = out + b.subrange(p, p + ll);
                    let q = p + ll;
                    if q >= b.len() {
                        Some((q, out1, true))
                    } else if q + 2 > b.len() {
                        None
                    } else {
                        let off = b[q] as int + b[q + 1] as int * 256;
                        if off == 0 || off > out1.len() {
                            None
                        } else {
                            let mat = if t % 16 == 15 {
                                ext_len(b, q + 2, 19)
                            } else {
                                Some((t % 16 + 4, q + 2))
                            };
                            match mat {
                                None => None,
                                Some((ml, r)) => {
                                    if out1.len() + ml > dlen {
                                        None
                                    } else {
                                        Some((r, copy_match(out1, off, ml as nat), false))
                                    }
                                },
                            }
                        }
                    }
                }
            },
        }
    }
}

/// Decoding from index `i` with `out` already produced.
pub open spec fn decode_from(b: Seq<u8>, i: int, out: Seq<u8>, dlen: int) -> Option<Seq<u8>>
    decreases b.len() - i,
{
    match seq_step(b, i, out, dlen) {
        None => None,
        Some((j, o, last)) => {
            if last {
                if o.len() == dlen { Some(o) } else { None }
            } else if i < j <= b.len() {
                decode_from(b, j, o, dlen)
            } else {
                None
            }
        },
    }
}

/// The block `b` decoded to exactly `dlen` bytes, if it is well formed.
pub open spec fn lz4_decode(b: Seq<u8>, dlen: int) -> Option<Seq<u8>> {
    decode_from(b, 0, Seq::empty(), dlen)
}

pub proof fn lemma_ext_len_bounds(b: Seq<u8>, i: int, acc: int)
    ensures
        ext_len(b, i, acc) matches Some((v, k)) ==> v >= acc && i < k <= b.len(),
    decreases b.len() - i,
{
    if 0 <= i < b.len() && b[i] == 255 {
        lemma_ext_len_bounds(b, i + 1, acc + 255);
    }
}

pub proof fn lemma_copy_match_len(out: Seq<u8>, off: int, n: nat)
    ensures
        copy_match(out, off, n).len() == out.len() + n,
        copy_match(out, off, n).take(out.len() as int) == out,
    decreases n,
{
    if n > 0 {
        lemma_copy_match_len(out, off, (n - 1) as nat);
        let o = copy_match(out, off, (n - 1) as nat);
        assert(o.push(o[o.len() - off]).take(out.len() as int) =~= o.take(out.len() as int));
    }
}

/// Reads a length extension; `None` when the step that needs it must fail
/// (the input ends inside it, or its value exceeds `limit`).
fn read_ext(src: &[u8], i: usize, acc: usize, limit: usize) -> (r: Option<(usize, usize)>)
    requires
        acc <= limit + 19,
        limit <= isize::MAX,
    ensures
        r matches Some((v, k)) ==> ext_len(src@, i as int, acc as int) == Some((v as int, k as int))
            && v <= limit,
        r is None ==> (ext_len(src@, i as int, acc as int) is None
            || (ext_len(src@, i as int, acc as int)->0).0 > limit),
{
    let mut j: usize = i;
    let mut a: usize = acc;
    while j < src.len()
        invariant
            a <= limit + 19,
            limit <= isize::MAX,
            i <= j,
            ext_len(src@, i as int, acc as int) == ext_len(src@, j as int, a as int),
        decreases src@.len() - j,
    {
        let b = src[j];
        if b != 255 {
            let v = a + b as usize;
            if v > limit {
                proof {
                    lemma_ext_len_bounds(src@, j as int, a as int);
                }
                return None;
            }
            return Some((v, j + 1));
        }
        if a + 255 > limit + 19 {
            proof {
                lemma_ext_len_bounds(src@, j as int + 1, a as int + 255);
            }
            return None;
        }
        a = a + 255;
        j = j + 1;
    }
    None
}

/// Decodes the block `src` into `dst`, which must be exactly as long as the
/// original data; `true` when the block is well formed and fills `dst`.
pub fn lz4_decompress(src: &[u8], dst: &mut [u8]) -> (r: bool)
    requires
        src@.len() <= isize::MAX,
        old(dst)@.len() <= isize::MAX,
    ensures
        final(dst)@.len() == old(dst)@.len(),
        r == lz4_decode(src@, old(dst)@.len() as int) is Some,
        r ==> final(dst)@ == lz4_decode(src@, old(dst)@.len() as int)->0,
{
    let slen = src.len();
    let dlen = dst.len();
    proof {
            }
    let ghost whole = lz4_decode(src@, dlen as int);
    let mut ip: usize = 0;
    let mut op: usize = 0;
    assert(dst@.take(0) =~= Seq::<u8>::empty());
    loop
        invariant
            ip <= slen,
            op <= dlen,
            slen == src@.len(),
            dst@.len() == dlen,
            dlen == old(dst)@.len(),
            src@.len() <= isize::MAX,
            dlen <= isize::MAX,
            whole == lz4_decode(src@, dlen as int),
            whole == decode_from(src@, ip as int, dst@.take(op as int), dlen as int),
        decreases slen - ip,
    {
        let ghost out0 = dst@.take(op as int);
        let ghost ip0 = ip as int;
        if ip >= slen {
            return false;
        }
        let token = src[ip];
        let ghost t = token as int;
        let mut lit_len: usize = (token >> 4u8) as usize;
        assert((token >> 4u8) as int == (token as int) / 16) by (bit_vector);
        let mut p: usize = ip + 1;
        if lit_len == 15 {
            match read_ext(src, p, 15, slen) {
                None => {
                    proof {
                        lemma_ext_len_bounds(src@, p as int, 15);
                    }
                    return false;
                },
                Some((v, k)) => {
                    proof {
                        lemma_ext_len_bounds(src@, p as int, 15);
                    }
                    lit_len = v;
                    p = k;
                },
            }
        }
        if p + lit_len > slen || op + lit_len > dlen {
            return false;
        }
        let mut k: usize = 0;
        while k < lit_len
            invariant
                k <= lit_len,
                p + lit_len <= slen,
                op + lit_len <= dlen,
                slen == src@.len(),
                dst@.len() == dlen,
                dst@.take(op as int) == out0,
                dst@.take((op + k) as int) == out0 + src@.subrange(p as int, (p + k) as int),
            decreases lit_len - k,
        {
            let ghost before = dst@;
            dst[op + k] = src[p + k];
            assert(dst@.take(op as int) =~= before.take(op as int));
            assert(dst@.take((op + k + 1) as int) =~= before.take((op + k) as int).push(src@[(p + k) as int]));
            assert(src@.subrange(p as int, (p + k + 1) as int) =~= src@.subrange(p as int, (p + k) as int).push(src@[(p + k) as int]));
            k = k + 1;
        }
        let ghost out1 = out0 + src@.subrange(p as int, (p + lit_len) as int);
        ip = p + lit_len;
        op = op + lit_len;
        assert(dst@.take(op as int) == out1);
        if ip >= slen {
            assert(dst@.take(dlen as int) =~= dst@);
            return op == dlen;
        }
        if ip + 2 > slen {
            return false;
        }
        let offset: usize = src[ip] as usize | ((src[ip + 1] as usize) << 8usize);
        let lo = src[ip];
        let hi = src[ip + 1];
        assert((lo as usize | ((hi as usize) << 8usize)) as int == lo as int + hi as int * 256) by (bit_vector);
        let q = ip;
        ip = ip + 2;
        if offset == 0 || offset > op {
            return false;
        }
        let mut mat_len: usize = (token & 15u8) as usize + LZ4_MIN_MATCH;
        assert((token & 15u8) as int == (token as int) % 16) by (bit_vector);
        if token & 15u8 == 15 {
            match read_ext(src, ip, 19, dlen) {
                None => {
                    proof {
                        lemma_ext_len_bounds(src@, ip as int, 19);
                    }
                    return false;
                },
                Some((v, k2)) => {
                    proof {
                        lemma_ext_len_bounds(src@, ip as int, 19);
                    }
                    mat_len = v;
                    ip = k2;
                },
            }
        }
        if op + mat_len > dlen {
            return false;
        }
        let match_start = op - offset;
        let mut i: usize = 0;
        while i < mat_len
            invariant
                i <= mat_len,
                op + mat_len <= dlen,
                1 <= offset <= op,
                match_start == op - offset,
                dst@.len() == dlen,
                dst@.take((op + i) as int) == copy_match(out1, offset as int, i as nat),
                out1.len() == op,
            decreases mat_len - i,
        {
            proof {
                lemma_copy_match_len(out1, offset as int, i as nat);
            }
            let ghost before = dst@;
            let v = dst[match_start + i];
            dst[op + i] = v;
            assert(dst@.take((op + i + 1) as int) =~= before.take((op + i) as int).push(v));
            i = i + 1;
        }
        proof {
            lemma_copy_match_len(out1, offset as int, mat_len as nat);
            assert(seq_step(src@, ip0, out0, dlen as int) == Some((ip as int, copy_match(out1, offset as int, mat_len as nat), false)));
        }
        op = op + mat_len;
    }
}


// ── Encoding ────────────────────────────────────────────────────────────

/// A length extension for `n`: one 255 byte per 255, then the remainder.
pub open spec fn varint(n: nat) -> Seq<u8>
    decreases n,
{
    if n < 255 {
        seq![n as u8]
    } else {
        seq![255u8] + varint((n - 255) as nat)
    }
}

/// The extension bytes for a length nibble value `x` (none below 15).
pub open spec fn ext_bytes(x: int) -> Seq<u8> {
    if x >= 15 { varint((x - 15) as nat) } else { Seq::empty() }
}

/// The token for a literal count `ll` and an encoded match length `em`.
pub open spec fn token_of(ll: int, em: int) -> u8 {
    ((if ll < 15 { ll } else { 15 }) * 16 + (if em < 15 { em } else { 15 })) as u8
}

/// A sequence: literals `lits`, then a match of `mlen` bytes `dist` back.
pub open spec fn enc_match(lits: Seq<u8>, dist: int, mlen: int) -> Seq<u8> {
    seq![token_of(lits.len() as int, mlen - 4)] + ext_bytes(lits.len() as int) + lits
        + seq![(dist % 256) as u8, (dist / 256) as u8] + ext_bytes(mlen - 4)
}

/// The last sequence: literals only.
pub open spec fn enc_last(lits: Seq<u8>) -> Seq<u8> {
    seq![token_of(lits.len() as int, 0)] + ext_bytes(lits.len() as int) + lits
}

/// Decoding non-final sequences from `i` reaches exactly `j`, taking the
/// output from `o1` to `o2`.
#[verifier::opaque]
pub open spec fn chain(b: Seq<u8>, i: int, j: int, o1: Seq<u8>, o2: Seq<u8>, dlen: int) -> bool
    decreases j - i,
{
    if i == j {
        o1 == o2
    } else if i > j {
        false
    } else {
        match seq_step(b, i, o1, dlen) {
            Some((k, o, last)) => !last && i < k <= j && chain(b, k, j, o, o2, dlen),
            None => false,
        }
    }
}

pub proof fn lemma_varint_len(n: nat)
    ensures
        varint(n).len() == n / 255 + 1,
    decreases n,
{
    if n >= 255 {
        lemma_varint_len((n - 255) as nat);
    }
}

pub proof fn lemma_ext_varint(b: Seq<u8>, i: int, acc: int, n: nat)
    requires
        0 <= i,
        i + varint(n).len() <= b.len(),
        b.subrange(i, i + varint(n).len()) == varint(n),
    ensures
        ext_len(b, i, acc) == Some((acc + n, i + varint(n).len())),
    decreases n,
{
    let v = varint(n);
    assert(b[i] == b.subrange(i, i + v.len())[0]);
    if n >= 255 {
        let w = varint((n - 255) as nat);
        assert(b.subrange(i + 1, i + 1 + w.len()) =~= b.subrange(i, i + v.len()).subrange(1, v.len() as int));
        assert(v.subrange(1, v.len() as int) =~= w);
        lemma_ext_varint(b, i + 1, acc + 255, (n - 255) as nat);
    }
}

pub proof fn lemma_ext_len_frame(b: Seq<u8>, c: Seq<u8>, i: int, acc: int)
    requires
        ext_len(b, i, acc) is Some,
    ensures
        ext_len(b + c, i, acc) == ext_len(b, i, acc),
    decreases b.len() - i,
{
    if 0 <= i < b.len() && b[i] == 255 {
        lemma_ext_len_frame(b, c, i + 1, acc + 255);
    }
}

pub proof fn lemma_step_frame(b: Seq<u8>, c: Seq<u8>, i: int, o: Seq<u8>, dlen: int)
    requires
        seq_step(b, i, o, dlen) matches Some((k, o2, last)) && !last,
    ensures
        seq_step(b + c, i, o, dlen) == seq_step(b, i, o, dlen),
{
    let bc = b + c;
    let t = b[i] as int;
    assert(bc[i] == b[i]);
    if t / 16 == 15 {
        lemma_ext_len_frame(b, c, i + 1, 15);
        lemma_ext_len_bounds(b, i + 1, 15);
    }
    let lit = if t / 16 == 15 { ext_len(b, i + 1, 15) } else { Some((t / 16, i + 1)) };
    let (ll, p) = lit->0;
    assert(bc.subrange(p, p + ll) =~= b.subrange(p, p + ll));
    let q = p + ll;
    assert(bc[q] == b[q] && bc[q + 1] == b[q + 1]);
    if t % 16 == 15 {
        lemma_ext_len_frame(b, c, q + 2, 19);
    }
}

pub proof fn lemma_chain_refl(b: Seq<u8>, i: int, o: Seq<u8>, dlen: int)
    ensures
        chain(b, i, i, o, o, dlen),
{
    reveal(chain);
}

pub proof fn lemma_chain_extend(b: Seq<u8>, c: Seq<u8>, i: int, j: int, o1: Seq<u8>, o2: Seq<u8>, dlen: int)
    requires
        chain(b, i, j, o1, o2, dlen),
    ensures
        chain(b + c, i, j, o1, o2, dlen),
    decreases j - i,
{
    reveal(chain);
    if i < j {
        lemma_step_frame(b, c, i, o1, dlen);
        let (k, o, last) = seq_step(b, i, o1, dlen)->0;
        lemma_chain_extend(b, c, k, j, o, o2, dlen);
    }
}

pub proof fn lemma_chain_step(b: Seq<u8>, i: int, j: int, o1: Seq<u8>, o2: Seq<u8>, k: int, o3: Seq<u8>, dlen: int)
    requires
        chain(b, i, j, o1, o2, dlen),
        seq_step(b, j, o2, dlen) == Some((k, o3, false)),
        j < k,
    ensures
        chain(b, i, k, o1, o3, dlen),
    decreases j - i,
{
    reveal(chain);
    if i < j {
        let (m, o, last) = seq_step(b, i, o1, dlen)->0;
        lemma_chain_step(b, m, j, o, o2, k, o3, dlen);
    } else {
        assert(chain(b, k, k, o3, o3, dlen));
    }
}

pub proof fn lemma_chain_last(b: Seq<u8>, i: int, j: int, o1: Seq<u8>, o2: Seq<u8>, o3: Seq<u8>, dlen: int)
    requires
        chain(b, i, j, o1, o2, dlen),
        seq_step(b, j, o2, dlen) == Some((b.len() as int, o3, true)),
        o3.len() == dlen,
    ensures
        decode_from(b, i, o1, dlen) == Some(o3),
    decreases j - i,
{
    reveal(chain);
    if i < j {
        let (m, o, last) = seq_step(b, i, o1, dlen)->0;
        lemma_chain_last(b, m, j, o, o2, o3, dlen);
    }
}

proof fn lemma_token(ll: int, em: int)
    requires
        ll >= 0,
        em >= 0,
    ensures
        token_of(ll, em) as int / 16 == (if ll < 15 { ll } else { 15 }),
        token_of(ll, em) as int % 16 == (if em < 15 { em } else { 15 }),
{
}

proof fn lemma_ext_bytes(b: Seq<u8>, i: int, x: int, base: int)
    requires
        0 <= i,
        x >= 0,
        i + ext_bytes(x).len() <= b.len(),
        b.subrange(i, i + ext_bytes(x).len()) == ext_bytes(x),
    ensures
        x >= 15 ==> ext_len(b, i, base + 15) == Some((base + x, i + ext_bytes(x).len())),
{
    if x >= 15 {
        lemma_ext_varint(b, i, base + 15, (x - 15) as nat);
    }
}

pub proof fn lemma_step_match(pre: Seq<u8>, lits: Seq<u8>, dist: int, mlen: int, o: Seq<u8>, dlen: int)
    requires
        mlen >= 4,
        1 <= dist < 65536,
        dist <= o.len() + lits.len(),
        o.len() + lits.len() + mlen <= dlen,
    ensures
        seq_step(pre + enc_match(lits, dist, mlen), pre.len() as int, o, dlen)
            == Some(((pre + enc_match(lits, dist, mlen)).len() as int, copy_match(o + lits, dist, mlen as nat), false)),
{
    let ll = lits.len() as int;
    let em = mlen - 4;
    let e1 = ext_bytes(ll);
    let e2 = ext_bytes(em);
    let tok = token_of(ll, em);
    let b = pre + enc_match(lits, dist, mlen);
    let i = pre.len() as int;
    let p = i + 1 + e1.len();
    let q = p + ll;
    assert(b =~= pre + seq![tok] + e1 + lits + seq![(dist % 256) as u8, (dist / 256) as u8] + e2);
    lemma_token(ll, em);
    assert(b[i] == tok);
    assert(b.subrange(i + 1, i + 1 + e1.len()) =~= e1);
    lemma_ext_bytes(b, i + 1, ll, 0);
    assert(b.subrange(p, q) =~= lits);
    assert(b[q] == (dist % 256) as u8);
    assert(b[q + 1] == (dist / 256) as u8);
    assert(b.subrange(q + 2, q + 2 + e2.len()) =~= e2);
    lemma_ext_bytes(b, q + 2, em, 4);
    assert(q + 2 + e2.len() == b.len());
}

pub proof fn lemma_step_last(pre: Seq<u8>, lits: Seq<u8>, o: Seq<u8>, dlen: int)
    requires
        o.len() + lits.len() <= dlen,
    ensures
        seq_step(pre + enc_last(lits), pre.len() as int, o, dlen)
            == Some(((pre + enc_last(lits)).len() as int, o + lits, true)),
{
    let ll = lits.len() as int;
    let e1 = ext_bytes(ll);
    let tok = token_of(ll, 0);
    let b = pre + enc_last(lits);
    let i = pre.len() as int;
    let p = i + 1 + e1.len();
    assert(b =~= pre + seq![tok] + e1 + lits);
    lemma_token(ll, 0);
    assert(b[i] == tok);
    assert(b.subrange(i + 1, i + 1 + e1.len()) =~= e1);
    lemma_ext_bytes(b, i + 1, ll, 0);
    assert(b.subrange(p, p + ll) =~= lits);
}

pub proof fn lemma_copy_match_src(s: Seq<u8>, ip: int, dist: int, m: nat)
    requires
        1 <= dist <= ip,
        ip + m <= s.len(),
        forall|k: int| 0 <= k < m ==> #[trigger] s[ip + k] == s[ip + k - dist],
    ensures
        copy_match(s.take(ip), dist, m) == s.take(ip + m),
    decreases m,
{
    if m > 0 {
        lemma_copy_match_src(s, ip, dist, (m - 1) as nat);
        let o = s.take(ip + m - 1);
        assert(s[ip + (m - 1)] == s[ip + (m - 1) - dist]);
        assert(o.push(o[o.len() - dist]) =~= s.take(ip + m));
    }
}


// ── Executable encoder ─────────────────────────────────────────────────

fn write_varint(out: &mut Vec<u8>, n: usize)
    ensures
        final(out)@ == old(out)@ + varint(n as nat),
{
    let mut m: usize = n;
    assert(out@ + varint(m as nat) == old(out)@ + varint(n as nat));
    while m >= 255
        invariant
            out@ + varint(m as nat) == old(out)@ + varint(n as nat),
        decreases m,
    {
        let ghost before = out@;
        out.push(255u8);
        assert(before + varint(m as nat) =~= out@ + varint((m - 255) as nat));
        m = m - 255;
    }
    let ghost before = out@;
    out.push(m as u8);
    assert(out@ =~= before + varint(m as nat));
}

/// The match-table slot of four input bytes: the top 16 bits of their
/// product with a 64-bit golden-ratio constant, modulo 2^64.
pub open spec fn spec_lz4_hash(val: u32) -> int {
    ((val as int * 0x9E37_79B9_7F4A_7C15) % 0x1_0000_0000_0000_0000) / 0x1_0000_0000_0000
}

/// Multiplicative hash of four input bytes into the match table.
fn lz4_hash(val: u32) -> (h: usize)
    ensures
        h < LZ4_HASH_SIZE,
        h == spec_lz4_hash(val),
{
    let x: u64 = (val as u64).wrapping_mul(0x9E37_79B9_7F4A_7C15u64);
    let s: u64 = x / 0x1_0000_0000_0000u64;
    s as usize
}

fn push_literals(out: &mut Vec<u8>, src: &[u8], from: usize, to: usize)
    requires
        from <= to <= src@.len(),
    ensures
        final(out)@ == old(out)@ + src@.subrange(from as int, to as int),
{
    let mut k: usize = from;
    while k < to
        invariant
            from <= k <= to,
            to <= src@.len(),
            out@ == old(out)@ + src@.subrange(from as int, k as int),
        decreases to - k,
    {
        let ghost before = out@;
        out.push(src[k]);
        assert(src@.subrange(from as int, k + 1) =~= src@.subrange(from as int, k as int).push(src@[k as int]));
        assert(out@ =~= before.push(src@[k as int]));
        k = k + 1;
    }
}

proof fn lemma_ext_bytes_len(x: int)
    requires
        x >= 0,
    ensures
        255 * ext_bytes(x).len() <= x + 240,
        x < 15 ==> ext_bytes(x).len() == 0,
{
    if x >= 15 {
        lemma_varint_len((x - 15) as nat);
    }
}

/// The length of the match at `ip` against the bytes `dist` earlier,
/// counted on from `m`: it grows while both sides agree, stopping at the
/// input's end and before the earlier side reaches `ip`.
pub open spec fn spec_match_len(s: Seq<u8>, ip: int, dist: int, m: int) -> int
    decreases s.len() - m,
{
    if 0 <= ip && 0 <= m && ip + m < s.len() && ip - dist + m < ip && 0 <= ip - dist + m
        && s[ip + m] == s[ip - dist + m] {
        spec_match_len(s, ip, dist, m + 1)
    } else {
        m
    }
}

pub proof fn lemma_match_len(s: Seq<u8>, ip: int, dist: int, m: int)
    requires
        1 <= dist <= ip,
        0 <= m,
        ip + m <= s.len(),
        forall|k: int| 0 <= k < m ==> #[trigger] s[ip + k] == s[ip + k - dist],
    ensures
        m <= spec_match_len(s, ip, dist, m),
        ip + spec_match_len(s, ip, dist, m) <= s.len(),
        forall|k: int| 0 <= k < spec_match_len(s, ip, dist, m) ==> #[trigger] s[ip + k] == s[ip + k - dist],
    decreases s.len() - m,
{
    if ip + m < s.len() && ip - dist + m < ip && s[ip + m] == s[ip - dist + m] {
        assert forall|k: int| 0 <= k < m + 1 implies #[trigger] s[ip + k] == s[ip + k - dist] by {
            if k == m {
                assert(s[ip + m] == s[ip - dist + m]);
            }
        }
        lemma_match_len(s, ip, dist, m + 1);
    }
}

/// Whether the slot `r` read from the hash table gives a usable match at
/// `ip`: earlier, within reach, and its first four bytes equal.
pub open spec fn is_match(s: Seq<u8>, ip: int, r: int) -> bool {
    &&& 0 <= r < ip
    &&& ip - r < LZ4_MAX_DISTANCE
    &&& r + 4 <= s.len()
    &&& s[r] == s[ip] && s[r + 1] == s[ip + 1] && s[r + 2] == s[ip + 2] && s[r + 3] == s[ip + 3]
}

/// The encoder's state: hash table, input position, start of the pending
/// literals, skip step, skip countdown, and the output so far.
pub type EncState = (Seq<u16>, int, int, int, int, Seq<u8>);

/// One round of the greedy encoder at `st.1`: look the four bytes there up
/// in the hash table (recording the position), then either emit the
/// pending literals and the match found, or move on, taking longer steps
/// after every six misses.
pub open spec fn enc_step(s: Seq<u8>, st: EncState) -> EncState {
    let (ht, ip, anchor, step, skip, out) = st;
    let h = spec_lz4_hash(crate::bytes::spec_u32_le(s, ip));
    let r = ht[h] as int;
    let ht2 = ht.update(h, ip as u16);
    if is_match(s, ip, r) {
        let dist = ip - r;
        let m = spec_match_len(s, ip, dist, 4);
        (ht2, ip + m, ip + m, 1, LZ4_SKIP_TRIGGER as int, out + enc_match(s.subrange(anchor, ip), dist, m))
    } else {
        let sk = skip - 1;
        (ht2, ip + step, anchor, if sk == 0 { step + 1 } else { step }, if sk == 0 { LZ4_SKIP_TRIGGER as int } else { sk }, out)
    }
}

/// Whether the encoder runs another round in state `st`.
pub open spec fn enc_more(s: Seq<u8>, st: EncState) -> bool {
    &&& 0 <= st.2 <= st.1
    &&& st.1 + 5 < s.len()
    &&& 1 <= st.3 <= st.1 + 1
    &&& 1 <= st.4
    &&& st.0.len() == LZ4_HASH_SIZE
}

pub open spec fn enc_run(s: Seq<u8>, st: EncState) -> EncState
    decreases 2 * s.len() - st.1,
{
    if enc_more(s, st) {
        let (ht, ip, anchor, step, skip, out) = st;
        proof {
            if is_match(s, ip, ht[spec_lz4_hash(crate::bytes::spec_u32_le(s, ip))] as int) {
                let dist = ip - ht[spec_lz4_hash(crate::bytes::spec_u32_le(s, ip))] as int;
                lemma_match_len(s, ip, dist, 4);
            }
        }
        enc_run(s, enc_step(s, st))
    } else {
        st
    }
}

pub open spec fn enc_start() -> EncState {
    (Seq::new(LZ4_HASH_SIZE as nat, |i: int| 0u16), 0, 0, 1, LZ4_SKIP_TRIGGER as int, Seq::empty())
}

/// The LZ4 block the encoder makes of `s`: its rounds, then the remaining
/// literals as the last sequence.
pub open spec fn spec_lz4_encode(s: Seq<u8>) -> Seq<u8> {
    let st = enc_run(s, enc_start());
    st.5 + enc_last(s.subrange(st.2, s.len() as int))
}

/// What every encoder state keeps: the output decodes, through non-final
/// sequences, to the input before the pending literals.
pub open spec fn enc_inv(s: Seq<u8>, st: EncState) -> bool {
    &&& 0 <= st.2 <= s.len()
    &&& st.2 <= st.1
    &&& chain(st.5, 0, st.5.len() as int, Seq::empty(), s.take(st.2), s.len() as int)
    &&& 255 * st.5.len() <= 256 * st.2
}

proof fn lemma_enc_step_inv(s: Seq<u8>, st: EncState)
    requires
        enc_inv(s, st),
        enc_more(s, st),
    ensures
        enc_inv(s, enc_step(s, st)),
        enc_step(s, st).1 > st.1,
        enc_step(s, st).1 < 2 * s.len(),
        enc_step(s, st).1 <= s.len() || enc_step(s, st).1 + 11 <= 2 * s.len(),
        1 <= enc_step(s, st).3 <= enc_step(s, st).1 + 1,
        1 <= enc_step(s, st).4 <= 6 || st.4 > 6,
        enc_step(s, st).0.len() == st.0.len(),
{
    let (ht, ip, anchor, step, skip, out) = st;
    let n = s.len() as int;
    let h = spec_lz4_hash(crate::bytes::spec_u32_le(s, ip));
    let r = ht[h] as int;
    if is_match(s, ip, r) {
        let dist = ip - r;
        assert forall|k: int| 0 <= k < 4 implies #[trigger] s[ip + k] == s[ip + k - dist] by {
            assert(ip + k - dist == r + k);
        }
        lemma_match_len(s, ip, dist, 4);
        let m = spec_match_len(s, ip, dist, 4);
        let lits = s.subrange(anchor, ip);
        let enc = enc_match(lits, dist, m);
        let empty = Seq::<u8>::empty();
        lemma_chain_extend(out, enc, 0, out.len() as int, empty, s.take(anchor), n);
        assert(s.take(anchor).len() + lits.len() == ip);
        lemma_step_match(out, lits, dist, m, s.take(anchor), n);
        assert(s.take(anchor) + lits =~= s.take(ip));
        lemma_copy_match_src(s, ip, dist, m as nat);
        lemma_chain_step(out + enc, 0, out.len() as int, empty, s.take(anchor),
            (out + enc).len() as int, s.take(ip + m), n);
        lemma_ext_bytes_len(lits.len() as int);
        lemma_ext_bytes_len(m - 4);
    }
}

proof fn lemma_enc_run_inv(s: Seq<u8>, st: EncState)
    requires
        enc_inv(s, st),
        1 <= st.3 <= st.1 + 1,
        st.1 <= s.len() || st.1 < 2 * s.len(),
    ensures
        enc_inv(s, enc_run(s, st)),
    decreases 2 * s.len() - st.1,
{
    if enc_more(s, st) {
        lemma_enc_step_inv(s, st);
        lemma_enc_run_inv(s, enc_step(s, st));
    }
}

/// Every block the encoder makes decodes back to its input, and it is at
/// most about 1/255 longer than the input.
pub proof fn lemma_encode_decodes(s: Seq<u8>)
    ensures
        lz4_decode(spec_lz4_encode(s), s.len() as int) == Some(s),
        255 * spec_lz4_encode(s).len() <= 256 * s.len() + 510,
{
    let empty = Seq::<u8>::empty();
    let n = s.len() as int;
    assert(s.take(0) =~= empty);
    lemma_chain_refl(empty, 0, empty, n);
    lemma_enc_run_inv(s, enc_start());
    let st = enc_run(s, enc_start());
    let out = st.5;
    let lits = s.subrange(st.2, n);
    let enc = enc_last(lits);
    lemma_chain_extend(out, enc, 0, out.len() as int, empty, s.take(st.2), n);
    lemma_step_last(out, lits, s.take(st.2), n);
    assert(s.take(st.2) + lits =~= s);
    lemma_chain_last(out + enc, 0, out.len() as int, empty, s.take(st.2), s, n);
    lemma_ext_bytes_len(lits.len() as int);
}

/// The length of the match at `ip` against the bytes `dist` earlier, whose
/// first four bytes are known equal.
fn match_length(src: &[u8], ip: usize, dist: usize) -> (m: usize)
    requires
        1 <= dist <= ip,
        ip + 4 <= src@.len(),
    ensures
        m == spec_match_len(src@, ip as int, dist as int, 4),
        4 <= m,
{
    let n = src.len();
    let ref_pos = ip - dist;
    let mut mat_len: usize = LZ4_MIN_MATCH;
    while ip + mat_len < n && ref_pos + mat_len < ip && src[ip + mat_len] == src[ref_pos + mat_len]
        invariant
            4 <= mat_len,
            ip + mat_len <= n,
            n == src@.len(),
            ref_pos + dist == ip,
            spec_match_len(src@, ip as int, dist as int, mat_len as int) == spec_match_len(src@, ip as int, dist as int, 4),
        decreases n - mat_len,
    {
        mat_len = mat_len + 1;
    }
    mat_len
}

/// Appends the sequence for the literals `anchor..ip` and the match of
/// `mat_len` bytes `dist` back.
fn emit_match(out: &mut Vec<u8>, src: &[u8], anchor: usize, ip: usize, dist: usize, mat_len: usize)
    requires
        anchor <= ip <= src@.len(),
        1 <= dist < LZ4_MAX_DISTANCE,
        4 <= mat_len,
    ensures
        final(out)@ == old(out)@ + enc_match(src@.subrange(anchor as int, ip as int), dist as int, mat_len as int),
{
    let lit_len = ip - anchor;
    let enc_mat = mat_len - LZ4_MIN_MATCH;
    let tok_lit: u8 = if lit_len < 15 { lit_len as u8 } else { 15u8 };
    let tok_mat: u8 = if enc_mat < 15 { enc_mat as u8 } else { 15u8 };
    let tok: u8 = tok_lit * 16 + tok_mat;
    let ghost out_old = out@;
    let ghost lits = src@.subrange(anchor as int, ip as int);
    out.push(tok);
    if lit_len >= 15 {
        write_varint(out, lit_len - 15);
    }
    push_literals(out, src, anchor, ip);
    let lo = (dist % 256) as u8;
    let hi = (dist / 256) as u8;
    out.push(lo);
    out.push(hi);
    if enc_mat >= 15 {
        write_varint(out, enc_mat - 15);
    }
    assert(out@ =~= out_old + enc_match(lits, dist as int, mat_len as int));
}

/// Encodes `src` as an LZ4 block (`spec_lz4_encode`), built aside and
/// copied to the front of `dst` when it is shorter than `dst`; the encoded
/// length then, or `None` with `dst` untouched.
pub fn lz4_compress(src: &[u8], dst: &mut [u8]) -> (r: Option<usize>)
    requires
        src@.len() <= isize::MAX,
    ensures
        final(dst)@.len() == old(dst)@.len(),
        ({
            let e = spec_lz4_encode(src@);
            &&& e.len() < old(dst)@.len() ==> r == Some(e.len() as usize)
                && final(dst)@ == e + old(dst)@.skip(e.len() as int)
            &&& e.len() >= old(dst)@.len() ==> r is None && final(dst)@ == old(dst)@
        }),
        lz4_decode(spec_lz4_encode(src@), src@.len() as int) == Some(src@),
        255 * spec_lz4_encode(src@).len() <= 256 * src@.len() + 510,
{
    proof {
        lemma_encode_decodes(src@);
    }
    let n = src.len();
    let mut hash_table: Vec<u16> = Vec::new();
    while hash_table.len() < LZ4_HASH_SIZE
        invariant
            hash_table@.len() <= LZ4_HASH_SIZE,
            forall|i: int| 0 <= i < hash_table@.len() ==> #[trigger] hash_table@[i] == 0u16,
        decreases LZ4_HASH_SIZE - hash_table@.len(),
    {
        hash_table.push(0u16);
    }
    assert(hash_table@ =~= enc_start().0);
    let mut out: Vec<u8> = Vec::new();
    let mut ip: usize = 0;
    let mut anchor: usize = 0;
    let mut step: usize = 1;
    let mut skip: usize = LZ4_SKIP_TRIGGER;
    proof {
        assert(out@ =~= enc_start().5);
        lemma_chain_refl(out@, 0, Seq::<u8>::empty(), n as int);
        assert(src@.take(0) =~= Seq::<u8>::empty());
    }
    while ip + LZ4_MIN_MATCH + 1 < n
        invariant
            n == src@.len(),
            n <= isize::MAX,
            anchor <= ip,
            ip <= n || ip + 11 <= 2 * n,
            1 <= step <= ip + 1,
            1 <= skip <= 6,
            hash_table@.len() == LZ4_HASH_SIZE,
            enc_inv(src@, (hash_table@, ip as int, anchor as int, step as int, skip as int, out@)),
            enc_run(src@, (hash_table@, ip as int, anchor as int, step as int, skip as int, out@))
                == enc_run(src@, enc_start()),
        decreases 2 * n - ip,
    {
        let ghost st = (hash_table@, ip as int, anchor as int, step as int, skip as int, out@);
        proof {
            lemma_enc_step_inv(src@, st);
        }
        let seq_v = crate::bytes::read_u32_le(src, ip);
        let h = lz4_hash(seq_v);
        let ref_pos = hash_table[h] as usize;
        hash_table.set(h, #[verifier::truncate] (ip as u16));
        if ref_pos < ip && ip - ref_pos < LZ4_MAX_DISTANCE && ref_pos + LZ4_MIN_MATCH <= n
            && src[ref_pos] == src[ip] && src[ref_pos + 1] == src[ip + 1]
            && src[ref_pos + 2] == src[ip + 2] && src[ref_pos + 3] == src[ip + 3]
        {
            let dist = ip - ref_pos;
            let mat_len = match_length(src, ip, dist);
            emit_match(&mut out, src, anchor, ip, dist, mat_len);
            ip = ip + mat_len;
            anchor = ip;
            step = 1;
            skip = LZ4_SKIP_TRIGGER;
        } else {
            ip = ip + step;
            skip = skip - 1;
            if skip == 0 {
                step = step + 1;
                skip = LZ4_SKIP_TRIGGER;
            }
        }
        assert((hash_table@, ip as int, anchor as int, step as int, skip as int, out@) == enc_step(src@, st));
    }
    let lit_len = n - anchor;
    let tok_lit: u8 = if lit_len < 15 { lit_len as u8 } else { 15u8 };
    let tok: u8 = tok_lit * 16;
    let ghost out_old = out@;
    let ghost lits = src@.subrange(anchor as int, n as int);
    out.push(tok);
    if lit_len >= 15 {
        write_varint(&mut out, lit_len - 15);
    }
    push_literals(&mut out, src, anchor, n);
    assert(out@ =~= out_old + enc_last(lits));
    assert(out@ == spec_lz4_encode(src@));
    if out.len() >= dst.len() {
        return None;
    }
    let len = out.len();
    let ghost d0 = dst@;
    let mut k: usize = 0;
    while k < len
        invariant
            k <= len,
            len == out@.len(),
            len < dst@.len(),
            dst@.len() == d0.len(),
            d0 == old(dst)@,
            forall|i: int| 0 <= i < k ==> #[trigger] dst@[i] == out@[i],
            forall|i: int| k <= i < dst@.len() ==> #[trigger] dst@[i] == d0[i],
        decreases len - k,
    {
        dst[k] = out[k];
        k = k + 1;
    }
    assert(dst@ =~= out@ + d0.skip(len as int));
    Some(len)
}

// ── CRC-32 (IEEE, reflected) ────────────────────────────────────────────

/// One shift of the bitwise CRC-32 register.
pub open spec fn crc_bit(c: u32) -> u32 {
    if c & 1 != 0 { (c >> 1u32) ^ 0xEDB8_8320u32 } else { c >> 1u32 }
}

pub open spec fn crc_bits(c: u32, k: nat) -> u32
    decreases k,
{
    if k == 0 { c } else { crc_bit(crc_bits(c, (k - 1) as nat)) }
}

/// The register after the first `n` bytes of `data`.
pub open spec fn crc_state(data: Seq<u8>, n: nat) -> u32
    decreases n,
{
    if n == 0 {
        0xFFFF_FFFFu32
    } else {
        crc_bits(crc_state(data, (n - 1) as nat) ^ (data[n - 1] as u32), 8)
    }
}

/// The CRC-32 of `data`.
pub open spec fn crc32_spec(data: Seq<u8>) -> u32 {
    !crc_state(data, data.len())
}

pub fn crc32_simple(data: &[u8]) -> (r: u32)
    ensures
        r == crc32_spec(data@),
{
    let mut crc: u32 = 0xFFFF_FFFFu32;
    let mut i: usize = 0;
    while i < data.len()
        invariant
            i <= data@.len(),
            crc == crc_state(data@, i as nat),
        decreases data@.len() - i,
    {
        let x: u32 = crc ^ (data[i] as u32);
        let mut c: u32 = x;
        let mut j: usize = 0;
        while j < 8
            invariant
                j <= 8,
                c == crc_bits(x, j as nat),
            decreases 8 - j,
        {
            c = if c & 1 != 0 { (c >> 1u32) ^ 0xEDB8_8320u32 } else { c >> 1u32 };
            j = j + 1;
        }
        crc = c;
        i = i + 1;
    }
    !crc
}

} // verus!
