//! The DRM/KMS device model: display modes, dumb buffers and the pixel
//! operations of scanout.
use vstd::prelude::*;
use std::collections::BTreeMap;
use crate::bytes::{read_u16_le, read_u32_le, spec_u16_le, spec_u32_le};

verus! {

/// The layout of `struct drm_mode_modeinfo`.
pub struct ModeInfo {
    pub clock: u32,
    pub hdisplay: u16,
    pub hsync_start: u16,
    pub hsync_end: u16,
    pub htotal: u16,
    pub hskew: u16,
    pub vdisplay: u16,
    pub vsync_start: u16,
    pub vsync_end: u16,
    pub vtotal: u16,
    pub vscan: u16,
    pub vrefresh: u32,
    pub flags: u32,
    pub mode_type: u32,
    pub name: [u8; 32],
}

/// The decimal digits of `n`, most significant first.
pub open spec fn dec(n: nat) -> Seq<u8>
    decreases n,
{
    if n < 10 { seq![(48 + n) as u8] } else { dec(n / 10).push((48 + n % 10) as u8) }
}

/// The mode name "WxH".
pub open spec fn mode_name(w: nat, h: nat) -> Seq<u8> {
    dec(w) + seq![0x78u8] + dec(h)
}

/// The decimal digits of `n`.
pub fn decimal(n: u32) -> (r: Vec<u8>)
    ensures
        r@ == dec(n as nat),
    decreases n,
{
    if n < 10 {
        let mut v: Vec<u8> = Vec::new();
        v.push((48 + n) as u8);
        return v;
    }
    let mut v = decimal(n / 10);
    v.push((48 + n % 10) as u8);
    v
}

impl ModeInfo {
    /// A mode of `w` by `h` at `refresh` Hz with approximate CVT timings:
    /// the pixel clock in kHz rounded up, sync and blanking widths derived
    /// from the size, negative syncs, preferred and driver-made, and the
    /// name "WxH" (cut to 31 bytes, NUL-padded).
    pub fn from_resolution(w: u32, h: u32, refresh: u32) -> (m: ModeInfo)
        requires
            w * h <= u32::MAX,
            w * h * refresh + 999 <= u32::MAX,
            w + w / 4 <= u32::MAX,
            h + 28 <= u32::MAX,
        ensures
            m.clock == (w * h * refresh + 999) / 1000,
            m.hdisplay == w as u16,
            m.hsync_start == (w + w / 8) as u16,
            m.hsync_end == (w + w / 8 + 8) as u16,
            m.htotal == (w + w / 4) as u16,
            m.hskew == 0,
            m.vdisplay == h as u16,
            m.vsync_start == (h + 3) as u16,
            m.vsync_end == (h + 8) as u16,
            m.vtotal == (h + 28) as u16,
            m.vscan == 0,
            m.vrefresh == refresh,
            m.flags == 0xA,
            m.mode_type == 0x48,
            ({
                let nm = mode_name(w as nat, h as nat);
                let k = if nm.len() < 31 { nm.len() as int } else { 31 };
                &&& forall|i: int| 0 <= i < k ==> #[trigger] m.name@[i] == nm[i]
                &&& forall|i: int| k <= i < 32 ==> #[trigger] m.name@[i] == 0
            }),
    {
        let clock: u32 = (w * h * refresh + 999) / 1000;
        let mut nm = decimal(w);
        nm.push(0x78u8);
        let hd = decimal(h);
        let mut i: usize = 0;
        let ghost n0 = nm@;
        while i < hd.len()
            invariant
                i <= hd@.len(),
                nm@ == n0 + hd@.take(i as int),
            decreases hd@.len() - i,
        {
            nm.push(hd[i]);
            i = i + 1;
            assert(nm@ =~= n0 + hd@.take(i as int));
        }
        assert(nm@ =~= mode_name(w as nat, h as nat));
        let mut name = [0u8; 32];
        let k: usize = if nm.len() < 31 { nm.len() } else { 31 };
        let mut j: usize = 0;
        while j < k
            invariant
                j <= k <= 31,
                k <= nm@.len(),
                forall|q: int| 0 <= q < j ==> #[trigger] name@[q] == nm@[q],
                forall|q: int| j <= q < 32 ==> #[trigger] name@[q] == 0,
            decreases k - j,
        {
            name[j] = nm[j];
            j = j + 1;
        }
        #[verifier::truncate]
        let hsync_start = (w + w / 8) as u16;
        #[verifier::truncate]
        let hsync_end = (w + w / 8 + 8) as u16;
        #[verifier::truncate]
        let htotal = (w + w / 4) as u16;
        #[verifier::truncate]
        let hdisplay = w as u16;
        #[verifier::truncate]
        let vdisplay = h as u16;
        #[verifier::truncate]
        let vsync_start = (h + 3) as u16;
        #[verifier::truncate]
        let vsync_end = (h + 8) as u16;
        #[verifier::truncate]
        let vtotal = (h + 28) as u16;
        ModeInfo {
            clock, hdisplay, hsync_start, hsync_end, htotal, hskew: 0,
            vdisplay, vsync_start, vsync_end, vtotal, vscan: 0,
            vrefresh: refresh, flags: 0xA, mode_type: 0x48, name,
        }
    }
}

/// Bits per pixel of a pixel format: 16 for RGB565 and BGR565, 32 for the
/// rest.
pub fn fourcc_bpp(fourcc: u32) -> (r: u32)
    ensures
        r == if fourcc == 0x36313252 || fourcc == 0x35364742 { 16u32 } else { 32u32 },
{
    if fourcc == 0x36313252 || fourcc == 0x35364742 { 16 } else { 32 }
}

/// The byte `k` (0 for the lowest) of a pixel.
pub open spec fn chan(px: u32, k: int) -> int {
    let p = px as int;
    if k == 0 { p % 0x100 } else if k == 1 { (p / 0x100) % 0x100 } else if k == 2 { (p / 0x1_0000) % 0x100 }
        else { p / 0x100_0000 }
}

/// A pixel with its red and blue bytes exchanged.
pub open spec fn spec_swap_rb(px: u32) -> u32 {
    (chan(px, 3) * 0x100_0000 + chan(px, 0) * 0x1_0000 + chan(px, 1) * 0x100 + chan(px, 2)) as u32
}

/// `fg` over `bg` at opacity `alpha` of 255, per colour byte, rounded down;
/// the top byte of the result is zero.
pub open spec fn spec_alpha_blend(bg: u32, fg: u32, alpha: int) -> u32 {
    let mix = |k: int| (chan(fg, k) * alpha + chan(bg, k) * (255 - alpha)) / 255;
    (mix(2) * 0x1_0000 + mix(1) * 0x100 + mix(0)) as u32
}

pub fn swap_rb(px: u32) -> (r: u32)
    ensures
        r == spec_swap_rb(px),
{
    let r = (px / 0x1_0000) % 0x100;
    let g = (px / 0x100) % 0x100;
    let b = px % 0x100;
    let a = px / 0x100_0000;
    a * 0x100_0000 + b * 0x1_0000 + g * 0x100 + r
}

fn blend_chan(b: u32, f: u32, alpha: u32) -> (r: u32)
    requires
        b < 0x100,
        f < 0x100,
        alpha <= 255,
    ensures
        r == (f * alpha + b * (255 - alpha)) / 255,
        r < 0x100,
{
    assert(f * alpha <= 255 * alpha && b * (255 - alpha) <= 255 * (255 - alpha)) by (nonlinear_arith)
        requires
            b < 0x100,
            f < 0x100,
            alpha <= 255,
    ;
    (f * alpha + b * (255 - alpha)) / 255
}

pub fn alpha_blend(bg: u32, fg: u32, alpha: u32) -> (r: u32)
    requires
        alpha <= 255,
    ensures
        r == spec_alpha_blend(bg, fg, alpha as int),
{
    let r = blend_chan((bg / 0x1_0000) % 0x100, (fg / 0x1_0000) % 0x100, alpha);
    let g = blend_chan((bg / 0x100) % 0x100, (fg / 0x100) % 0x100, alpha);
    let b = blend_chan(bg % 0x100, fg % 0x100, alpha);
    r * 0x1_0000 + g * 0x100 + b
}

/// The pitch (bytes per row, rounded up to 64 but never below the row) and
/// the size (whole pages) of a dumb buffer.
pub open spec fn dumb_pitch(w: int, bpp: int) -> int {
    let row = w * ((bpp + 7) / 8);
    let up = (row + 63) - (row + 63) % 64;
    if up >= row { up } else { row }
}

pub open spec fn dumb_size(w: int, h: int, bpp: int) -> int {
    let s = dumb_pitch(w, bpp) * h;
    (s + 4095) - (s + 4095) % 4096
}

pub fn dumb_geometry(w: u32, h: u32, bpp: u32) -> (r: (u32, u64))
    requires
        bpp + 7 <= u32::MAX,
        w * ((bpp + 7) / 8) + 63 <= u32::MAX,
    ensures
        r.0 == dumb_pitch(w as int, bpp as int),
        r.1 == dumb_size(w as int, h as int, bpp as int),
{
    let bytes_pp: u32 = (bpp + 7) / 8;
    let row: u32 = w * bytes_pp;
    let up: u32 = (row + 63) - (row + 63) % 64;
    let pitch: u32 = if up >= row { up } else { row };
    assert(pitch as int * h as int <= 0xFFFF_FFFF * 0xFFFF_FFFF) by (nonlinear_arith)
        requires
            pitch <= 0xFFFF_FFFF,
            h <= 0xFFFF_FFFF,
    ;
    let s: u64 = pitch as u64 * h as u64;
    let size: u64 = (s + 4095) - (s + 4095) % 4096;
    (pitch, size)
}

// ── Atomic mode setting ─────────────────────────────────────────────────

pub const PROP_ACTIVE: u32 = 1;
pub const PROP_MODE_ID: u32 = 2;
pub const PROP_FB_ID: u32 = 3;

/// What an atomic request asks of the CRTC: a framebuffer, activation,
/// and a mode blob.
pub struct AtomicPending {
    pub fb: Option<u32>,
    pub active: bool,
    pub mode_blob: Option<u32>,
}

pub open spec fn apply_prop(st: AtomicPending, pid: u32, val: u64) -> AtomicPending {
    if pid == PROP_FB_ID {
        if val != 0 { AtomicPending { fb: Some(val as u32), ..st } } else { st }
    } else if pid == PROP_ACTIVE {
        AtomicPending { active: val != 0, ..st }
    } else if pid == PROP_MODE_ID {
        AtomicPending { mode_blob: Some(val as u32), ..st }
    } else {
        st
    }
}

/// The first position of `o` in `objs` at or after `i`.
pub open spec fn first_pos(objs: Seq<u32>, o: u32, i: int) -> int
    decreases objs.len() - i,
{
    if i < 0 || i >= objs.len() { objs.len() as int } else if objs[i] == o { i } else { first_pos(objs, o, i + 1) }
}

/// The property count used for object `k`: that of the first object with
/// the same id.
pub open spec fn obj_count(objs: Seq<u32>, cnts: Seq<u32>, k: int) -> int {
    let p = first_pos(objs, objs[k], 0);
    if p < cnts.len() { cnts[p] as int } else { 0 }
}

/// Where the properties of object `k` start.
pub open spec fn prop_start(objs: Seq<u32>, cnts: Seq<u32>, k: int) -> int
    decreases k,
{
    if k <= 0 { 0 } else { prop_start(objs, cnts, k - 1) + obj_count(objs, cnts, k - 1) }
}

/// `st` after the first `j` properties from `pi` on.
pub open spec fn apply_props(st: AtomicPending, props: Seq<u32>, vals: Seq<u64>, pi: int, j: int) -> AtomicPending
    decreases j,
{
    if j <= 0 {
        st
    } else {
        let prev = apply_props(st, props, vals, pi, j - 1);
        let val: u64 = if pi + j - 1 < vals.len() { vals[pi + j - 1] } else { 0 };
        apply_prop(prev, props[pi + j - 1], val)
    }
}

/// How many properties object `k` contributes: its count, cut at the end
/// of the property array.
pub open spec fn obj_props(objs: Seq<u32>, cnts: Seq<u32>, props: Seq<u32>, k: int) -> int {
    let n = obj_count(objs, cnts, k);
    let left = props.len() - prop_start(objs, cnts, k);
    if n < left { n } else { left }
}

/// The request after the first `k` objects.
pub open spec fn walk_objs(objs: Seq<u32>, cnts: Seq<u32>, props: Seq<u32>, vals: Seq<u64>, k: int) -> AtomicPending
    decreases k,
{
    if k <= 0 {
        AtomicPending { fb: None, active: false, mode_blob: None }
    } else {
        apply_props(walk_objs(objs, cnts, props, vals, k - 1), props, vals, prop_start(objs, cnts, k - 1),
            obj_props(objs, cnts, props, k - 1))
    }
}

/// Walks an atomic request: for each object the properties that follow,
/// as many as the count of the first object with that id says, and
/// gathers the framebuffer (non-zero ids only), activation and mode blob
/// asked for, the last of each winning.
pub fn atomic_pending(objs: &[u32], cnts: &[u32], props: &[u32], vals: &[u64]) -> (r: AtomicPending)
    requires
        cnts@.len() == objs@.len(),
        forall|k: int| 0 <= k <= objs@.len() ==> #[trigger] prop_start(objs@, cnts@, k) <= props@.len(),
        props@.len() <= vals@.len(),
    ensures
        r == walk_objs(objs@, cnts@, props@, vals@, objs@.len() as int),
{
    let mut st = AtomicPending { fb: None, active: false, mode_blob: None };
    let mut pi: usize = 0;
    let mut k: usize = 0;
    while k < objs.len()
        invariant
            k <= objs@.len(),
            cnts@.len() == objs@.len(),
            forall|q: int| 0 <= q <= objs@.len() ==> #[trigger] prop_start(objs@, cnts@, q) <= props@.len(),
            props@.len() <= vals@.len(),
            pi == prop_start(objs@, cnts@, k as int),
            st == walk_objs(objs@, cnts@, props@, vals@, k as int),
        decreases objs@.len() - k,
    {
        let o = objs[k];
        let mut p: usize = 0;
        while p < objs.len() && objs[p] != o
            invariant
                p <= objs@.len(),
                k < objs@.len(),
                o == objs@[k as int],
                first_pos(objs@, o, 0) == first_pos(objs@, o, p as int),
            decreases objs@.len() - p,
        {
            p = p + 1;
        }
        let np: usize = if p < cnts.len() { cnts[p] as usize } else { 0 };
        assert(np == obj_count(objs@, cnts@, k as int));
        proof {
            assert(prop_start(objs@, cnts@, k + 1) <= props@.len());
        }
        let plen: usize = props.len();
        let left: usize = plen - pi;
        let m: usize = if np < left { np } else { left };
        let ghost st0 = st;
        let mut j: usize = 0;
        while j < m
            invariant
                j <= m,
                pi + m <= props@.len(),
                props@.len() <= usize::MAX,
                props@.len() <= vals@.len(),
                st == apply_props(st0, props@, vals@, pi as int, j as int),
            decreases m - j,
        {
            let pid = props[pi + j];
            let val: u64 = if pi + j < vals.len() { vals[pi + j] } else { 0 };
            if pid == PROP_FB_ID {
                if val != 0 {
                    #[verifier::truncate]
                    let f = val as u32;
                    st.fb = Some(f);
                }
            } else if pid == PROP_ACTIVE {
                st.active = val != 0;
            } else if pid == PROP_MODE_ID {
                #[verifier::truncate]
                let b = val as u32;
                st.mode_blob = Some(b);
            }
            j = j + 1;
        }
        pi = pi + np;
        k = k + 1;
    }
    st
}

/// The size of a mode as stored in a property blob.
pub const MODE_INFO_SIZE: usize = 68;

/// `m` is the mode stored little-endian at the start of `b`.
pub open spec fn mode_read_from(m: ModeInfo, b: Seq<u8>) -> bool {
    &&& m.clock == spec_u32_le(b, 0)
    &&& m.hdisplay == spec_u16_le(b, 4) && m.hsync_start == spec_u16_le(b, 6) && m.hsync_end == spec_u16_le(b, 8)
    &&& m.htotal == spec_u16_le(b, 10) && m.hskew == spec_u16_le(b, 12)
    &&& m.vdisplay == spec_u16_le(b, 14) && m.vsync_start == spec_u16_le(b, 16) && m.vsync_end == spec_u16_le(b, 18)
    &&& m.vtotal == spec_u16_le(b, 20) && m.vscan == spec_u16_le(b, 22)
    &&& m.vrefresh == spec_u32_le(b, 24) && m.flags == spec_u32_le(b, 28) && m.mode_type == spec_u32_le(b, 32)
    &&& forall|i: int| 0 <= i < 32 ==> #[trigger] m.name@[i] == b[36 + i]
}

/// Reads a mode from the start of a blob of at least `MODE_INFO_SIZE` bytes.
pub fn read_mode_info(b: &[u8]) -> (m: ModeInfo)
    requires
        b@.len() >= MODE_INFO_SIZE,
    ensures
        mode_read_from(m, b@),
{
    let mut name = [0u8; 32];
    let mut i: usize = 0;
    while i < 32
        invariant
            i <= 32,
            b@.len() >= MODE_INFO_SIZE,
            forall|q: int| 0 <= q < i ==> #[trigger] name@[q] == b@[36 + q],
        decreases 32 - i,
    {
        name[i] = b[36 + i];
        i = i + 1;
    }
    ModeInfo {
        clock: read_u32_le(b, 0),
        hdisplay: read_u16_le(b, 4), hsync_start: read_u16_le(b, 6), hsync_end: read_u16_le(b, 8),
        htotal: read_u16_le(b, 10), hskew: read_u16_le(b, 12),
        vdisplay: read_u16_le(b, 14), vsync_start: read_u16_le(b, 16), vsync_end: read_u16_le(b, 18),
        vtotal: read_u16_le(b, 20), vscan: read_u16_le(b, 22),
        vrefresh: read_u32_le(b, 24), flags: read_u32_le(b, 28), mode_type: read_u32_le(b, 32),
        name,
    }
}

pub struct Crtc {
    pub id: u32,
    pub fb_id: u32,
    pub x: u32,
    pub y: u32,
    pub mode: ModeInfo,
    pub mode_valid: bool,
    pub active: bool,
    pub mode_blob: u32,
    pub cursor_fb: Option<u32>,
    pub cursor_x: i32,
    pub cursor_y: i32,
}

/// Applies an atomic request to the CRTC: the framebuffer and activation
/// asked for, and the mode of the blob asked for when that blob exists and
/// is large enough. Returns whether the display is to be scanned out (a
/// framebuffer is set and the CRTC is active).
pub fn apply_atomic(crtc: &mut Crtc, blobs: &BTreeMap<u32, Vec<u8>>, p: &AtomicPending) -> (scan: bool)
    ensures
        final(crtc).fb_id == (match p.fb { Some(f) => f, None => old(crtc).fb_id }),
        final(crtc).active == (p.active || old(crtc).active),
        ({
            let fits = p.mode_blob is Some && blobs@.contains_key(p.mode_blob->0)
                && blobs@[p.mode_blob->0]@.len() >= MODE_INFO_SIZE;
            &&& fits ==> final(crtc).mode_valid && mode_read_from(final(crtc).mode, blobs@[p.mode_blob->0]@)
            &&& !fits ==> final(crtc).mode == old(crtc).mode && final(crtc).mode_valid == old(crtc).mode_valid
        }),
        final(crtc).id == old(crtc).id && final(crtc).mode_blob == old(crtc).mode_blob
            && final(crtc).cursor_fb == old(crtc).cursor_fb,
        scan == (final(crtc).fb_id != 0 && final(crtc).active),
{
    broadcast use vstd::std_specs::btree::group_btree_axioms;
    if let Some(fb) = p.fb {
        crtc.fb_id = fb;
    }
    if p.active {
        crtc.active = true;
    }
    if let Some(blob_id) = p.mode_blob {
        if let Some(data) = blobs.get(&blob_id) {
            if data.len() >= MODE_INFO_SIZE {
                crtc.mode = read_mode_info(data.as_slice());
                crtc.mode_valid = true;
            }
        }
    }
    crtc.fb_id != 0 && crtc.active
}


/// A dumb buffer's pitch is the least multiple of 64 that holds a row of
/// `w` pixels of `bpp` bits (whole bytes each), and its size the least
/// whole number of pages that holds `h` such rows.
pub proof fn law_dumb_geometry(w: int, h: int, bpp: int)
    requires
        0 <= w,
        0 <= h,
        0 <= bpp,
    ensures
        ({
            let row = w * ((bpp + 7) / 8);
            let p = dumb_pitch(w, bpp);
            let s = dumb_size(w, h, bpp);
            &&& p % 64 == 0 && row <= p < row + 64
            &&& s % 4096 == 0 && p * h <= s < p * h + 4096
        }),
{
    let row = w * ((bpp + 7) / 8);
    assert((bpp + 7) / 8 >= 0);
    assert(w * ((bpp + 7) / 8) >= 0) by (nonlinear_arith)
        requires w >= 0, (bpp + 7) / 8 >= 0;
    vstd::arithmetic::div_mod::lemma_fundamental_div_mod(row + 63, 64);
    vstd::arithmetic::div_mod::lemma_mod_multiples_basic((row + 63) / 64, 64);
    assert(((row + 63) / 64) * 64 == 64 * ((row + 63) / 64)) by (nonlinear_arith);
    let p = dumb_pitch(w, bpp);
    assert(p >= 0);
    let sz = p * h;
    assert(p * h >= 0) by (nonlinear_arith)
        requires p >= 0, h >= 0;
    vstd::arithmetic::div_mod::lemma_fundamental_div_mod(sz + 4095, 4096);
    vstd::arithmetic::div_mod::lemma_mod_multiples_basic((sz + 4095) / 4096, 4096);
    assert(((sz + 4095) / 4096) * 4096 == 4096 * ((sz + 4095) / 4096)) by (nonlinear_arith);
}


proof fn lemma_bytes_of(a: int, b: int, c: int, d: int)
    requires
        0 <= a < 0x100,
        0 <= b < 0x100,
        0 <= c < 0x100,
        0 <= d < 0x100,
    ensures
        ({
            let v = a * 0x100_0000 + b * 0x1_0000 + c * 0x100 + d;
            &&& v % 0x100 == d
            &&& (v / 0x100) % 0x100 == c
            &&& (v / 0x1_0000) % 0x100 == b
            &&& v / 0x100_0000 == a
            &&& v < 0x1_0000_0000
        }),
{
    let v = a * 0x100_0000 + b * 0x1_0000 + c * 0x100 + d;
    vstd::arithmetic::div_mod::lemma_fundamental_div_mod_converse(v, 0x100, a * 0x1_0000 + b * 0x100 + c, d);
    let v1 = a * 0x1_0000 + b * 0x100 + c;
    vstd::arithmetic::div_mod::lemma_fundamental_div_mod_converse(v1, 0x100, a * 0x100 + b, c);
    vstd::arithmetic::div_mod::lemma_fundamental_div_mod_converse(v, 0x1_0000, a * 0x100 + b, c * 0x100 + d);
    vstd::arithmetic::div_mod::lemma_fundamental_div_mod_converse(a * 0x100 + b, 0x100, a, b);
    vstd::arithmetic::div_mod::lemma_fundamental_div_mod_converse(v, 0x100_0000, a, b * 0x1_0000 + c * 0x100 + d);
}

/// Exchanging red and blue moves byte 0 to byte 2 and back, keeping green
/// and the top byte; doing it twice gives the pixel back.
pub proof fn law_swap_rb(px: u32)
    ensures
        chan(spec_swap_rb(px), 0) == chan(px, 2),
        chan(spec_swap_rb(px), 1) == chan(px, 1),
        chan(spec_swap_rb(px), 2) == chan(px, 0),
        chan(spec_swap_rb(px), 3) == chan(px, 3),
        spec_swap_rb(spec_swap_rb(px)) == px,
{
    let p = px as int;
    let a = p / 0x100_0000;
    let b = (p / 0x1_0000) % 0x100;
    let g = (p / 0x100) % 0x100;
    let r = p % 0x100;
    vstd::arithmetic::div_mod::lemma_fundamental_div_mod(p, 0x100);
    vstd::arithmetic::div_mod::lemma_fundamental_div_mod(p / 0x100, 0x100);
    vstd::arithmetic::div_mod::lemma_fundamental_div_mod(p / 0x1_0000, 0x100);
    vstd::arithmetic::div_mod::lemma_div_denominator(p, 0x100, 0x100);
    vstd::arithmetic::div_mod::lemma_div_denominator(p, 0x1_0000, 0x100);
    assert(p == a * 0x100_0000 + b * 0x1_0000 + g * 0x100 + r);
    lemma_bytes_of(a, b, g, r);
    lemma_bytes_of(a, r, g, b);
    let q = spec_swap_rb(px);
    assert(q as int == a * 0x100_0000 + r * 0x1_0000 + g * 0x100 + b);
}

} // verus!
