//! The linear framebuffer: its geometry, colour packing, pixel addressing
//! and the glyph and string rendering plans. The pixel stores themselves
//! are the caller's.
use vstd::prelude::*;
use vstd::string::StringSliceAdditionalSpecFns;

verus! {

pub const GLYPH_W: u32 = 8;
pub const GLYPH_H: usize = 16;
/// Glyphs cover the printable ASCII range 0x20..=0x7E.
pub const GLYPH_COUNT: usize = 95;

#[derive(Clone, Copy, PartialEq, Eq, Structural)]
pub enum PixelFormat {
    Rgb32,
    Bgr32,
}

#[derive(Clone, Copy)]
pub struct Framebuffer {
    pub phys_addr: u64,
    pub virt_addr: u64,
    pub width: u32,
    pub height: u32,
    pub pitch: u32,
    pub format: PixelFormat,
}

/// The display, once a framebuffer is known.
pub struct Gpu {
    pub fb: Option<Framebuffer>,
}

impl Gpu {
    pub fn new() -> (r: Gpu)
        ensures
            r.fb is None,
    {
        Gpu { fb: None }
    }
}

/// Records the framebuffer the firmware handed over, mapped at `virt`;
/// an absent one (address, width or height 0) leaves the display off.
/// Format 1 is BGR, anything else RGB.
pub fn init(g: &mut Gpu, phys_addr: u64, width: u32, height: u32, pitch: u32, fmt: u32, virt: u64)
    ensures
        phys_addr == 0 || width == 0 || height == 0 ==> final(g).fb == old(g).fb,
        !(phys_addr == 0 || width == 0 || height == 0) ==> final(g).fb == Some(Framebuffer {
            phys_addr, virt_addr: virt, width, height, pitch,
            format: if fmt == 1 { PixelFormat::Bgr32 } else { PixelFormat::Rgb32 },
        }),
{
    if phys_addr == 0 || width == 0 || height == 0 {
        return;
    }
    let format = if fmt == 1 { PixelFormat::Bgr32 } else { PixelFormat::Rgb32 };
    g.fb = Some(Framebuffer { phys_addr, virt_addr: virt, width, height, pitch, format });
}

pub fn phys_addr(g: &Gpu) -> (r: u64)
    ensures
        r == match g.fb { Some(f) => f.phys_addr, None => 0 },
{
    match &g.fb {
        Some(f) => f.phys_addr,
        None => 0,
    }
}

pub fn dimensions(g: &Gpu) -> (r: (u32, u32))
    ensures
        r == match g.fb { Some(f) => (f.width, f.height), None => (0u32, 0u32) },
{
    match &g.fb {
        Some(f) => (f.width, f.height),
        None => (0, 0),
    }
}

pub fn pitch(g: &Gpu) -> (r: u32)
    ensures
        r == match g.fb { Some(f) => f.pitch, None => 0 },
{
    match &g.fb {
        Some(f) => f.pitch,
        None => 0,
    }
}

/// The pixel format as a number: 1 for BGR, 0 for RGB or no display.
pub fn format(g: &Gpu) -> (r: u32)
    ensures
        r == match g.fb { Some(f) => if f.format == PixelFormat::Bgr32 { 1u32 } else { 0u32 }, None => 0 },
{
    match &g.fb {
        Some(f) => match f.format {
            PixelFormat::Bgr32 => 1,
            PixelFormat::Rgb32 => 0,
        },
        None => 0,
    }
}

/// `0xRRGGBB` as the framebuffer stores it: unchanged for RGB, red and
/// blue swapped (and the top byte dropped) for BGR.
pub fn pack_color(rgb: u32, fmt: PixelFormat) -> (r: u32)
    ensures
        fmt == PixelFormat::Rgb32 ==> r == rgb,
        fmt == PixelFormat::Bgr32 ==> r == (rgb % 256) * 0x10000 + ((rgb / 256) % 256) * 0x100 + (rgb / 0x10000) % 256,
{
    match fmt {
        PixelFormat::Rgb32 => rgb,
        PixelFormat::Bgr32 => {
            let r = (rgb >> 16u32) & 0xFF;
            let g = (rgb >> 8u32) & 0xFF;
            let b = rgb & 0xFF;
            let out = (b << 16u32) | (g << 8u32) | r;
            assert(out == (rgb % 256) * 0x10000 + ((rgb / 256) % 256) * 0x100 + (rgb / 0x10000) % 256) by (bit_vector)
                requires
                    r == (rgb >> 16u32) & 0xFF,
                    g == (rgb >> 8u32) & 0xFF,
                    b == rgb & 0xFF,
                    out == (b << 16u32) | (g << 8u32) | r,
            ;
            out
        },
    }
}

/// The index of pixel `(x, y)` among the framebuffer's 32-bit words, or
/// `None` off screen.
pub open spec fn spec_pixel_index(f: Framebuffer, x: u32, y: u32) -> Option<int> {
    if x >= f.width || y >= f.height { None } else { Some(y * (f.pitch / 4) + x) }
}

pub fn pixel_index(f: &Framebuffer, x: u32, y: u32) -> (r: Option<usize>)
    requires
        f.height as int * (f.pitch / 4) as int + f.width as int <= u32::MAX,
    ensures
        r matches Some(i) ==> spec_pixel_index(*f, x, y) == Some(i as int),
        r is None ==> spec_pixel_index(*f, x, y) is None,
{
    if x >= f.width || y >= f.height {
        return None;
    }
    let row = f.pitch / 4;
    assert((y as int) * (row as int) + (x as int) <= (f.height as int) * (row as int) + (f.width as int)) by (nonlinear_arith)
        requires
            y < f.height,
            x < f.width,
            row >= 0,
    ;
    Some((y * row + x) as usize)
}

/// The glyph a byte is drawn with: printable ASCII by position, anything
/// below the range as the first glyph, anything above as the last.
pub open spec fn glyph_index(c: u8) -> int {
    let k = if c < 0x20 { 0 } else { c - 0x20 };
    if k > 94 { 94 } else { k }
}

/// The colour of pixel `(col, row)` of glyph `c`: `fg` where its bit is
/// set (most significant bit leftmost), `bg` elsewhere.
pub open spec fn glyph_pixel(font: Seq<u8>, c: u8, col: int, row: int, fg: u32, bg: u32) -> u32 {
    let bits = font[glyph_index(c) * 16 + row];
    if (bits as int / pow2_u8(7 - col)) % 2 == 1 { fg } else { bg }
}

pub open spec fn pow2_u8(k: int) -> int {
    if k <= 0 { 1 } else if k == 1 { 2 } else if k == 2 { 4 } else if k == 3 { 8 }
    else if k == 4 { 16 } else if k == 5 { 32 } else if k == 6 { 64 } else { 128 }
}

fn bit_set(bits: u8, col: u32) -> (r: bool)
    requires
        col < 8,
    ensures
        r == ((bits as int / pow2_u8(7 - col)) % 2 == 1),
{
    let r = bits & (0x80u8 >> (col as u8)) != 0;
    let c = col as u8;
    assert(r == ((bits as int / pow2_u8(7 - c)) % 2 == 1)) by (bit_vector)
        requires
            c < 8,
            r == (bits & (0x80u8 >> c) != 0),
    ;
    r
}

/// The 128 pixels of glyph `c` at `(x, y)`, row by row, left to right, as
/// `(x, y, colour)`.
pub fn draw_char(font: &[u8], x: u32, y: u32, c: u8, fg: u32, bg: u32) -> (r: Vec<(u32, u32, u32)>)
    requires
        font@.len() >= GLYPH_COUNT * GLYPH_H,
        x + 8 <= u32::MAX,
        y + 16 <= u32::MAX,
    ensures
        r@.len() == 128,
        forall|row: int, col: int| 0 <= row < 16 && 0 <= col < 8 ==> #[trigger] r@[row * 8 + col]
            == ((x + col) as u32, (y + row) as u32, glyph_pixel(font@, c, col, row, fg, bg)),
{
    let k: usize = if c < 0x20 { 0 } else { (c - 0x20) as usize };
    let idx: usize = if k > 94 { 94 } else { k };
    let mut out: Vec<(u32, u32, u32)> = Vec::new();
    let mut row: usize = 0;
    while row < GLYPH_H
        invariant
            row <= GLYPH_H,
            idx as int == glyph_index(c),
            font@.len() >= GLYPH_COUNT * GLYPH_H,
            x + 8 <= u32::MAX,
            y + 16 <= u32::MAX,
            out@.len() == row * 8,
            forall|r2: int, c2: int| 0 <= r2 < row && 0 <= c2 < 8 ==> #[trigger] out@[r2 * 8 + c2]
                == ((x + c2) as u32, (y + r2) as u32, glyph_pixel(font@, c, c2, r2, fg, bg)),
        decreases GLYPH_H - row,
    {
        let bits = font[idx * 16 + row];
        let mut col: u32 = 0;
        while col < 8
            invariant
                col <= 8,
                row < GLYPH_H,
                idx as int == glyph_index(c),
                bits == font@[idx * 16 + row],
                x + 8 <= u32::MAX,
                y + 16 <= u32::MAX,
                out@.len() == row * 8 + col,
                forall|r2: int, c2: int| 0 <= r2 < row && 0 <= c2 < 8 ==> #[trigger] out@[r2 * 8 + c2]
                    == ((x + c2) as u32, (y + r2) as u32, glyph_pixel(font@, c, c2, r2, fg, bg)),
                forall|c2: int| 0 <= c2 < col ==> #[trigger] out@[row * 8 + c2]
                    == ((x + c2) as u32, (y + row) as u32, glyph_pixel(font@, c, c2, row as int, fg, bg)),
            decreases 8 - col,
        {
            let color = if bit_set(bits, col) { fg } else { bg };
            out.push((x + col, y + row as u32, color));
            col = col + 1;
        }
        row = row + 1;
    }
    out
}

/// Where the glyphs of `s` go: one every 8 pixels from `x`, stopping at
/// the first that would not fit the display's width.
pub fn draw_str(g: &Gpu, x: u32, s: &str) -> (r: Vec<(u32, u8)>)
    ensures
        r@.len() == if s.spec_bytes().len() < glyphs_fit(x as int, dimensions_spec(*g).0 as int) {
            s.spec_bytes().len() as int } else { glyphs_fit(x as int, dimensions_spec(*g).0 as int) },
        forall|i: int| 0 <= i < r@.len() ==> (#[trigger] r@[i]).0 == x + 8 * i && r@[i].1 == s.spec_bytes()[i]
            && r@[i].0 + 8 <= dimensions_spec(*g).0,
{
    let (w, _h) = dimensions(g);
    let bytes = s.as_bytes();
    let mut out: Vec<(u32, u8)> = Vec::new();
    let mut cx: u32 = x;
    let mut i: usize = 0;
    while i < bytes.len()
        invariant
            i <= bytes@.len(),
            bytes@ == s.spec_bytes(),
            w == dimensions_spec(*g).0,
            out@.len() == i,
            cx == x + 8 * i,
            i <= glyphs_fit(x as int, w as int),
            forall|k: int| 0 <= k < i ==> (#[trigger] out@[k]).0 == x + 8 * k && out@[k].1 == bytes@[k]
                && out@[k].0 + 8 <= w,
        decreases bytes@.len() - i,
    {
        if cx as u64 + 8 > w as u64 {
            return out;
        }
        out.push((cx, bytes[i]));
        cx = cx + 8;
        i = i + 1;
    }
    out
}

/// How many 8-pixel glyphs fit from `x` on a display `w` pixels wide.
pub open spec fn glyphs_fit(x: int, w: int) -> int {
    if x + 8 > w { 0 } else { (w - x) / 8 }
}

pub open spec fn dimensions_spec(g: Gpu) -> (u32, u32) {
    match g.fb {
        Some(f) => (f.width, f.height),
        None => (0u32, 0u32),
    }
}

} // verus!
