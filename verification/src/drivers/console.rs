//! The framebuffer text console: cursor movement, wrapping and scrolling,
//! and the ANSI escape sequences that set colours. Drawing is the
//! caller's part: each byte yields what to draw and whether to scroll.
use vstd::prelude::*;
use vstd::string::StringSliceAdditionalSpecFns;

verus! {

pub const CHAR_W: u32 = 8;
pub const CHAR_H: u32 = 16;
pub const ESC_BUF_LEN: usize = 32;
pub const DEFAULT_FG: u32 = 0xE0E0E0;
pub const DEFAULT_BG: u32 = 0x0A0A0A;
pub const RESET_FG: u32 = 0xCCCCCC;
pub const RESET_BG: u32 = 0x000000;

/// Escape parsing state: plain text, after ESC, inside `ESC [`.
pub const ESC_NONE: u8 = 0;
pub const ESC_SEEN: u8 = 1;
pub const ESC_CSI: u8 = 2;

pub struct Console {
    pub col: u32,
    pub row: u32,
    pub cols: u32,
    pub rows: u32,
    pub fg: u32,
    pub bg: u32,
    pub ready: bool,
    pub esc_state: u8,
    pub esc_buf: Vec<u8>,
    pub esc_len: usize,
}

/// A glyph to draw at pixel `(x, y)` in the given colours.
pub struct Draw {
    pub x: u32,
    pub y: u32,
    pub ch: u8,
    pub fg: u32,
    pub bg: u32,
}

/// What one byte asks of the framebuffer: a glyph to draw first, then
/// whether to move every text line up by one.
pub struct ConsoleOutput {
    pub draw: Option<Draw>,
    pub scroll: bool,
}

/// The colour an SGR parameter sets, by code: (foreground, background)
/// after applying `n` to `(fg, bg)`.
pub open spec fn sgr_apply(fg: u32, bg: u32, n: u32) -> (u32, u32) {
    if n == 0 { (RESET_FG, RESET_BG) }
    else if n == 1 { (fg | 0x808080, bg) }
    else if n == 30 { (0x000000, bg) }
    else if n == 31 { (0xCC0000, bg) }
    else if n == 32 { (0x00CC00, bg) }
    else if n == 33 { (0xCCCC00, bg) }
    else if n == 34 { (0x0000CC, bg) }
    else if n == 35 { (0xCC00CC, bg) }
    else if n == 36 { (0x00CCCC, bg) }
    else if n == 37 { (0xCCCCCC, bg) }
    else if n == 90 { (0x555555, bg) }
    else if n == 91 { (0xFF5555, bg) }
    else if n == 92 { (0x55FF55, bg) }
    else if n == 93 { (0xFFFF55, bg) }
    else if n == 94 { (0x5555FF, bg) }
    else if n == 95 { (0xFF55FF, bg) }
    else if n == 96 { (0x55FFFF, bg) }
    else if n == 97 { (0xFFFFFF, bg) }
    else { (fg, bg) }
}

fn sgr(fg: u32, bg: u32, n: u32) -> (r: (u32, u32))
    ensures
        r == sgr_apply(fg, bg, n),
{
    if n == 0 { (RESET_FG, RESET_BG) }
    else if n == 1 { (fg | 0x808080, bg) }
    else if n == 30 { (0x000000, bg) }
    else if n == 31 { (0xCC0000, bg) }
    else if n == 32 { (0x00CC00, bg) }
    else if n == 33 { (0xCCCC00, bg) }
    else if n == 34 { (0x0000CC, bg) }
    else if n == 35 { (0xCC00CC, bg) }
    else if n == 36 { (0x00CCCC, bg) }
    else if n == 37 { (0xCCCCCC, bg) }
    else if n == 90 { (0x555555, bg) }
    else if n == 91 { (0xFF5555, bg) }
    else if n == 92 { (0x55FF55, bg) }
    else if n == 93 { (0xFFFF55, bg) }
    else if n == 94 { (0x5555FF, bg) }
    else if n == 95 { (0xFF55FF, bg) }
    else if n == 96 { (0x55FFFF, bg) }
    else if n == 97 { (0xFFFFFF, bg) }
    else { (fg, bg) }
}

pub open spec fn is_digit(b: u8) -> bool {
    48 <= b <= 57
}

/// The decimal number at `i` (digits accumulated with 32-bit wrapping),
/// and the index after it.
pub open spec fn spec_parse_num(buf: Seq<u8>, i: int, n: u32) -> (u32, int)
    decreases buf.len() - i,
{
    if 0 <= i < buf.len() && is_digit(buf[i]) {
        spec_parse_num(buf, i + 1, (n * 10 + (buf[i] - 48)) as u32)
    } else {
        (n, i)
    }
}

fn parse_num(buf: &[u8], i0: usize) -> (r: (u32, usize))
    ensures
        (r.0, r.1 as int) == spec_parse_num(buf@, i0 as int, 0),
        r.1 >= i0,
        i0 <= buf@.len() ==> r.1 <= buf@.len(),
{
    let mut n: u32 = 0;
    let mut i: usize = i0;
    while i < buf.len() && buf[i] >= 48 && buf[i] <= 57
        invariant
            i >= i0,
            i0 <= buf@.len() ==> i <= buf@.len(),
            spec_parse_num(buf@, i0 as int, 0) == spec_parse_num(buf@, i as int, n),
        decreases buf@.len() - i,
    {
        let d = (buf[i] - 48) as u32;
        let m = n.wrapping_mul(10).wrapping_add(d);
        assert(m == (n * 10 + d) as u32) by (bit_vector)
            requires
                m == n.wrapping_mul(10).wrapping_add(d),
        ;
        n = m;
        i = i + 1;
    }
    (n, i)
}

/// The colours after the SGR parameters `params` (numbers separated by
/// `;`), applied in order to `(fg, bg)`, scanning from index `i`.
pub open spec fn sgr_run(params: Seq<u8>, i: int, fg: u32, bg: u32) -> (u32, u32)
    decreases params.len() - i,
{
    if i < 0 || i >= params.len() {
        (fg, bg)
    } else {
        let (n, j) = spec_parse_num(params, i, 0);
        let k = if j < params.len() && params[j] == 59 { j + 1 } else { j };
        let (f2, b2) = sgr_apply(fg, bg, n);
        if k <= i || k > params.len() { (f2, b2) } else { sgr_run(params, k, f2, b2) }
    }
}

impl Console {
    pub open spec fn wf(&self) -> bool {
        &&& self.esc_buf@.len() == ESC_BUF_LEN
        &&& self.esc_len <= ESC_BUF_LEN
        &&& self.esc_state <= ESC_CSI
        &&& !self.ready ==> self.col == 0 && self.row == 0
        &&& self.ready ==> 1 <= self.cols && 1 <= self.rows && self.col < self.cols && self.row < self.rows
            && self.cols as int * CHAR_W <= u32::MAX && self.rows as int * CHAR_H <= u32::MAX
    }

    pub fn new() -> (r: Console)
        ensures
            r.wf(),
            !r.ready,
            r.fg == DEFAULT_FG && r.bg == DEFAULT_BG,
            r.esc_state == ESC_NONE,
    {
        let mut esc_buf: Vec<u8> = Vec::new();
        while esc_buf.len() < ESC_BUF_LEN
            invariant
                esc_buf@.len() <= ESC_BUF_LEN,
            decreases ESC_BUF_LEN - esc_buf@.len(),
        {
            esc_buf.push(0);
        }
        Console { col: 0, row: 0, cols: 0, rows: 0, fg: DEFAULT_FG, bg: DEFAULT_BG, ready: false,
            esc_state: ESC_NONE, esc_buf, esc_len: 0 }
    }
}

/// Sizes the console for a `w` by `h` pixel framebuffer; a framebuffer of
/// width 0 leaves it off. The caller clears the screen.
pub fn init(c: &mut Console, w: u32, h: u32)
    requires
        old(c).wf(),
        !old(c).ready,
        w == 0 || (w >= CHAR_W && h >= CHAR_H),
    ensures
        final(c).wf(),
        w == 0 ==> *final(c) == *old(c),
        w != 0 ==> final(c).ready && final(c).cols == w / CHAR_W && final(c).rows == h / CHAR_H
            && final(c).col == old(c).col && final(c).row == old(c).row && final(c).fg == old(c).fg
            && final(c).bg == old(c).bg,
{
    if w == 0 {
        return;
    }
    c.cols = w / CHAR_W;
    c.rows = h / CHAR_H;
    assert(c.cols as int * CHAR_W <= u32::MAX && c.rows as int * CHAR_H <= u32::MAX) by (nonlinear_arith)
        requires
            c.cols == w / CHAR_W,
            c.rows == h / CHAR_H,
    ;
    c.ready = true;
}


pub fn is_ready(c: &Console) -> (r: bool)
    ensures
        r == c.ready,
{
    c.ready
}

/// The cursor after moving to the start of the next line: `(row, scroll)`,
/// scrolling instead of leaving the last row.
pub open spec fn next_line(row: u32, rows: u32) -> (u32, bool) {
    if row + 1 >= rows { ((rows - 1) as u32, true) } else { ((row + 1) as u32, false) }
}

fn no_output() -> (r: ConsoleOutput)
    ensures
        r.draw is None,
        !r.scroll,
{
    ConsoleOutput { draw: None, scroll: false }
}

/// Nothing drawn, no scroll.
pub open spec fn quiet(r: ConsoleOutput) -> bool {
    r.draw is None && !r.scroll
}

/// `f` is `o` with the cursor at `(col, row)`.
pub open spec fn moved(o: Console, f: Console, col: int, row: int) -> bool {
    &&& f.col == col && f.row == row
    &&& f.cols == o.cols && f.rows == o.rows && f.ready == o.ready
}

/// `f` keeps the colours and escape state of `o`.
pub open spec fn same_style(o: Console, f: Console) -> bool {
    &&& f.fg == o.fg && f.bg == o.bg
    &&& f.esc_state == o.esc_state && f.esc_len == o.esc_len && f.esc_buf@ == o.esc_buf@
}

/// One byte fed to the console: from `o` to `f`, asking the framebuffer
/// for `r`. Outside an escape sequence: ESC starts one, CR returns to
/// column 0, LF goes to the next line, TAB moves to the next multiple of 8
/// (at most the last column), BS and DEL step back and blank the cell,
/// other bytes from 0x20 are drawn at the cursor, which then advances and
/// wraps; the rest are ignored. After ESC only `[` continues a sequence;
/// inside one, bytes up to a letter are collected, and an `m` applies the
/// collected SGR parameters (none resets). A console that is not ready
/// ignores every byte.
pub open spec fn char_step(o: Console, b: u8, f: Console, r: ConsoleOutput) -> bool {
    if !o.ready {
        moved(o, f, o.col as int, o.row as int) && same_style(o, f) && quiet(r)
    } else if o.esc_state == ESC_SEEN {
        &&& quiet(r) && moved(o, f, o.col as int, o.row as int)
        &&& f.fg == o.fg && f.bg == o.bg && f.esc_buf@ == o.esc_buf@
        &&& f.esc_state == (if b == 91 { ESC_CSI } else { ESC_NONE })
        &&& f.esc_len == (if b == 91 { 0 } else { o.esc_len })
    } else if o.esc_state == ESC_CSI {
        &&& quiet(r) && moved(o, f, o.col as int, o.row as int)
        &&& if (65 <= b <= 90) || (97 <= b <= 122) {
            &&& f.esc_state == ESC_NONE && f.esc_len == 0 && f.esc_buf@ == o.esc_buf@
            &&& (f.fg, f.bg) == (if b != 109 {
                (o.fg, o.bg)
            } else if o.esc_len == 0 {
                (RESET_FG, RESET_BG)
            } else {
                sgr_run(o.esc_buf@.take(o.esc_len as int), 0, o.fg, o.bg)
            })
        } else {
            &&& f.esc_state == ESC_CSI && f.fg == o.fg && f.bg == o.bg
            &&& o.esc_len < ESC_BUF_LEN ==> f.esc_len == o.esc_len + 1
                && f.esc_buf@ == o.esc_buf@.update(o.esc_len as int, b)
            &&& o.esc_len >= ESC_BUF_LEN ==> f.esc_len == o.esc_len && f.esc_buf@ == o.esc_buf@
        }
    } else {
        &&& f.fg == o.fg && f.bg == o.bg && f.esc_len == o.esc_len && f.esc_buf@ == o.esc_buf@
        &&& f.esc_state == (if b == 0x1B { ESC_SEEN } else { ESC_NONE })
        &&& if b == 0x1B {
            quiet(r) && moved(o, f, o.col as int, o.row as int)
        } else if b == 13 {
            quiet(r) && moved(o, f, 0, o.row as int)
        } else if b == 10 {
            r.draw is None && moved(o, f, 0, next_line(o.row, o.rows).0 as int)
                && r.scroll == next_line(o.row, o.rows).1
        } else if b == 9 {
            let t = (o.col + 8) / 8 * 8;
            quiet(r) && moved(o, f, if t < o.cols - 1 { t } else { o.cols - 1 }, o.row as int)
        } else if b == 8 || b == 0x7F {
            let nc = if o.col > 0 { o.col - 1 } else { 0 };
            &&& moved(o, f, nc, o.row as int) && !r.scroll
            &&& r.draw matches Some(d) && d.x == nc * CHAR_W && d.y == o.row * CHAR_H && d.ch == 32
                && d.fg == o.fg && d.bg == o.bg
        } else if b >= 0x20 {
            &&& r.draw matches Some(d) && d.x == o.col * CHAR_W && d.y == o.row * CHAR_H && d.ch == b
                && d.fg == o.fg && d.bg == o.bg
            &&& o.col + 1 < o.cols ==> moved(o, f, o.col + 1, o.row as int) && !r.scroll
            &&& o.col + 1 >= o.cols ==> moved(o, f, 0, next_line(o.row, o.rows).0 as int)
                && r.scroll == next_line(o.row, o.rows).1
        } else {
            quiet(r) && moved(o, f, o.col as int, o.row as int)
        }
    }
}

/// Feeds one byte to the console (see `char_step`).
#[verifier::rlimit(40)]
pub fn write_char(c: &mut Console, byte: u8) -> (r: ConsoleOutput)
    requires
        old(c).wf(),
    ensures
        final(c).wf(),
        char_step(*old(c), byte, *final(c), r),
{
    if !c.ready {
        return no_output();
    }
    if c.esc_state == ESC_SEEN {
        if byte == 91 {
            c.esc_state = ESC_CSI;
            c.esc_len = 0;
        } else {
            c.esc_state = ESC_NONE;
        }
        return no_output();
    }
    if c.esc_state == ESC_CSI {
        let alpha = (byte >= 65 && byte <= 90) || (byte >= 97 && byte <= 122);
        if alpha {
            if byte == 109 {
                let len = c.esc_len;
                if len == 0 {
                    c.fg = RESET_FG;
                    c.bg = RESET_BG;
                } else {
                    let (f, b) = apply_sgr(c.esc_buf.as_slice(), len, c.fg, c.bg);
                    c.fg = f;
                    c.bg = b;
                }
            }
            c.esc_state = ESC_NONE;
            c.esc_len = 0;
        } else {
            let len = c.esc_len;
            if len < c.esc_buf.len() {
                c.esc_buf.set(len, byte);
                c.esc_len = len + 1;
            }
        }
        return no_output();
    }
    if byte == 0x1B {
        c.esc_state = ESC_SEEN;
        no_output()
    } else if byte == 13 {
        c.col = 0;
        no_output()
    } else if byte == 10 {
        c.col = 0;
        let scroll = advance_row(c);
        ConsoleOutput { draw: None, scroll }
    } else if byte == 9 {
        let next = (c.col + 8) & !7u32;
        let v = c.col + 8;
        assert(next == v / 8 * 8) by (bit_vector)
            requires
                next == v & !7u32,
        ;
        c.col = if next < c.cols - 1 { next } else { c.cols - 1 };
        no_output()
    } else if byte == 8 || byte == 0x7F {
        if c.col > 0 {
            c.col = c.col - 1;
        }
        ConsoleOutput { draw: Some(Draw { x: c.col * CHAR_W, y: c.row * CHAR_H, ch: 32, fg: c.fg, bg: c.bg }), scroll: false }
    } else if byte >= 0x20 {
        let d = Draw { x: c.col * CHAR_W, y: c.row * CHAR_H, ch: byte, fg: c.fg, bg: c.bg };
        c.col = c.col + 1;
        let mut scroll = false;
        if c.col >= c.cols {
            c.col = 0;
            scroll = advance_row(c);
        }
        ConsoleOutput { draw: Some(d), scroll }
    } else {
        no_output()
    }
}

/// Moves the cursor down a line, staying on the last row (and asking for
/// a scroll) there.
fn advance_row(c: &mut Console) -> (scroll: bool)
    requires
        old(c).ready,
        1 <= old(c).rows,
        old(c).row < old(c).rows,
    ensures
        (final(c).row, scroll) == next_line(old(c).row, old(c).rows),
        final(c).col == old(c).col && final(c).cols == old(c).cols && final(c).rows == old(c).rows,
        final(c).ready == old(c).ready && final(c).fg == old(c).fg && final(c).bg == old(c).bg,
        final(c).esc_state == old(c).esc_state && final(c).esc_buf == old(c).esc_buf
            && final(c).esc_len == old(c).esc_len,
{
    if c.row + 1 >= c.rows {
        c.row = c.rows - 1;
        true
    } else {
        c.row = c.row + 1;
        false
    }
}

/// Applies the SGR parameters in the first `len` bytes of `buf`.
fn apply_sgr(buf: &[u8], len: usize, fg: u32, bg: u32) -> (r: (u32, u32))
    requires
        len <= buf@.len(),
    ensures
        r == sgr_run(buf@.take(len as int), 0, fg, bg),
{
    let mut params: Vec<u8> = Vec::new();
    let mut k: usize = 0;
    while k < len
        invariant
            k <= len,
            len <= buf@.len(),
            params@ == buf@.take(k as int),
        decreases len - k,
    {
        params.push(buf[k]);
        assert(params@ =~= buf@.take(k + 1));
        k = k + 1;
    }
    let ghost p = params@;
    let mut f = fg;
    let mut b = bg;
    let mut i: usize = 0;
    while i < len
        invariant
            params@ == p,
            p == buf@.take(len as int),
            p.len() == len,
            i <= len,
            sgr_run(p, 0, fg, bg) == sgr_run(p, i as int, f, b),
        decreases len - i,
    {
        let ghost fold = f;
        let ghost bold = b;
        let (n, ni) = parse_num(params.as_slice(), i);
        let mut j = ni;
        if j < len && params[j] == 59 {
            j = j + 1;
        }
        let (f2, b2) = sgr(f, b, n);
        f = f2;
        b = b2;
        assert(spec_parse_num(p, i as int, 0) == (n, ni as int));
        assert(sgr_run(p, i as int, fold, bold) == if j <= i || j > len { (f2, b2) } else { sgr_run(p, j as int, f2, b2) });
        if j <= i {
            return (f, b);
        }
        i = j;
    }
    (f, b)
}

/// Feeds every byte of `s`; the outputs in order. The console passes
/// through one state per byte, each the step of `char_step` from the one
/// before.
pub fn write_str(c: &mut Console, s: &str) -> (r: Vec<ConsoleOutput>)
    requires
        old(c).wf(),
    ensures
        final(c).wf(),
        r@.len() == s.spec_bytes().len(),
        exists|states: Seq<Console>| {
            &&& states.len() == s.spec_bytes().len() + 1
            &&& states[0] == *old(c)
            &&& states.last() == *final(c)
            &&& forall|i: int| 0 <= i < s.spec_bytes().len() ==>
                #[trigger] char_step(states[i], s.spec_bytes()[i], states[i + 1], r@[i])
        },
{
    let bytes = s.as_bytes();
    let mut out: Vec<ConsoleOutput> = Vec::new();
    let ghost mut states: Seq<Console> = seq![*c];
    let mut i: usize = 0;
    while i < bytes.len()
        invariant
            c.wf(),
            i <= bytes@.len(),
            out@.len() == i,
            bytes@ == s.spec_bytes(),
            states.len() == i + 1,
            states[0] == *old(c),
            states.last() == *c,
            forall|j: int| 0 <= j < i ==> #[trigger] char_step(states[j], bytes@[j], states[j + 1], out@[j]),
        decreases bytes@.len() - i,
    {
        let o = write_char(c, bytes[i]);
        out.push(o);
        proof {
            states = states.push(*c);
        }
        i = i + 1;
    }
    out
}
} // verus!
