//! The 80x25 VGA text screen: a cell per character (byte and colour), a
//! cursor, wrapping at the right edge and scrolling at the bottom. The
//! cells mirror video memory, which the caller updates from them.
use vstd::prelude::*;
use vstd::string::StringSliceAdditionalSpecFns;

verus! {

pub const VGA_PHYS: u64 = 0xB8000;
pub const WIDTH: usize = 80;
pub const HEIGHT: usize = 25;
pub const CELLS: usize = 2000;
pub const DEFAULT_COLOR: u8 = 0x0F;

pub struct Vga {
    pub cells: Vec<u16>,
    pub col: usize,
    pub row: usize,
    pub color: u8,
    pub ready: bool,
}

/// A cell: the character in the low byte, the colour in the high byte.
pub open spec fn spec_entry(c: u8, color: u8) -> u16 {
    (c + color * 256) as u16
}

fn entry(c: u8, color: u8) -> (r: u16)
    ensures
        r == spec_entry(c, color),
{
    c as u16 + (color as u16) * 256
}

/// The screen moved up a line, the last line blank.
pub open spec fn scrolled(cells: Seq<u16>, blank: u16) -> Seq<u16> {
    Seq::new(CELLS as nat, |i: int| if i < CELLS - WIDTH { cells[i + WIDTH] } else { blank })
}

/// The screen after one byte from the state `(cells, col, row, color)`:
/// the new cells, column and row.
pub open spec fn vga_step(cells: Seq<u16>, col: int, row: int, color: u8, b: u8) -> (Seq<u16>, int, int) {
    let blank = spec_entry(32, color);
    if b == 13 {
        (cells, 0, row)
    } else if b == 10 {
        if row + 1 >= HEIGHT { (scrolled(cells, blank), 0, HEIGHT - 1) } else { (cells, 0, row + 1) }
    } else if b == 8 {
        if col > 0 { (cells.update(row * WIDTH + col - 1, blank), col - 1, row) } else { (cells, col, row) }
    } else {
        let c2 = cells.update(row * WIDTH + col, spec_entry(b, color));
        if col + 1 >= WIDTH {
            if row + 1 >= HEIGHT { (scrolled(c2, blank), 0, HEIGHT - 1) } else { (c2, 0, row + 1) }
        } else {
            (c2, col + 1, row)
        }
    }
}

impl Vga {
    pub open spec fn wf(&self) -> bool {
        &&& self.cells@.len() == CELLS
        &&& self.col < WIDTH
        &&& self.row < HEIGHT
    }

    pub fn new() -> (r: Vga)
        ensures
            r.wf(),
            !r.ready,
            r.color == DEFAULT_COLOR,
    {
        let mut cells: Vec<u16> = Vec::new();
        while cells.len() < CELLS
            invariant
                cells@.len() <= CELLS,
            decreases CELLS - cells@.len(),
        {
            cells.push(0);
        }
        Vga { cells, col: 0, row: 0, color: DEFAULT_COLOR, ready: false }
    }
}

/// Blanks the screen in the current colour and homes the cursor.
pub fn clear(v: &mut Vga)
    requires
        old(v).wf(),
    ensures
        final(v).wf(),
        final(v).ready == old(v).ready,
        final(v).color == old(v).color,
        !old(v).ready ==> *final(v) == *old(v),
        old(v).ready ==> final(v).col == 0 && final(v).row == 0
            && final(v).cells@ == Seq::new(CELLS as nat, |i: int| spec_entry(32, old(v).color)),
{
    if !v.ready {
        return;
    }
    let blank = entry(32, v.color);
    let mut i: usize = 0;
    while i < CELLS
        invariant
            i <= CELLS,
            v.cells@.len() == CELLS,
            v.ready,
            v.color == old(v).color,
            blank == spec_entry(32, old(v).color),
            forall|k: int| 0 <= k < i ==> #[trigger] v.cells@[k] == blank,
        decreases CELLS - i,
    {
        v.cells.set(i, blank);
        i = i + 1;
    }
    v.col = 0;
    v.row = 0;
    assert(v.cells@ =~= Seq::new(CELLS as nat, |i: int| spec_entry(32, old(v).color)));
}

pub fn init(v: &mut Vga)
    requires
        old(v).wf(),
    ensures
        final(v).wf(),
        final(v).ready,
        final(v).col == 0 && final(v).row == 0,
        final(v).color == old(v).color,
        final(v).cells@ == Seq::new(CELLS as nat, |i: int| spec_entry(32, old(v).color)),
{
    v.ready = true;
    clear(v);
}

fn scroll(v: &mut Vga)
    requires
        old(v).wf(),
    ensures
        final(v).wf(),
        final(v).cells@ == scrolled(old(v).cells@, spec_entry(32, old(v).color)),
        final(v).col == old(v).col && final(v).color == old(v).color && final(v).ready == old(v).ready,
        final(v).row == HEIGHT - 1,
{
    let ghost before = v.cells@;
    let blank = entry(32, v.color);
    let mut i: usize = 0;
    while i < CELLS - WIDTH
        invariant
            i <= CELLS - WIDTH,
            v.cells@.len() == CELLS,
            v.col == old(v).col && v.color == old(v).color && v.ready == old(v).ready && v.row == old(v).row,
            v.col < WIDTH && v.row < HEIGHT,
            before == old(v).cells@,
            forall|k: int| 0 <= k < i ==> #[trigger] v.cells@[k] == before[k + WIDTH],
            forall|k: int| i <= k < CELLS ==> #[trigger] v.cells@[k] == before[k],
        decreases CELLS - WIDTH - i,
    {
        let x = v.cells[i + WIDTH];
        v.cells.set(i, x);
        i = i + 1;
    }
    while i < CELLS
        invariant
            CELLS - WIDTH <= i <= CELLS,
            v.cells@.len() == CELLS,
            v.col == old(v).col && v.color == old(v).color && v.ready == old(v).ready,
            v.col < WIDTH,
            blank == spec_entry(32, old(v).color),
            before == old(v).cells@,
            forall|k: int| 0 <= k < CELLS - WIDTH ==> #[trigger] v.cells@[k] == before[k + WIDTH],
            forall|k: int| CELLS - WIDTH <= k < i ==> #[trigger] v.cells@[k] == blank,
        decreases CELLS - i,
    {
        v.cells.set(i, blank);
        i = i + 1;
    }
    v.row = HEIGHT - 1;
    assert(v.cells@ =~= scrolled(before, blank));
}

fn newline(v: &mut Vga)
    requires
        old(v).wf(),
    ensures
        final(v).wf(),
        final(v).col == 0,
        final(v).color == old(v).color && final(v).ready == old(v).ready,
        old(v).row + 1 >= HEIGHT ==> final(v).cells@ == scrolled(old(v).cells@, spec_entry(32, old(v).color))
            && final(v).row == HEIGHT - 1,
        old(v).row + 1 < HEIGHT ==> final(v).cells@ == old(v).cells@ && final(v).row == old(v).row + 1,
{
    v.col = 0;
    if v.row + 1 >= HEIGHT {
        scroll(v);
    } else {
        v.row = v.row + 1;
    }
}

/// Writes one byte: CR returns to column 0, LF starts a new line, BS
/// steps back and blanks that cell, anything else is stored at the cursor
/// in the current colour. Nothing happens before `init`. The result is the
/// cursor's cell index, for the hardware cursor.
pub fn write_byte(v: &mut Vga, b: u8) -> (r: Option<u16>)
    requires
        old(v).wf(),
    ensures
        final(v).wf(),
        final(v).color == old(v).color && final(v).ready == old(v).ready,
        !old(v).ready ==> *final(v) == *old(v) && r is None,
        old(v).ready ==> (final(v).cells@, final(v).col as int, final(v).row as int)
            == vga_step(old(v).cells@, old(v).col as int, old(v).row as int, old(v).color, b)
            && r == Some((final(v).row * WIDTH + final(v).col) as u16),
{
    if !v.ready {
        return None;
    }
    if b == 13 {
        v.col = 0;
    } else if b == 10 {
        newline(v);
    } else if b == 8 {
        if v.col > 0 {
            let nc = v.col - 1;
            v.col = nc;
            let blank = entry(32, v.color);
            let idx = v.row * WIDTH + nc;
            v.cells.set(idx, blank);
        }
    } else {
        let e = entry(b, v.color);
        let idx = v.row * WIDTH + v.col;
        v.cells.set(idx, e);
        if v.col + 1 >= WIDTH {
            newline(v);
        } else {
            v.col = v.col + 1;
        }
    }
    Some((v.row * WIDTH + v.col) as u16)
}

/// The cells, column and row after writing `bs` one byte after another.
pub open spec fn vga_run(cells: Seq<u16>, col: int, row: int, color: u8, bs: Seq<u8>) -> (Seq<u16>, int, int)
    decreases bs.len(),
{
    if bs.len() == 0 {
        (cells, col, row)
    } else {
        let (c2, col2, row2) = vga_step(cells, col, row, color, bs[0]);
        vga_run(c2, col2, row2, color, bs.drop_first())
    }
}

/// Writes every byte of `s`.
pub fn write_str(v: &mut Vga, s: &str)
    requires
        old(v).wf(),
    ensures
        final(v).wf(),
        final(v).color == old(v).color && final(v).ready == old(v).ready,
        !old(v).ready ==> *final(v) == *old(v),
        old(v).ready ==> (final(v).cells@, final(v).col as int, final(v).row as int)
            == vga_run(old(v).cells@, old(v).col as int, old(v).row as int, old(v).color, s.spec_bytes()),
{
    let bytes = s.as_bytes();
    let mut i: usize = 0;
    assert(bytes@.skip(0) =~= bytes@);
    while i < bytes.len()
        invariant
            v.wf(),
            v.color == old(v).color && v.ready == old(v).ready,
            i <= bytes@.len(),
            bytes@ == s.spec_bytes(),
            !old(v).ready ==> *v == *old(v),
            old(v).ready ==> vga_run(v.cells@, v.col as int, v.row as int, v.color, bytes@.skip(i as int))
                == vga_run(old(v).cells@, old(v).col as int, old(v).row as int, old(v).color, bytes@),
        decreases bytes@.len() - i,
    {
        proof {
            assert(bytes@.skip(i as int).drop_first() =~= bytes@.skip(i + 1));
            assert(bytes@.skip(i as int)[0] == bytes@[i as int]);
        }
        write_byte(v, bytes[i]);
        i = i + 1;
    }
    proof {
        assert(bytes@.skip(i as int) =~= Seq::<u8>::empty());
    }
}

/// Sets the colour for what follows: background in the high nibble,
/// foreground in the low one.
pub fn set_color(v: &mut Vga, fg: u8, bg: u8)
    ensures
        final(v).color == (bg % 16) * 16 + fg % 16,
        final(v).cells == old(v).cells && final(v).col == old(v).col && final(v).row == old(v).row
            && final(v).ready == old(v).ready,
{
    v.color = (bg % 16) * 16 + fg % 16;
}


/// A cell holds its character in the low byte and its colour in the high
/// byte.
pub proof fn law_entry_bytes(c: u8, color: u8)
    ensures
        spec_entry(c, color) % 256 == c,
        spec_entry(c, color) / 256 == color,
{
    vstd::arithmetic::div_mod::lemma_fundamental_div_mod_converse(c + color * 256, 256, color as int, c as int);
}

} // verus!
