//! PS/2 set-1 scancode decoding: modifier tracking and the US layout.
use vstd::prelude::*;
use crate::drivers::irq::{IrqTable, register};

verus! {

/// The handler number the keyboard IRQ line is registered with.
pub const KEYBOARD_HANDLER: u32 = 1;
/// The IRQ line of the PS/2 keyboard.
pub const KEYBOARD_IRQ: u8 = 1;

/// The US layout without shift, by scancode.
pub open spec fn keymap_plain() -> Seq<u8> {
    seq![
        0u8, 27u8, 49u8, 50u8, 51u8, 52u8, 53u8, 54u8, 55u8, 56u8, 57u8, 48u8, 45u8, 61u8, 8u8, 9u8,
        113u8, 119u8, 101u8, 114u8, 116u8, 121u8, 117u8, 105u8, 111u8, 112u8, 91u8, 93u8, 10u8, 0u8, 97u8, 115u8,
        100u8, 102u8, 103u8, 104u8, 106u8, 107u8, 108u8, 59u8, 39u8, 96u8, 0u8, 92u8, 122u8, 120u8, 99u8, 118u8,
        98u8, 110u8, 109u8, 44u8, 46u8, 47u8, 0u8, 42u8, 0u8, 32u8, 0u8, 0u8, 0u8, 0u8, 0u8, 0u8,
        0u8, 0u8, 0u8, 0u8, 0u8, 0u8, 0u8, 0u8, 0u8, 0u8, 0u8, 0u8, 45u8, 0u8, 0u8, 0u8,
        43u8, 0u8, 0u8, 0u8, 0u8, 0u8, 0u8, 0u8, 0u8, 0u8, 0u8, 0u8, 0u8, 0u8, 0u8, 0u8,
        0u8, 0u8, 0u8, 0u8, 0u8, 0u8, 0u8, 0u8, 0u8, 0u8, 0u8, 0u8, 0u8, 0u8, 0u8, 0u8,
        0u8, 0u8, 0u8, 0u8, 0u8, 0u8, 0u8, 0u8, 0u8, 0u8, 0u8, 0u8, 0u8, 0u8, 0u8, 0u8,
    ]
}

/// The US layout with shift, by scancode.
pub open spec fn keymap_shift() -> Seq<u8> {
    seq![
        0u8, 27u8, 33u8, 64u8, 35u8, 36u8, 37u8, 94u8, 38u8, 42u8, 40u8, 41u8, 95u8, 43u8, 8u8, 9u8,
        81u8, 87u8, 69u8, 82u8, 84u8, 89u8, 85u8, 73u8, 79u8, 80u8, 123u8, 125u8, 10u8, 0u8, 65u8, 83u8,
        68u8, 70u8, 71u8, 72u8, 74u8, 75u8, 76u8, 58u8, 34u8, 126u8, 0u8, 124u8, 90u8, 88u8, 67u8, 86u8,
        66u8, 78u8, 77u8, 60u8, 62u8, 63u8, 0u8, 42u8, 0u8, 32u8, 0u8, 0u8, 0u8, 0u8, 0u8, 0u8,
        0u8, 0u8, 0u8, 0u8, 0u8, 0u8, 0u8, 0u8, 0u8, 0u8, 0u8, 0u8, 45u8, 0u8, 0u8, 0u8,
        43u8, 0u8, 0u8, 0u8, 0u8, 0u8, 0u8, 0u8, 0u8, 0u8, 0u8, 0u8, 0u8, 0u8, 0u8, 0u8,
        0u8, 0u8, 0u8, 0u8, 0u8, 0u8, 0u8, 0u8, 0u8, 0u8, 0u8, 0u8, 0u8, 0u8, 0u8, 0u8,
        0u8, 0u8, 0u8, 0u8, 0u8, 0u8, 0u8, 0u8, 0u8, 0u8, 0u8, 0u8, 0u8, 0u8, 0u8, 0u8,
    ]
}

/// The control code a key gives with Ctrl held: letters map to 1..=26,
/// `[ \ ] ^ _` to 0x1B..=0x1F, anything else to 0 (none).
pub open spec fn spec_ctrl_char(ascii: u8) -> u8 {
    if 97 <= ascii <= 122 {
        (ascii - 97 + 1) as u8
    } else if 65 <= ascii <= 90 {
        (ascii - 65 + 1) as u8
    } else if ascii == 91 {
        0x1B
    } else if ascii == 92 {
        0x1C
    } else if ascii == 93 {
        0x1D
    } else if ascii == 94 {
        0x1E
    } else if ascii == 95 {
        0x1F
    } else {
        0
    }
}

pub fn ctrl_char(ascii: u8) -> (r: u8)
    ensures
        r == spec_ctrl_char(ascii),
{
    if ascii >= 97 && ascii <= 122 {
        ascii - 97 + 1
    } else if ascii >= 65 && ascii <= 90 {
        ascii - 65 + 1
    } else if ascii == 91 {
        0x1B
    } else if ascii == 92 {
        0x1C
    } else if ascii == 93 {
        0x1D
    } else if ascii == 94 {
        0x1E
    } else if ascii == 95 {
        0x1F
    } else {
        0
    }
}

/// Which modifiers are held.
pub struct KeyboardState {
    pub shift: bool,
    pub ctrl: bool,
    pub alt: bool,
}

/// The byte a key press gives with the modifiers in `st`, if any.
pub open spec fn key_byte(st: KeyboardState, scancode: u8) -> Option<u8> {
    let ascii = if st.shift { keymap_shift()[scancode as int] } else { keymap_plain()[scancode as int] };
    if scancode >= 128 || ascii == 0 {
        None
    } else if st.ctrl && spec_ctrl_char(ascii) != 0 {
        Some(spec_ctrl_char(ascii))
    } else {
        Some(ascii)
    }
}

impl KeyboardState {
    pub fn new() -> (r: KeyboardState)
        ensures
            !r.shift && !r.ctrl && !r.alt,
    {
        KeyboardState { shift: false, ctrl: false, alt: false }
    }
}

fn lookup(scancode: u8, shift: bool) -> (r: u8)
    requires
        scancode < 128,
    ensures
        r == if shift { keymap_shift()[scancode as int] } else { keymap_plain()[scancode as int] },
{
    let plain: [u8; 128] = [
        0u8, 27u8, 49u8, 50u8, 51u8, 52u8, 53u8, 54u8, 55u8, 56u8, 57u8, 48u8, 45u8, 61u8, 8u8, 9u8,
        113u8, 119u8, 101u8, 114u8, 116u8, 121u8, 117u8, 105u8, 111u8, 112u8, 91u8, 93u8, 10u8, 0u8, 97u8, 115u8,
        100u8, 102u8, 103u8, 104u8, 106u8, 107u8, 108u8, 59u8, 39u8, 96u8, 0u8, 92u8, 122u8, 120u8, 99u8, 118u8,
        98u8, 110u8, 109u8, 44u8, 46u8, 47u8, 0u8, 42u8, 0u8, 32u8, 0u8, 0u8, 0u8, 0u8, 0u8, 0u8,
        0u8, 0u8, 0u8, 0u8, 0u8, 0u8, 0u8, 0u8, 0u8, 0u8, 0u8, 0u8, 45u8, 0u8, 0u8, 0u8,
        43u8, 0u8, 0u8, 0u8, 0u8, 0u8, 0u8, 0u8, 0u8, 0u8, 0u8, 0u8, 0u8, 0u8, 0u8, 0u8,
        0u8, 0u8, 0u8, 0u8, 0u8, 0u8, 0u8, 0u8, 0u8, 0u8, 0u8, 0u8, 0u8, 0u8, 0u8, 0u8,
        0u8, 0u8, 0u8, 0u8, 0u8, 0u8, 0u8, 0u8, 0u8, 0u8, 0u8, 0u8, 0u8, 0u8, 0u8, 0u8,
    ];
    let shifted: [u8; 128] = [
        0u8, 27u8, 33u8, 64u8, 35u8, 36u8, 37u8, 94u8, 38u8, 42u8, 40u8, 41u8, 95u8, 43u8, 8u8, 9u8,
        81u8, 87u8, 69u8, 82u8, 84u8, 89u8, 85u8, 73u8, 79u8, 80u8, 123u8, 125u8, 10u8, 0u8, 65u8, 83u8,
        68u8, 70u8, 71u8, 72u8, 74u8, 75u8, 76u8, 58u8, 34u8, 126u8, 0u8, 124u8, 90u8, 88u8, 67u8, 86u8,
        66u8, 78u8, 77u8, 60u8, 62u8, 63u8, 0u8, 42u8, 0u8, 32u8, 0u8, 0u8, 0u8, 0u8, 0u8, 0u8,
        0u8, 0u8, 0u8, 0u8, 0u8, 0u8, 0u8, 0u8, 0u8, 0u8, 0u8, 0u8, 45u8, 0u8, 0u8, 0u8,
        43u8, 0u8, 0u8, 0u8, 0u8, 0u8, 0u8, 0u8, 0u8, 0u8, 0u8, 0u8, 0u8, 0u8, 0u8, 0u8,
        0u8, 0u8, 0u8, 0u8, 0u8, 0u8, 0u8, 0u8, 0u8, 0u8, 0u8, 0u8, 0u8, 0u8, 0u8, 0u8,
        0u8, 0u8, 0u8, 0u8, 0u8, 0u8, 0u8, 0u8, 0u8, 0u8, 0u8, 0u8, 0u8, 0u8, 0u8, 0u8,
    ];
    assert(plain@ =~= keymap_plain());
    assert(shifted@ =~= keymap_shift());
    if shift { shifted[scancode as usize] } else { plain[scancode as usize] }
}

/// Decodes one scancode: a modifier make or break code updates `st` and
/// gives nothing, any other break code gives nothing, and a make code
/// gives the byte of its key under the held modifiers (Ctrl turning
/// letters and a few symbols into control codes).
pub fn handle_scancode(st: &mut KeyboardState, scancode: u8) -> (r: Option<u8>)
    ensures
        scancode == 0x2A || scancode == 0x36 ==> final(st).shift && r is None,
        scancode == 0xAA || scancode == 0xB6 ==> !final(st).shift && r is None,
        scancode == 0x1D ==> final(st).ctrl && r is None,
        scancode == 0x9D ==> !final(st).ctrl && r is None,
        scancode == 0x38 ==> final(st).alt && r is None,
        scancode == 0xB8 ==> !final(st).alt && r is None,
        scancode != 0x2A && scancode != 0x36 && scancode != 0xAA && scancode != 0xB6 ==> final(st).shift == old(st).shift,
        scancode != 0x1D && scancode != 0x9D ==> final(st).ctrl == old(st).ctrl,
        scancode != 0x38 && scancode != 0xB8 ==> final(st).alt == old(st).alt,
        scancode != 0x2A && scancode != 0x36 && scancode != 0x1D && scancode != 0x38 && scancode < 0x80
            ==> r == key_byte(*old(st), scancode),
        scancode >= 0x80 ==> r is None,
{
    if scancode == 0x2A || scancode == 0x36 {
        st.shift = true;
        return None;
    }
    if scancode == 0xAA || scancode == 0xB6 {
        st.shift = false;
        return None;
    }
    if scancode == 0x1D {
        st.ctrl = true;
        return None;
    }
    if scancode == 0x9D {
        st.ctrl = false;
        return None;
    }
    if scancode == 0x38 {
        st.alt = true;
        return None;
    }
    if scancode == 0xB8 {
        st.alt = false;
        return None;
    }
    if scancode >= 0x80 {
        return None;
    }
    let ascii = lookup(scancode, st.shift);
    if ascii == 0 {
        return None;
    }
    let byte = if st.ctrl {
        let cc = ctrl_char(ascii);
        if cc == 0 { ascii } else { cc }
    } else {
        ascii
    };
    Some(byte)
}

/// Installs the keyboard handler on its IRQ line.
pub fn init(t: &mut IrqTable)
    requires
        old(t).wf(),
    ensures
        final(t).wf(),
        final(t).handlers@ == old(t).handlers@.update(KEYBOARD_IRQ as int, Some(KEYBOARD_HANDLER)),
{
    register(t, KEYBOARD_IRQ, KEYBOARD_HANDLER);
}

/// Characters are delivered to the terminal as they arrive, so there is
/// never one waiting here.
pub fn read_char() -> (r: Option<char>)
    ensures
        r is None,
{
    None
}


/// Ctrl with a letter, either case, or with one of `@[\]^_` gives the
/// character's code modulo 32 (Ctrl-A is 1, Ctrl-[ is ESC); any other
/// character gives nothing (0).
pub proof fn law_ctrl_char_mod32(ascii: u8)
    ensures
        (64 <= ascii <= 95 || 97 <= ascii <= 122) ==> spec_ctrl_char(ascii) == ascii % 32,
        !(64 <= ascii <= 95 || 97 <= ascii <= 122) ==> spec_ctrl_char(ascii) == 0,
{
}

} // verus!
