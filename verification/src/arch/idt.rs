//! Interrupt descriptor table entries: where each vector jumps, in which
//! segment, on which interrupt stack, and whether interrupts stay enabled.
use vstd::prelude::*;

verus! {

pub const KERNEL_CODE_SEL: u16 = 0x08;
pub const GATE_INTERRUPT: u8 = 0x8e;
pub const GATE_TRAP: u8 = 0x8f;
/// Descriptor privilege level 3: user code may raise the vector.
pub const GATE_DPL_USER: u8 = 0x60;
pub const IDT_ENTRIES: usize = 256;
pub const SYSCALL_VECTOR: usize = 0x80;

#[derive(Clone, Copy)]
pub struct IdtEntry {
    pub offset_low: u16,
    pub selector: u16,
    pub ist: u8,
    pub type_attr: u8,
    pub offset_mid: u16,
    pub offset_high: u32,
    pub reserved: u32,
}

/// The operand of `lidt`: the table's last byte offset and its address.
pub struct IdtPointer {
    pub limit: u16,
    pub base: u64,
}

/// The handler address a gate holds.
pub open spec fn gate_address(e: IdtEntry) -> int {
    e.offset_low as int + e.offset_mid as int * 0x10000 + e.offset_high as int * 0x1_0000_0000
}

impl IdtEntry {
    /// An absent gate: every field zero.
    pub fn missing() -> (r: IdtEntry)
        ensures
            r.offset_low == 0 && r.selector == 0 && r.ist == 0 && r.type_attr == 0,
            r.offset_mid == 0 && r.offset_high == 0 && r.reserved == 0,
    {
        IdtEntry { offset_low: 0, selector: 0, ist: 0, type_attr: 0, offset_mid: 0, offset_high: 0, reserved: 0 }
    }

    /// An interrupt gate to `handler` in kernel code, on IST `ist & 7`.
    pub fn set_handler(&mut self, handler: u64, ist: u8)
        ensures
            gate_address(*final(self)) == handler,
            final(self).offset_low == handler % 0x10000,
            final(self).offset_mid == (handler / 0x10000) % 0x10000,
            final(self).offset_high == handler / 0x1_0000_0000,
            final(self).selector == KERNEL_CODE_SEL,
            final(self).ist == ist % 8,
            final(self).type_attr == GATE_INTERRUPT,
            final(self).reserved == 0,
    {
        let lo = handler as u16;
        let mid = (handler >> 16u64) as u16;
        let hi = (handler >> 32u64) as u32;
        let i = ist & 0x7u8;
        assert(lo == handler % 0x10000 && mid == (handler / 0x10000) % 0x10000 && hi == handler / 0x1_0000_0000
            && i == ist % 8) by (bit_vector)
            requires
                lo == handler as u16,
                mid == (handler >> 16u64) as u16,
                hi == (handler >> 32u64) as u32,
                i == ist & 0x7u8,
        ;
        self.offset_low = lo;
        self.selector = KERNEL_CODE_SEL;
        self.ist = i;
        self.type_attr = GATE_INTERRUPT;
        self.offset_mid = mid;
        self.offset_high = hi;
        self.reserved = 0;
    }

    /// A trap gate (interrupts stay enabled) to `handler`.
    pub fn set_trap_handler(&mut self, handler: u64, ist: u8)
        ensures
            gate_address(*final(self)) == handler,
            final(self).selector == KERNEL_CODE_SEL,
            final(self).ist == ist % 8,
            final(self).type_attr == GATE_TRAP,
            final(self).reserved == 0,
    {
        self.set_handler(handler, ist);
        self.type_attr = GATE_TRAP;
    }
}

/// The table the kernel loads: vectors 0-31 to the exception stubs (the
/// double fault, vector 8, on IST 1), 32-47 to the IRQ stubs, and 0x80 to
/// the system-call stub as a trap gate user code may raise; all others
/// absent.
pub fn build_idt(isr: &[u64], irq: &[u64], syscall: u64) -> (r: Vec<IdtEntry>)
    requires
        isr@.len() == 32,
        irq@.len() == 16,
    ensures
        r@.len() == IDT_ENTRIES,
        forall|v: int| 0 <= v < 32 ==> gate_address(#[trigger] r@[v]) == isr@[v] && r@[v].type_attr == GATE_INTERRUPT
            && r@[v].ist == (if v == 8 { 1u8 } else { 0u8 }),
        forall|v: int| 32 <= v < 48 ==> gate_address(#[trigger] r@[v]) == irq@[v - 32] && r@[v].type_attr == GATE_INTERRUPT
            && r@[v].ist == 0,
        gate_address(r@[SYSCALL_VECTOR as int]) == syscall,
        r@[SYSCALL_VECTOR as int].type_attr == GATE_TRAP | GATE_DPL_USER,
        forall|v: int| 48 <= v < IDT_ENTRIES && v != SYSCALL_VECTOR ==> #[trigger] r@[v].type_attr == 0
            && gate_address(r@[v]) == 0,
{
    let mut t: Vec<IdtEntry> = Vec::new();
    let mut v: usize = 0;
    while v < IDT_ENTRIES
        invariant
            v <= IDT_ENTRIES,
            isr@.len() == 32,
            irq@.len() == 16,
            t@.len() == v,
            forall|k: int| 0 <= k < v && k < 32 ==> gate_address(#[trigger] t@[k]) == isr@[k] && t@[k].type_attr == GATE_INTERRUPT
                && t@[k].ist == (if k == 8 { 1u8 } else { 0u8 }),
            forall|k: int| 32 <= k < v && k < 48 ==> gate_address(#[trigger] t@[k]) == irq@[k - 32] && t@[k].type_attr == GATE_INTERRUPT
                && t@[k].ist == 0,
            forall|k: int| 48 <= k < v ==> #[trigger] t@[k].type_attr == 0 && gate_address(t@[k]) == 0,
        decreases IDT_ENTRIES - v,
    {
        let mut e = IdtEntry::missing();
        if v < 32 {
            e.set_handler(isr[v], if v == 8 { 1 } else { 0 });
        } else if v < 48 {
            e.set_handler(irq[v - 32], 0);
        }
        t.push(e);
        v = v + 1;
    }
    let mut sys = t[SYSCALL_VECTOR];
    sys.set_trap_handler(syscall, 0);
    sys.type_attr = sys.type_attr | GATE_DPL_USER;
    t.set(SYSCALL_VECTOR, sys);
    t
}

impl IdtPointer {
    /// The pointer to a full table of 16-byte gates at `base`.
    pub fn new(base: u64) -> (r: IdtPointer)
        ensures
            r.limit == IDT_ENTRIES * 16 - 1,
            r.base == base,
    {
        IdtPointer { limit: (IDT_ENTRIES * 16 - 1) as u16, base }
    }
}

/// A gate records exactly the address it was given: splitting the address
/// over the three offset fields loses nothing.
pub proof fn law_gate_roundtrip(handler: u64)
    ensures
        (handler % 0x10000) + ((handler / 0x10000) % 0x10000) * 0x10000
            + (handler / 0x1_0000_0000) * 0x1_0000_0000 == handler,
{
    let a = handler as int;
    assert(a == a % 0x10000 + (a / 0x10000) * 0x10000) by (nonlinear_arith);
    assert(a / 0x10000 == (a / 0x10000) % 0x10000 + (a / 0x10000 / 0x10000) * 0x10000) by (nonlinear_arith);
    assert(a / 0x10000 / 0x10000 == a / 0x1_0000_0000) by (nonlinear_arith);
}

} // verus!
