//! ACPI: what the MADT says about the interrupt controllers and CPUs.
use vstd::prelude::*;
use crate::bytes::{read_u32_le, spec_u32_le};

verus! {

/// Where the entries of the MADT start: after the 36-byte table header, the
/// local APIC address and the flags.
pub const MADT_ENTRIES: usize = 44;
pub const MAX_CPUS: usize = 32;

pub struct AcpiInfo {
    pub lapic_addr: u64,
    pub ioapic_addr: u64,
    pub cpu_count: usize,
    pub apic_ids: [u8; 32],
    pub hpet_addr: u64,
    pub pm_timer_blk: u32,
}

/// The MADT entries from byte `off` on: the APIC ids of the enabled local
/// APICs in order, and the address of the last I/O APIC. The walk stops at
/// an entry shorter than its header or running past the table; an entry
/// cut off before its fields is passed over.
pub open spec fn madt_walk(t: Seq<u8>, off: int) -> (Seq<u8>, Option<u32>)
    decreases t.len() - off,
{
    if off < 0 || off + 2 > t.len() {
        (Seq::empty(), None)
    } else {
        let elen = t[off + 1] as int;
        if elen < 2 || off + elen > t.len() {
            (Seq::empty(), None)
        } else {
            let rest = madt_walk(t, off + elen);
            if t[off] == 0 && off + 8 <= t.len() && spec_u32_le(t, off + 4) & 1 != 0 {
                (seq![t[off + 3]] + rest.0, rest.1)
            } else if t[off] == 1 && off + 8 <= t.len() {
                (rest.0, if rest.1 is Some { rest.1 } else { Some(spec_u32_le(t, off + 4)) })
            } else {
                rest
            }
        }
    }
}

/// Reads the MADT `t` into `info`: the local APIC address, the last I/O
/// APIC's address, the ids of the first 32 enabled CPUs and their count
/// (at least 1). Fields the table does not give keep their values.
pub fn parse_madt(info: &mut AcpiInfo, t: &[u8])
    requires
        t@.len() >= 40,
    ensures
        ({
            let (ids, io) = madt_walk(t@, MADT_ENTRIES as int);
            let n = if ids.len() < 32 { ids.len() as int } else { 32 };
            &&& final(info).lapic_addr == spec_u32_le(t@, 36)
            &&& final(info).ioapic_addr == match io { Some(a) => a as u64, None => old(info).ioapic_addr }
            &&& final(info).cpu_count == if n > 1 { n } else { 1 }
            &&& forall|i: int| 0 <= i < n ==> #[trigger] final(info).apic_ids@[i] == ids[i]
            &&& forall|i: int| n <= i < 32 ==> #[trigger] final(info).apic_ids@[i] == old(info).apic_ids@[i]
            &&& final(info).hpet_addr == old(info).hpet_addr
            &&& final(info).pm_timer_blk == old(info).pm_timer_blk
        }),
{
    info.lapic_addr = read_u32_le(t, 36) as u64;
    let ghost all = madt_walk(t@, MADT_ENTRIES as int);
    let ghost io0 = old(info).ioapic_addr;
    let ghost ids0 = old(info).apic_ids@;
    let len: usize = t.len();
    let mut off: usize = MADT_ENTRIES;
    let mut cpu: usize = 0;
    let ghost mut seen: Seq<u8> = Seq::empty();
    let ghost mut cur: Option<u32> = None;
    while off <= len && 2 <= len - off
        invariant
            len == t@.len(),
            t@.len() >= 40,
            all == madt_walk(t@, MADT_ENTRIES as int),
            off >= MADT_ENTRIES,
            seen + madt_walk(t@, off as int).0 == all.0,
            (if madt_walk(t@, off as int).1 is Some { madt_walk(t@, off as int).1 } else { cur }) == all.1,
            info.ioapic_addr == match cur { Some(a) => a as u64, None => io0 },
            cpu == if seen.len() < 32 { seen.len() as int } else { 32 },
            forall|i: int| 0 <= i < cpu ==> #[trigger] info.apic_ids@[i] == seen[i],
            forall|i: int| cpu <= i < 32 ==> #[trigger] info.apic_ids@[i] == ids0[i],
            info.lapic_addr == spec_u32_le(t@, 36),
            info.hpet_addr == old(info).hpet_addr,
            info.pm_timer_blk == old(info).pm_timer_blk,
        ensures
            madt_walk(t@, off as int).0.len() == 0,
            madt_walk(t@, off as int).1 is None,
            seen + madt_walk(t@, off as int).0 == all.0,
            (if madt_walk(t@, off as int).1 is Some { madt_walk(t@, off as int).1 } else { cur }) == all.1,
            info.ioapic_addr == match cur { Some(a) => a as u64, None => io0 },
            cpu == if seen.len() < 32 { seen.len() as int } else { 32 },
            forall|i: int| 0 <= i < cpu ==> #[trigger] info.apic_ids@[i] == seen[i],
            forall|i: int| cpu <= i < 32 ==> #[trigger] info.apic_ids@[i] == ids0[i],
            info.lapic_addr == spec_u32_le(t@, 36),
            info.hpet_addr == old(info).hpet_addr,
            info.pm_timer_blk == old(info).pm_timer_blk,
        decreases len - off,
    {
        let elen: usize = t[off + 1] as usize;
        if elen < 2 || elen > len - off {
            break;
        }
        let ty = t[off];
        if ty == 0 && 8 <= len - off && read_u32_le(t, off + 4) & 1 != 0 {
            if cpu < MAX_CPUS {
                info.apic_ids[cpu] = t[off + 3];
                cpu = cpu + 1;
            }
            proof {
                seen = seen.push(t@[off as int + 3]);
            }
        } else if ty == 1 && 8 <= len - off {
            info.ioapic_addr = read_u32_le(t, off + 4) as u64;
            proof {
                cur = Some(spec_u32_le(t@, off as int + 4));
            }
        }
        proof {
            let rest = madt_walk(t@, off as int + elen as int);
            assert(seen + rest.0 =~= all.0);
        }
        off = off + elen;
    }
    assert(seen =~= all.0);
    info.cpu_count = if cpu > 1 { cpu } else { 1 };
}

} // verus!
