//! PCI configuration space: address encoding for the legacy ports and for
//! ECAM, field extraction from configuration dwords, BAR decoding, the
//! capability-list walk and the table of discovered functions.
use vstd::prelude::*;

verus! {

pub const PCI_CONFIG_ADDRESS: u16 = 0xCF8;
pub const PCI_CONFIG_DATA: u16 = 0xCFC;
/// Command register bits: I/O space, memory space, bus master.
pub const PCI_CMD_ENABLE: u16 = 0x7;
pub const MAX_CAPABILITIES: usize = 48;

#[derive(Clone, Copy)]
pub struct PciDevice {
    pub bus: u8,
    pub device: u8,
    pub function: u8,
    pub vendor_id: u16,
    pub device_id: u16,
    pub class: u8,
    pub subclass: u8,
    pub prog_if: u8,
    pub revision: u8,
    pub header: u8,
    pub bars: [u32; 6],
    pub irq_line: u8,
    pub irq_pin: u8,
    pub subsystem_vendor: u16,
    pub subsystem_id: u16,
    pub capabilities_ptr: u8,
}

/// The address of BAR `idx`: I/O BARs drop their two flag bits, memory
/// BARs their four, and a 64-bit memory BAR takes its high half from the
/// next BAR when there is one.
pub open spec fn spec_bar_addr(bars: Seq<u32>, idx: int) -> u64 {
    if idx < 0 || idx >= 6 {
        0
    } else if bars[idx] % 2 == 1 {
        (bars[idx] - bars[idx] % 4) as u64
    } else if (bars[idx] / 2) % 4 == 2 && idx + 1 < 6 {
        ((bars[idx] - bars[idx] % 16) + bars[idx + 1] as int * 0x1_0000_0000) as u64
    } else {
        (bars[idx] - bars[idx] % 16) as u64
    }
}

proof fn lemma_bar_bits(bar: u32)
    by (bit_vector)
    ensures
        bar & !3u32 == bar - bar % 4,
        bar & !0xFu32 == bar - bar % 16,
        ((bar >> 1u32) & 3u32 == 2u32) == ((bar / 2) % 4 == 2),
        (bar & 1u32 != 0) == (bar % 2 == 1),
{
}

impl PciDevice {
    pub fn bar_addr(&self, idx: usize) -> (r: u64)
        ensures
            r == spec_bar_addr(self.bars@, idx as int),
    {
        if idx >= 6 {
            return 0;
        }
        let bar = self.bars[idx];
        proof {
            lemma_bar_bits(bar);
        }
        if bar & 1 != 0 {
            let v = bar & !3u32;
            v as u64
        } else if (bar >> 1u32) & 3 == 2 {
            let lo = bar & !0xFu32;
            if idx + 1 < 6 {
                let hi = self.bars[idx + 1] as u64;
                let r = lo as u64 | (hi << 32u64);
                assert(r == lo as u64 + hi * 0x1_0000_0000) by (bit_vector)
                    requires
                        lo < 0x1_0000_0000u64,
                        hi < 0x1_0000_0000u64,
                        r == lo as u64 | (hi << 32u64),
                ;
                r
            } else {
                lo as u64
            }
        } else {
            let lo = bar & !0xFu32;
            lo as u64
        }
    }

    pub fn is_io_bar(&self, idx: usize) -> (r: bool)
        ensures
            r == (idx < 6 && self.bars@[idx as int] % 2 == 1),
    {
        if idx >= 6 {
            return false;
        }
        let bar = self.bars[idx];
        proof {
            lemma_bar_bits(bar);
        }
        bar & 1 != 0
    }

    pub fn is_mmio_bar(&self, idx: usize) -> (r: bool)
        ensures
            r == !(idx < 6 && self.bars@[idx as int] % 2 == 1),
    {
        !self.is_io_bar(idx)
    }

    /// The command register value that turns on I/O and memory decoding
    /// and bus mastering, from its current value `cmd`.
    pub fn enable(&self, cmd: u16) -> (r: u16)
        ensures
            r == cmd | PCI_CMD_ENABLE,
    {
        cmd | PCI_CMD_ENABLE
    }

    /// Walks the capability list, reading each entry's id and next pointer
    /// with `read_u8` (a configuration byte at an offset), for at most 48
    /// entries: the offset of the first capability with id `cap_id`. What
    /// the reads returned is stated as a trace of the entries visited.
    pub fn find_capability<F: Fn(u8) -> u8>(&self, cap_id: u8, read_u8: F) -> (r: Option<u8>)
        requires
            forall|off: u8| call_requires(read_u8, (off,)),
        ensures
            self.capabilities_ptr == 0 ==> r is None,
            r matches Some(p) ==> p != 0 && call_ensures(read_u8, (p,), cap_id),
            r matches Some(p) ==> exists|ps: Seq<u8>, ids: Seq<u8>, ns: Seq<u8>|
                #[trigger] cap_trace(read_u8, self.capabilities_ptr, ps, ids, ns)
                && 1 <= ps.len() <= MAX_CAPABILITIES && ps.last() == p && ids.last() == cap_id
                && forall|k: int| 0 <= k < ps.len() - 1 ==> #[trigger] ids[k] != cap_id,
            r is None && self.capabilities_ptr != 0 ==> exists|ps: Seq<u8>, ids: Seq<u8>, ns: Seq<u8>|
                #[trigger] cap_trace(read_u8, self.capabilities_ptr, ps, ids, ns)
                && 1 <= ps.len() <= MAX_CAPABILITIES
                && (ps.len() == MAX_CAPABILITIES || ns.last() == 0)
                && forall|k: int| 0 <= k < ps.len() ==> #[trigger] ids[k] != cap_id,
    {
        if self.capabilities_ptr == 0 {
            return None;
        }
        let mut ptr = self.capabilities_ptr;
        let mut k: usize = 0;
        let ghost mut ps: Seq<u8> = Seq::empty();
        let ghost mut ids: Seq<u8> = Seq::empty();
        let ghost mut ns: Seq<u8> = Seq::empty();
        while k < MAX_CAPABILITIES
            invariant
                k <= MAX_CAPABILITIES,
                self.capabilities_ptr != 0,
                forall|off: u8| call_requires(read_u8, (off,)),
                cap_trace(read_u8, self.capabilities_ptr, ps, ids, ns),
                ps.len() == k,
                k == 0 ==> ptr == self.capabilities_ptr,
                k > 0 ==> ptr == ns.last(),
                forall|q: int| 0 <= q < k ==> #[trigger] ids[q] != cap_id,
            decreases MAX_CAPABILITIES - k,
        {
            if ptr == 0 {
                return None;
            }
            let id = read_u8(ptr);
            let next = read_u8(ptr.wrapping_add(1));
            proof {
                ps = ps.push(ptr);
                ids = ids.push(id);
                ns = ns.push(next);
                assert(cap_trace(read_u8, self.capabilities_ptr, ps, ids, ns));
            }
            if id == cap_id {
                return Some(ptr);
            }
            ptr = next;
            k = k + 1;
        }
        None
    }
}

/// `ps`, `ids` and `ns` are the entries of a capability walk from `start`
/// as the reads `f` gave them: each entry's offset (never 0), its id read
/// there and its next pointer read at the following byte, each entry
/// reached by the previous one's next pointer.
pub open spec fn cap_trace<F: Fn(u8) -> u8>(f: F, start: u8, ps: Seq<u8>, ids: Seq<u8>, ns: Seq<u8>) -> bool {
    &&& ps.len() == ids.len() && ids.len() == ns.len()
    &&& ps.len() > 0 ==> ps[0] == start
    &&& forall|k: int| 0 <= k < ps.len() ==> #[trigger] ps[k] != 0 && call_ensures(f, (ps[k],), ids[k])
        && call_ensures(f, (((ps[k] + 1) % 256) as u8,), ns[k])
    &&& forall|k: int| 0 <= k < ps.len() - 1 ==> #[trigger] ps[k + 1] == ns[k]
}

/// The legacy configuration address for a register of a function.
pub fn pci_addr(bus: u8, dev: u8, func: u8, off: u8) -> (r: u32)
    requires
        dev < 32,
        func < 8,
    ensures
        r == 0x8000_0000 + bus as int * 0x10000 + dev as int * 0x800 + func as int * 0x100 + (off - off % 4),
{
    let r = 0x8000_0000u32 | ((bus as u32) << 16u32) | ((dev as u32) << 11u32) | ((func as u32) << 8u32)
        | ((off as u32) & 0xFCu32);
    let b = bus as u32;
    let d = dev as u32;
    let f = func as u32;
    let o = off as u32;
    assert(r == 0x8000_0000u32 + b * 0x10000 + d * 0x800 + f * 0x100 + (o - o % 4)) by (bit_vector)
        requires
            b < 256,
            d < 32,
            f < 8,
            o < 256,
            r == 0x8000_0000u32 | (b << 16u32) | (d << 11u32) | (f << 8u32) | (o & 0xFCu32),
    ;
    r
}

/// The ECAM physical address of a register of a function.
pub fn ecam_addr(ecam: u64, bus: u8, dev: u8, func: u8, off: u8) -> (r: u64)
    requires
        ecam <= u64::MAX - 0x1000_0000,
        dev < 32,
        func < 8,
    ensures
        r == ecam + bus as int * 0x100000 + dev as int * 0x8000 + func as int * 0x1000 + (off - off % 4),
{
    let o = off as u64;
    let aligned = o & !3u64;
    assert(aligned == o - o % 4) by (bit_vector)
        requires
            aligned == o & !3u64,
    ;
    ecam + (bus as u64) * 0x100000 + (dev as u64) * 0x8000 + (func as u64) * 0x1000 + aligned
}

/// The 16-bit field at `off` within the configuration dword `d` that
/// holds it.
pub fn pci_read_u16(d: u32, off: u8) -> (r: u16)
    ensures
        r == if (off / 2) % 2 == 1 { d / 0x10000 } else { d % 0x10000 },
{
    let r = if off & 2 != 0 { (d >> 16u32) as u16 } else { d as u16 };
    assert((off & 2u8 != 0) == ((off / 2) % 2 == 1) && ((d >> 16u32) as u16) as int == d / 0x10000
        && (d as u16) as int == d % 0x10000) by (bit_vector);
    r
}

/// The configuration dword `d` with the 16-bit field at `off` replaced by
/// `val`.
pub fn pci_write_u16(d: u32, off: u8, val: u16) -> (r: u32)
    ensures
        (off / 2) % 2 == 1 ==> r == d % 0x10000 + val as int * 0x10000,
        (off / 2) % 2 == 0 ==> r == d - d % 0x10000 + val,
{
    let r = if off & 2 != 0 { (d & 0x0000_FFFFu32) | ((val as u32) << 16u32) } else { (d & 0xFFFF_0000u32) | val as u32 };
    let v = val as u32;
    assert((off & 2u8 != 0) == ((off / 2) % 2 == 1) && ((d & 0x0000_FFFFu32) | (v << 16u32)) == d % 0x10000 + v * 0x10000
        && ((d & 0xFFFF_0000u32) | v) == d - d % 0x10000 + v) by (bit_vector)
        requires
            v < 0x10000,
    ;
    r
}

/// The byte at `off` within the configuration dword `d` that holds it.
pub fn pci_read_u8(d: u32, off: u8) -> (r: u8)
    ensures
        r == (d as int / pow256(off % 4)) % 256,
{
    let k3 = off & 3u8;
    assert(k3 == off % 4) by (bit_vector)
        requires
            k3 == off & 3u8,
    ;
    let sh = (k3 as u32) * 8;
    let r = #[verifier::truncate] ((d >> sh) as u8);
    assert((d >> 0u32) as u8 == d % 256 && (d >> 8u32) as u8 == (d / 256) % 256
        && (d >> 16u32) as u8 == (d / 65536) % 256 && (d >> 24u32) as u8 == (d / 16777216) % 256) by (bit_vector);
    r
}

/// 256 to the power `k`, for `k` below 4.
pub open spec fn pow256(k: u8) -> int {
    if k == 0 { 1 } else if k == 1 { 256 } else if k == 2 { 65536 } else { 16777216 }
}

/// What the kernel does with a function it found.
#[derive(PartialEq, Eq, Structural)]
pub enum DeviceRole {
    /// An NVMe controller, with its BAR0 address to register.
    Nvme(u64),
    Ahci(u64),
    VirtioNet,
    VirtioBlk,
    Gpu,
    Xhci,
    Ehci,
    Audio,
    Nic,
    Other,
}

/// The role of a function by class, subclass, interface and IDs, in the
/// order the kernel checks them; an NVMe controller whose BAR0 is 0 has
/// no role.
pub fn classify_device(dev: &PciDevice) -> (r: DeviceRole)
    ensures
        dev.class == 0x01 && dev.subclass == 0x08 && dev.prog_if == 0x02 ==>
            r == if spec_bar_addr(dev.bars@, 0) != 0 { DeviceRole::Nvme(spec_bar_addr(dev.bars@, 0)) } else { DeviceRole::Other },
        dev.class == 0x01 && dev.subclass == 0x06 && dev.prog_if == 0x01 ==> r == DeviceRole::Ahci(spec_bar_addr(dev.bars@, 5)),
        dev.class == 0x02 && dev.subclass == 0x00 && dev.vendor_id == 0x1AF4 && dev.device_id == 0x1000 ==> r == DeviceRole::VirtioNet,
        dev.class == 0x01 && dev.subclass == 0x00 && dev.vendor_id == 0x1AF4 && dev.device_id == 0x1001 ==> r == DeviceRole::VirtioBlk,
        dev.class == 0x03 ==> r == DeviceRole::Gpu,
        dev.class == 0x0C && dev.subclass == 0x03 && dev.prog_if == 0x30 ==> r == DeviceRole::Xhci,
        dev.class == 0x0C && dev.subclass == 0x03 && dev.prog_if == 0x20 ==> r == DeviceRole::Ehci,
        dev.class == 0x04 && dev.subclass == 0x03 ==> r == DeviceRole::Audio,
        dev.class == 0x02 && dev.subclass == 0x00 && !(dev.vendor_id == 0x1AF4 && dev.device_id == 0x1000) ==> r == DeviceRole::Nic,
{
    let (c, s, p) = (dev.class, dev.subclass, dev.prog_if);
    if c == 0x01 && s == 0x08 && p == 0x02 {
        let bar0 = dev.bar_addr(0);
        if bar0 != 0 { DeviceRole::Nvme(bar0) } else { DeviceRole::Other }
    } else if c == 0x01 && s == 0x06 && p == 0x01 {
        DeviceRole::Ahci(dev.bar_addr(5))
    } else if c == 0x02 && s == 0x00 && dev.vendor_id == 0x1AF4 && dev.device_id == 0x1000 {
        DeviceRole::VirtioNet
    } else if c == 0x01 && s == 0x00 && dev.vendor_id == 0x1AF4 && dev.device_id == 0x1001 {
        DeviceRole::VirtioBlk
    } else if c == 0x03 {
        DeviceRole::Gpu
    } else if c == 0x0C && s == 0x03 && p == 0x30 {
        DeviceRole::Xhci
    } else if c == 0x0C && s == 0x03 && p == 0x20 {
        DeviceRole::Ehci
    } else if c == 0x04 && s == 0x03 {
        DeviceRole::Audio
    } else if c == 0x02 && s == 0x00 {
        DeviceRole::Nic
    } else {
        DeviceRole::Other
    }
}

/// The functions found on the buses, and the ECAM window if one is known.
pub struct PciRegistry {
    pub devices: Vec<PciDevice>,
    pub ecam_base: u64,
}

impl PciRegistry {
    pub fn new() -> (r: PciRegistry)
        ensures
            r.devices@.len() == 0,
            r.ecam_base == 0,
    {
        PciRegistry { devices: Vec::new(), ecam_base: 0 }
    }
}

pub fn set_ecam_base(reg: &mut PciRegistry, base: u64)
    ensures
        final(reg).ecam_base == base,
        final(reg).devices@ == old(reg).devices@,
{
    reg.ecam_base = base;
}

/// The first function with these vendor and device IDs.
pub fn find_device(reg: &PciRegistry, vendor: u16, device: u16) -> (r: Option<PciDevice>)
    ensures
        r is None <==> forall|i: int| 0 <= i < reg.devices@.len() ==>
            !((#[trigger] reg.devices@[i]).vendor_id == vendor && reg.devices@[i].device_id == device),
        r matches Some(d) ==> exists|i: int| 0 <= i < reg.devices@.len() && (#[trigger] reg.devices@[i]) == d
            && d.vendor_id == vendor && d.device_id == device
            && forall|j: int| 0 <= j < i ==> !((#[trigger] reg.devices@[j]).vendor_id == vendor && reg.devices@[j].device_id == device),
{
    let mut i: usize = 0;
    while i < reg.devices.len()
        invariant
            i <= reg.devices@.len(),
            forall|j: int| 0 <= j < i ==> !((#[trigger] reg.devices@[j]).vendor_id == vendor && reg.devices@[j].device_id == device),
        decreases reg.devices@.len() - i,
    {
        if reg.devices[i].vendor_id == vendor && reg.devices[i].device_id == device {
            return Some(reg.devices[i]);
        }
        i = i + 1;
    }
    None
}

/// Every function of this class and subclass, in discovery order.
pub fn find_class(reg: &PciRegistry, class: u8, subclass: u8) -> (r: Vec<PciDevice>)
    ensures
        r@ == reg.devices@.filter(|d: PciDevice| d.class == class && d.subclass == subclass),
{
    let ghost f = |d: PciDevice| d.class == class && d.subclass == subclass;
    let mut out: Vec<PciDevice> = Vec::new();
    let mut i: usize = 0;
    while i < reg.devices.len()
        invariant
            i <= reg.devices@.len(),
            f == |d: PciDevice| d.class == class && d.subclass == subclass,
            out@ == reg.devices@.take(i as int).filter(f),
        decreases reg.devices@.len() - i,
    {
        let d = reg.devices[i];
        proof {
            reveal(Seq::filter);
            assert(reg.devices@.take(i + 1).drop_last() =~= reg.devices@.take(i as int));
        }
        if d.class == class && d.subclass == subclass {
            out.push(d);
        }
        i = i + 1;
    }
    assert(reg.devices@.take(reg.devices@.len() as int) =~= reg.devices@);
    out
}

/// All functions, in discovery order.
pub fn all_devices(reg: &PciRegistry) -> (r: Vec<PciDevice>)
    ensures
        r@ == reg.devices@,
{
    let mut out: Vec<PciDevice> = Vec::new();
    let mut i: usize = 0;
    while i < reg.devices.len()
        invariant
            i <= reg.devices@.len(),
            out@ == reg.devices@.take(i as int),
        decreases reg.devices@.len() - i,
    {
        out.push(reg.devices[i]);
        assert(out@ =~= reg.devices@.take(i + 1));
        i = i + 1;
    }
    assert(reg.devices@.take(reg.devices@.len() as int) =~= reg.devices@);
    out
}

/// The command value that enables bus mastering for `dev`.
pub fn enable_bus_mastering(dev: &PciDevice, cmd: u16) -> (r: u16)
    ensures
        r == cmd | PCI_CMD_ENABLE,
{
    dev.enable(cmd)
}

} // verus!
