//! Character devices by minor number. The null and zero devices are
//! served here; for the terminal, console and serial devices the table
//! names the transfer the caller performs.
use vstd::prelude::*;
use crate::errno::{VfsError, ENODEV};

verus! {

#[derive(Clone, Copy, PartialEq, Eq, Structural)]
pub enum DevKind {
    Null,
    Zero,
    Tty,
    Console,
    Serial,
}

pub struct CharDevice {
    pub minor: u32,
    pub name: String,
    pub kind: DevKind,
}

/// A transfer served here (`Done` with its byte count), or the device
/// whose I/O the caller performs.
#[derive(PartialEq, Eq, Structural)]
pub enum DevIo {
    Done(usize),
    Tty,
    Console,
    Serial,
}

/// The registered devices, in registration order.
pub struct DeviceTable {
    pub devices: Vec<CharDevice>,
}

/// The first device with minor number `minor` from `i` on, or -1.
pub open spec fn find_minor(ds: Seq<CharDevice>, minor: u32, i: int) -> int
    decreases ds.len() - i,
{
    if i < 0 || i >= ds.len() {
        -1
    } else if ds[i].minor == minor {
        i
    } else {
        find_minor(ds, minor, i + 1)
    }
}

proof fn lemma_find_minor_range(ds: Seq<CharDevice>, minor: u32, i: int)
    requires
        0 <= i,
    ensures
        find_minor(ds, minor, i) == -1 || (i <= find_minor(ds, minor, i) < ds.len()
            && ds[find_minor(ds, minor, i)].minor == minor),
    decreases ds.len() - i,
{
    if i < ds.len() && ds[i].minor != minor {
        lemma_find_minor_range(ds, minor, i + 1);
    }
}

/// The kind of the device `minor` names, if one is registered.
pub open spec fn device_kind(t: DeviceTable, minor: u32) -> Option<DevKind> {
    let i = find_minor(t.devices@, minor, 0);
    if i >= 0 { Some(t.devices@[i].kind) } else { None }
}

impl DeviceTable {
    pub fn new() -> (r: DeviceTable)
        ensures
            r.devices@.len() == 0,
    {
        DeviceTable { devices: Vec::new() }
    }

    fn kind_of(&self, minor: u32) -> (r: Option<DevKind>)
        ensures
            r == device_kind(*self, minor),
    {
        proof {
            lemma_find_minor_range(self.devices@, minor, 0);
        }
        let mut i: usize = 0;
        while i < self.devices.len()
            invariant
                i <= self.devices@.len(),
                find_minor(self.devices@, minor, 0) == find_minor(self.devices@, minor, i as int),
            decreases self.devices@.len() - i,
        {
            if self.devices[i].minor == minor {
                return Some(self.devices[i].kind);
            }
            i = i + 1;
        }
        None
    }
}

/// Adds a device at the end of the table.
pub fn register_device(t: &mut DeviceTable, dev: CharDevice)
    ensures
        final(t).devices@ == old(t).devices@.push(dev),
{
    t.devices.push(dev);
}

/// Registers null (0), zero (1), tty (2), console (3) and serial (4).
pub fn init(t: &mut DeviceTable)
    ensures
        final(t).devices@.len() == old(t).devices@.len() + 5,
        forall|i: int| 0 <= i < old(t).devices@.len() ==> #[trigger] final(t).devices@[i] == old(t).devices@[i],
        final(t).devices@[old(t).devices@.len() as int].minor == 0
            && final(t).devices@[old(t).devices@.len() as int].kind == DevKind::Null,
        final(t).devices@[old(t).devices@.len() as int + 1].minor == 1
            && final(t).devices@[old(t).devices@.len() as int + 1].kind == DevKind::Zero,
        final(t).devices@[old(t).devices@.len() as int + 2].minor == 2
            && final(t).devices@[old(t).devices@.len() as int + 2].kind == DevKind::Tty,
        final(t).devices@[old(t).devices@.len() as int + 3].minor == 3
            && final(t).devices@[old(t).devices@.len() as int + 3].kind == DevKind::Console,
        final(t).devices@[old(t).devices@.len() as int + 4].minor == 4
            && final(t).devices@[old(t).devices@.len() as int + 4].kind == DevKind::Serial,
{
    register_device(t, CharDevice { minor: 0, name: "null".to_owned(), kind: DevKind::Null });
    register_device(t, CharDevice { minor: 1, name: "zero".to_owned(), kind: DevKind::Zero });
    register_device(t, CharDevice { minor: 2, name: "tty".to_owned(), kind: DevKind::Tty });
    register_device(t, CharDevice { minor: 3, name: "console".to_owned(), kind: DevKind::Console });
    register_device(t, CharDevice { minor: 4, name: "serial".to_owned(), kind: DevKind::Serial });
}

/// Reads from device `minor` into `buf`: null reads nothing, zero fills
/// `buf` with zeros, the others are the caller's; `ENODEV` when no device
/// has that number.
pub fn read_device(t: &DeviceTable, minor: u32, buf: &mut [u8]) -> (r: Result<DevIo, VfsError>)
    ensures
        final(buf)@.len() == old(buf)@.len(),
        device_kind(*t, minor) is None ==> r == Err::<DevIo, VfsError>(ENODEV) && final(buf)@ == old(buf)@,
        device_kind(*t, minor) == Some(DevKind::Null) ==> r == Ok::<DevIo, VfsError>(DevIo::Done(0)) && final(buf)@ == old(buf)@,
        device_kind(*t, minor) == Some(DevKind::Zero) ==> r == Ok::<DevIo, VfsError>(DevIo::Done(old(buf)@.len() as usize))
            && forall|i: int| 0 <= i < final(buf)@.len() ==> #[trigger] final(buf)@[i] == 0u8,
        device_kind(*t, minor) == Some(DevKind::Tty) || device_kind(*t, minor) == Some(DevKind::Console)
            ==> r == Ok::<DevIo, VfsError>(DevIo::Tty) && final(buf)@ == old(buf)@,
        device_kind(*t, minor) == Some(DevKind::Serial) ==> r == Ok::<DevIo, VfsError>(DevIo::Serial) && final(buf)@ == old(buf)@,
{
    match t.kind_of(minor) {
        None => Err(ENODEV),
        Some(DevKind::Null) => Ok(DevIo::Done(0)),
        Some(DevKind::Zero) => {
            let n = buf.len();
            let mut k: usize = 0;
            while k < n
                invariant
                    k <= n,
                    n == buf@.len(),
                    forall|i: int| 0 <= i < k ==> #[trigger] buf@[i] == 0u8,
                decreases n - k,
            {
                buf[k] = 0;
                k = k + 1;
            }
            Ok(DevIo::Done(n))
        },
        Some(DevKind::Tty) => Ok(DevIo::Tty),
        Some(DevKind::Console) => Ok(DevIo::Tty),
        Some(DevKind::Serial) => Ok(DevIo::Serial),
    }
}

/// Writes `count` bytes to device `minor`: null and zero swallow them,
/// the others are the caller's; `ENODEV` when no device has that number.
pub fn write_device(t: &DeviceTable, minor: u32, count: usize) -> (r: Result<DevIo, VfsError>)
    ensures
        device_kind(*t, minor) is None ==> r == Err::<DevIo, VfsError>(ENODEV),
        device_kind(*t, minor) == Some(DevKind::Null) || device_kind(*t, minor) == Some(DevKind::Zero)
            ==> r == Ok::<DevIo, VfsError>(DevIo::Done(count)),
        device_kind(*t, minor) == Some(DevKind::Tty) ==> r == Ok::<DevIo, VfsError>(DevIo::Tty),
        device_kind(*t, minor) == Some(DevKind::Console) ==> r == Ok::<DevIo, VfsError>(DevIo::Console),
        device_kind(*t, minor) == Some(DevKind::Serial) ==> r == Ok::<DevIo, VfsError>(DevIo::Serial),
{
    match t.kind_of(minor) {
        None => Err(ENODEV),
        Some(DevKind::Null) => Ok(DevIo::Done(count)),
        Some(DevKind::Zero) => Ok(DevIo::Done(count)),
        Some(DevKind::Tty) => Ok(DevIo::Tty),
        Some(DevKind::Console) => Ok(DevIo::Console),
        Some(DevKind::Serial) => Ok(DevIo::Serial),
    }
}

} // verus!
