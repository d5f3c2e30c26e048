//! Linux and POSIX compatibility: process personalities, the futex table
//! behind `futex(2)`, and the evdev input queue.
use vstd::prelude::*;

pub mod syscall;
pub mod input;
pub mod procfs;

verus! {

/// The POSIX/Linux user ABI, the default for executed programs.
pub const PERSONALITY_POSIX: u32 = 0x0000;
/// The same value as `PERSONALITY_POSIX`, under its older name.
pub const PERSONALITY_LINUX: u32 = 0x0000;
pub const PERSONALITY_QUNIX: u32 = 0xFFFF;

/// Gives a process (its personality field) the POSIX ABI.
pub fn set_personality_posix(personality: &mut u32)
    ensures
        *final(personality) == PERSONALITY_POSIX,
{
    *personality = PERSONALITY_POSIX;
}

/// The same as `set_personality_posix`.
pub fn set_personality_linux(personality: &mut u32)
    ensures
        *final(personality) == PERSONALITY_POSIX,
{
    set_personality_posix(personality);
}

/// Gives a process the native ABI.
pub fn set_personality_qunix(personality: &mut u32)
    ensures
        *final(personality) == PERSONALITY_QUNIX,
{
    *personality = PERSONALITY_QUNIX;
}


/// `/proc/cpuinfo`.
pub const CPUINFO: &'static str = "processor\t: 0\nvendor_id\t: QunixCPU\ncpu family\t: 6\nmodel\t\t: 0\nmodel name\t: Qunix x86_64 CPU\nstepping\t: 0\ncpu MHz\t\t: 3000.000\ncache size\t: 8192 KB\nflags\t\t: fpu vme de pse tsc msr pae mce cx8 apic sep mtrr\nbogomips\t: 6000.00\n\n";

/// `/etc/os-release`.
pub const OS_RELEASE: &'static str = "NAME=\"Qunix\"\nVERSION=\"0.2.0\"\nID=qunix\nID_LIKE=linux\nPRETTY_NAME=\"Qunix 0.2.0\"\nVERSION_ID=\"0.2\"\nHOME_URL=\"https://qunix.dev\"\n";

/// A file of the virtual `/proc` and `/etc` entries that programs probe:
/// fixed text, or one whose text is rendered (see `procfs`) from the
/// kernel's state when it is read.
pub enum VirtualFile {
    Text(&'static str),
    MemInfo,
    SelfMaps,
    SelfStatus,
    SelfStat,
}

/// The virtual file at path `p`, if there is one.
pub open spec fn virtual_entry(p: Seq<char>) -> Option<VirtualFile> {
    if p == "/proc/sys/kernel/pid_max"@ {
        Some(VirtualFile::Text("4194304\n"))
    } else if p == "/proc/sys/kernel/hostname"@ {
        Some(VirtualFile::Text("qunix\n"))
    } else if p == "/proc/sys/kernel/ostype"@ {
        Some(VirtualFile::Text("Linux\n"))
    } else if p == "/proc/sys/kernel/osrelease"@ {
        Some(VirtualFile::Text("6.1.0-qunix\n"))
    } else if p == "/proc/sys/kernel/version"@ {
        Some(VirtualFile::Text("#1 SMP PREEMPT Qunix\n"))
    } else if p == "/proc/sys/kernel/ngroups_max"@ {
        Some(VirtualFile::Text("65536\n"))
    } else if p == "/proc/sys/vm/overcommit_memory"@ {
        Some(VirtualFile::Text("0\n"))
    } else if p == "/proc/sys/vm/max_map_count"@ {
        Some(VirtualFile::Text("65530\n"))
    } else if p == "/proc/cpuinfo"@ {
        Some(VirtualFile::Text(CPUINFO))
    } else if p == "/proc/meminfo"@ {
        Some(VirtualFile::MemInfo)
    } else if p == "/proc/self/maps"@ {
        Some(VirtualFile::SelfMaps)
    } else if p == "/proc/self/status"@ {
        Some(VirtualFile::SelfStatus)
    } else if p == "/proc/self/stat"@ {
        Some(VirtualFile::SelfStat)
    } else if p == "/proc/filesystems"@ {
        Some(VirtualFile::Text("nodev\ttmpfs\n\text2\n\tfat\n"))
    } else if p == "/etc/hostname"@ {
        Some(VirtualFile::Text("qunix\n"))
    } else if p == "/etc/os-release"@ {
        Some(VirtualFile::Text(OS_RELEASE))
    } else if p == "/etc/localtime"@ {
        Some(VirtualFile::Text("UTC\n"))
    } else {
        None
    }
}

/// The virtual file at `path` (see `virtual_entry`).
pub fn handle_virtual_fs_path(path: &str) -> (r: Option<VirtualFile>)
    ensures
        r == virtual_entry(path@),
{
    let p: String = path.to_owned();
    if p == "/proc/sys/kernel/pid_max".to_owned() {
        return Some(VirtualFile::Text("4194304\n"));
    }
    if p == "/proc/sys/kernel/hostname".to_owned() {
        return Some(VirtualFile::Text("qunix\n"));
    }
    if p == "/proc/sys/kernel/ostype".to_owned() {
        return Some(VirtualFile::Text("Linux\n"));
    }
    if p == "/proc/sys/kernel/osrelease".to_owned() {
        return Some(VirtualFile::Text("6.1.0-qunix\n"));
    }
    if p == "/proc/sys/kernel/version".to_owned() {
        return Some(VirtualFile::Text("#1 SMP PREEMPT Qunix\n"));
    }
    if p == "/proc/sys/kernel/ngroups_max".to_owned() {
        return Some(VirtualFile::Text("65536\n"));
    }
    if p == "/proc/sys/vm/overcommit_memory".to_owned() {
        return Some(VirtualFile::Text("0\n"));
    }
    if p == "/proc/sys/vm/max_map_count".to_owned() {
        return Some(VirtualFile::Text("65530\n"));
    }
    if p == "/proc/cpuinfo".to_owned() {
        return Some(VirtualFile::Text(CPUINFO));
    }
    if p == "/proc/meminfo".to_owned() {
        return Some(VirtualFile::MemInfo);
    }
    if p == "/proc/self/maps".to_owned() {
        return Some(VirtualFile::SelfMaps);
    }
    if p == "/proc/self/status".to_owned() {
        return Some(VirtualFile::SelfStatus);
    }
    if p == "/proc/self/stat".to_owned() {
        return Some(VirtualFile::SelfStat);
    }
    if p == "/proc/filesystems".to_owned() {
        return Some(VirtualFile::Text("nodev\ttmpfs\n\text2\n\tfat\n"));
    }
    if p == "/etc/hostname".to_owned() {
        return Some(VirtualFile::Text("qunix\n"));
    }
    if p == "/etc/os-release".to_owned() {
        return Some(VirtualFile::Text(OS_RELEASE));
    }
    if p == "/etc/localtime".to_owned() {
        return Some(VirtualFile::Text("UTC\n"));
    }
    None
}

/// What `readv`/`writev` do after one vector's transfer.
pub enum IovStep {
    /// Go on to the next vector with this running total.
    Next(i64),
    /// Return this value.
    Return(i64),
}

/// The step of `readv`/`writev` after the vector of `len` bytes: an empty
/// vector is passed over (nothing was transferred, `r` is not looked at);
/// an error `r` is returned when nothing was transferred before, else the
/// total so far; a short transfer ends the call with the new total; a full
/// one goes on.
pub fn iov_step(total: i64, len: u64, r: i64) -> (s: IovStep)
    requires
        0 <= total,
        len > 0 && r >= 0 ==> total + r <= i64::MAX,
    ensures
        s == if len == 0 {
            IovStep::Next(total)
        } else if r < 0 {
            IovStep::Return(if total == 0 { r } else { total })
        } else if (r as int) < len as int {
            IovStep::Return((total + r) as i64)
        } else {
            IovStep::Next((total + r) as i64)
        },
{
    if len == 0 {
        return IovStep::Next(total);
    }
    if r < 0 {
        return IovStep::Return(if total == 0 { r } else { total });
    }
    let t = total + r;
    if (r as u64) < len {
        IovStep::Return(t)
    } else {
        IovStep::Next(t)
    }
}

} // verus!
