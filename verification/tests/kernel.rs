use qunix::boot::kernel_image::plan_kernel_load;
use qunix::ipc::msgq::{MqTable, mq_open, mq_send, mq_receive, MqStep};
use qunix::abi_compat::syscall::{FutexTable, futex_wake, futex_requeue, futex_cleanup, sys_futex, FUTEX_WAIT, FUTEX_WAKE,
    FUTEX_CMP_REQUEUE, FUTEX_WAKE_OP, FUTEX_PRIVATE, EAGAIN, EFAULT, EINVAL};
use qunix::arch::idt::{IdtEntry, build_idt, IdtPointer, GATE_TRAP, GATE_INTERRUPT, GATE_DPL_USER};
use qunix::drivers::irq::{IrqTable, register, dispatch};
use qunix::drivers::keyboard::{KeyboardState, handle_scancode, ctrl_char, read_char};
use qunix::drivers::console::{Console, init as con_init, write_char, write_str as con_write_str};
use qunix::drivers::vga::{Vga, init as vga_init, write_byte, set_color};
use qunix::drivers::gpu::{pack_color, PixelFormat, Gpu, init as gpu_init, dimensions, draw_char};
use qunix::drivers::pcie::{PciDevice, pci_addr, pci_read_u16, pci_write_u16, pci_read_u8, classify_device, DeviceRole,
    PciRegistry, find_class};
use qunix::module::{ModuleRegistry, init as mod_init, load, unload, is_loaded, list};
use qunix::device::{DeviceTable, init as dev_init, read_device, write_device, DevIo};
use qunix::fs::journal::{Journal, MemDisk, Disk, crc32c, JBD2_MAGIC, RecoverAction};
use qunix::ipc::shm::{ShmTable, shm_open, shm_unlink, ftruncate_shm, mmap_shm, O_CREAT, O_EXCL};
use qunix::memory::phys::PhysAllocator;
use qunix::elf::{setup_stack, AT_NULL, AT_EXECFN};
use qunix::elf::{plan_segments, PT_LOAD, PT_PHDR, PT_TLS, PF_R, PF_X, PF_W};
use qunix::elf::{choose_load_bias, mmap_base_after, vector_pointers, find_interp, PT_INTERP, ET_DYN, ET_EXEC};
use qunix::ipc::epoll::{EpollTable, EpollEvent, epoll_create, epoll_ctl, epoll_wait, instance_of_ino, check_fd_ready,
    EPOLL_CTL_ADD, EPOLL_CTL_DEL, EPOLL_CTL_MOD, EPOLLIN, EPOLLOUT};
use qunix::io_uring::{IoUring, next_power_of_two, IORING_OFF_CQ_RING, IORING_OFF_SQES};
use qunix::drm::{ModeInfo, swap_rb, alpha_blend, fourcc_bpp, dumb_geometry, decimal, atomic_pending, apply_atomic,
    read_mode_info, Crtc, PROP_FB_ID, PROP_ACTIVE, PROP_MODE_ID};
use qunix::drivers::driver_host as dh;
use qunix::fs::ext4;
use qunix::drivers::nvme;
use std::collections::{BTreeMap, BTreeSet};

#[test]
fn futex_wake_takes_oldest_waiters() {
    let mut t = FutexTable::new();
    t.waiters = vec![(0x10, 1), (0x20, 2), (0x10, 3), (0x10, 4)];
    let w = futex_wake(&mut t, 0x10, 2);
    assert_eq!(w, vec![1, 3]);
    assert_eq!(t.waiters, vec![(0x20, 2), (0x10, 4)]);
}

#[test]
fn futex_requeue_moves_rest() {
    let mut t = FutexTable::new();
    t.waiters = vec![(0x10, 1), (0x10, 2), (0x30, 3), (0x10, 4)];
    let w = futex_requeue(&mut t, 0x10, 0x40, 1);
    assert_eq!(w, vec![1]);
    assert_eq!(t.waiters, vec![(0x40, 2), (0x30, 3), (0x40, 4)]);
    futex_cleanup(&mut t, 2);
    assert_eq!(t.waiters, vec![(0x30, 3), (0x40, 4)]);
}

#[test]
fn sys_futex_wait_and_errors() {
    let mut t = FutexTable::new();
    let r = sys_futex(&mut t, 7, 0, FUTEX_WAKE, 1, 0, (0, 0), 0, 0, 0, 0, 0);
    assert_eq!(r.ret, EFAULT);
    let r = sys_futex(&mut t, 7, 0x1000, FUTEX_WAIT | FUTEX_PRIVATE, 5, 0, (0, 0), 0, 0, 0, 4, 0);
    assert_eq!(r.ret, EAGAIN);
    assert!(t.waiters.is_empty());
    let r = sys_futex(&mut t, 7, 0x1000, FUTEX_WAIT, 5, 0x2000, (2, 500_000_000), 100, 0, 0, 5, 0);
    assert_eq!(r.block, Some(Some(100 + 2000 + 500)));
    assert_eq!(t.waiters, vec![(0x1000, 7)]);
    let r = sys_futex(&mut t, 8, 0x1000, FUTEX_WAKE, 10, 0, (0, 0), 0, 0, 0, 0, 0);
    assert_eq!((r.ret, r.wake.clone()), (1, vec![7]));
    let r = sys_futex(&mut t, 8, 0x1000, FUTEX_CMP_REQUEUE, 1, 0, (0, 0), 0, 0x2000, 3, 4, 0);
    assert_eq!(r.ret, EAGAIN);
    let r = sys_futex(&mut t, 8, 0x1000, 9, 1, 0, (0, 0), 0, 0, 0, 0, 0);
    assert_eq!(r.ret, EINVAL);
}

#[test]
fn sys_futex_wake_op_adds_and_wakes() {
    let mut t = FutexTable::new();
    t.waiters = vec![(0x2000, 1), (0x1000, 2)];
    // Op ADD 1; compare EQ 0; val2 (the timeout word) = 1.
    let val3: u32 = (1 << 28) | (0 << 24) | (1 << 12) | 0;
    let r = sys_futex(&mut t, 9, 0x1000, FUTEX_WAKE_OP, 1, 1, (0, 0), 0, 0x2000, val3, 0, 0);
    assert_eq!(r.store2, Some(1));
    assert_eq!(r.wake, vec![2, 1]);
    assert_eq!(r.ret, 2);
    assert!(t.waiters.is_empty());
    // OR with a shifted argument (1 << 3); comparison GT 5 fails on 0.
    t.waiters = vec![(0x2000, 3)];
    let val3: u32 = ((8 | 2) << 28) | (4 << 24) | (3 << 12) | 5;
    let r = sys_futex(&mut t, 9, 0x1000, FUTEX_WAKE_OP, 1, 1, (0, 0), 0, 0x2000, val3, 0, 0);
    assert_eq!(r.store2, Some(8));
    assert_eq!(r.ret, 0);
    assert_eq!(t.waiters, vec![(0x2000, 3)]);
    // An unknown operation is ENOSYS.
    let r = sys_futex(&mut t, 9, 0x1000, FUTEX_WAKE_OP, 1, 1, (0, 0), 0, 0x2000, 7 << 28, 0, 0);
    assert_eq!((r.ret, r.store2), (-38, None));
    // A bad second address is EFAULT.
    assert_eq!(sys_futex(&mut t, 9, 0x1000, FUTEX_WAKE_OP, 1, 1, (0, 0), 0, 0, 0, 0, 0).ret, EFAULT);
}

#[test]
fn idt_gate_holds_address() {
    let mut e = IdtEntry::missing();
    e.set_handler(0x1234_5678_9ABC_DEF0, 9);
    assert_eq!(e.offset_low, 0xDEF0);
    assert_eq!(e.offset_mid, 0x9ABC);
    assert_eq!(e.offset_high, 0x1234_5678);
    assert_eq!(e.ist, 1);
    e.set_trap_handler(0x10, 0);
    assert_eq!(e.type_attr, GATE_TRAP);
    let isr: Vec<u64> = (0..32).map(|i| 0x1000 + i).collect();
    let irq: Vec<u64> = (0..16).map(|i| 0x2000 + i).collect();
    let t = build_idt(&isr, &irq, 0x3000);
    assert_eq!(t.len(), 256);
    assert_eq!(t[8].ist, 1);
    assert_eq!(t[33].offset_low, 0x2001);
    assert_eq!(t[33].type_attr, GATE_INTERRUPT);
    assert_eq!(t[0x80].type_attr, GATE_TRAP | GATE_DPL_USER);
    assert_eq!(t[0x81].type_attr, 0);
    assert_eq!(IdtPointer::new(0x5000).limit, 4095);
}

#[test]
fn irq_and_keyboard() {
    let mut t = IrqTable::new();
    assert_eq!(dispatch(&t, 1), None);
    register(&mut t, 1, 42);
    register(&mut t, 99, 7);
    assert_eq!(dispatch(&t, 1), Some(42));
    assert_eq!(dispatch(&t, 99), None);
    let mut k = KeyboardState::new();
    assert_eq!(handle_scancode(&mut k, 0x1E), Some(b'a'));
    assert_eq!(handle_scancode(&mut k, 0x2A), None);
    assert_eq!(handle_scancode(&mut k, 0x1E), Some(b'A'));
    assert_eq!(handle_scancode(&mut k, 0xAA), None);
    assert_eq!(handle_scancode(&mut k, 0x1D), None);
    assert_eq!(handle_scancode(&mut k, 0x2E), Some(3));
    assert_eq!(handle_scancode(&mut k, 0x9D), None);
    assert_eq!(handle_scancode(&mut k, 0x9E), None);
    assert_eq!(ctrl_char(b'['), 0x1B);
    assert_eq!(ctrl_char(b'1'), 0);
    assert_eq!(read_char(), None);
}

#[test]
fn console_cursor_and_colours() {
    let mut c = Console::new();
    assert!(write_char(&mut c, b'x').draw.is_none());
    con_init(&mut c, 16, 32);
    let o = write_char(&mut c, b'A');
    let d = o.draw.unwrap();
    assert_eq!((d.x, d.y, d.ch), (0, 0, b'A'));
    assert_eq!(c.col, 1);
    let o = write_char(&mut c, b'B');
    assert_eq!(o.draw.unwrap().x, 8);
    assert_eq!((c.col, c.row), (0, 1));
    let o = write_char(&mut c, b'\n');
    assert!(o.scroll);
    assert_eq!(c.row, 1);
    let outs = con_write_str(&mut c, "\x1b[31;1m");
    assert_eq!(outs.len(), 7);
    assert_eq!(c.fg, 0xCC0000 | 0x808080);
    con_write_str(&mut c, "\x1b[m");
    assert_eq!((c.fg, c.bg), (0xCCCCCC, 0));
}

#[test]
fn vga_wraps_and_scrolls() {
    let mut v = Vga::new();
    assert_eq!(write_byte(&mut v, b'a'), None);
    vga_init(&mut v);
    set_color(&mut v, 0x2, 0x1);
    assert_eq!(v.color, 0x12);
    assert_eq!(write_byte(&mut v, b'a'), Some(1));
    assert_eq!(v.cells[0], b'a' as u16 | 0x1200);
    write_byte(&mut v, 8);
    assert_eq!(v.cells[0], b' ' as u16 | 0x1200);
    for _ in 0..25 {
        write_byte(&mut v, b'\n');
    }
    assert_eq!(v.row, 24);
}

#[test]
fn gpu_geometry_and_glyphs() {
    assert_eq!(pack_color(0x112233, PixelFormat::Bgr32), 0x332211);
    assert_eq!(pack_color(0x112233, PixelFormat::Rgb32), 0x112233);
    let mut g = Gpu::new();
    gpu_init(&mut g, 0, 800, 600, 3200, 1, 0);
    assert_eq!(dimensions(&g), (0, 0));
    gpu_init(&mut g, 0x8000_0000, 800, 600, 3200, 1, 0xFFFF_8000_8000_0000);
    assert_eq!(dimensions(&g), (800, 600));
    assert_eq!(qunix::drivers::gpu::format(&g), 1);
    let mut font = vec![0u8; 95 * 16];
    font[(b'A' - 0x20) as usize * 16] = 0x80;
    let px = draw_char(&font, 10, 20, b'A', 1, 2);
    assert_eq!(px.len(), 128);
    assert_eq!(px[0], (10, 20, 1));
    assert_eq!(px[1], (11, 20, 2));
}

#[test]
fn pci_config_fields() {
    assert_eq!(pci_addr(1, 2, 3, 0x13), 0x8000_0000 | (1 << 16) | (2 << 11) | (3 << 8) | 0x10);
    assert_eq!(pci_read_u16(0xAABB_CCDD, 2), 0xAABB);
    assert_eq!(pci_read_u16(0xAABB_CCDD, 0), 0xCCDD);
    assert_eq!(pci_write_u16(0xAABB_CCDD, 2, 0x1122), 0x1122_CCDD);
    assert_eq!(pci_read_u8(0xAABB_CCDD, 1), 0xCC);
    let mut d = PciDevice {
        bus: 0, device: 1, function: 0, vendor_id: 0x8086, device_id: 0x1234, class: 0x01, subclass: 0x08,
        prog_if: 0x02, revision: 0, header: 0, bars: [0xFEB0_0004, 0x1, 0, 0, 0xC001, 0], irq_line: 0, irq_pin: 0,
        subsystem_vendor: 0, subsystem_id: 0, capabilities_ptr: 0,
    };
    assert_eq!(d.bar_addr(0), 0x1_FEB0_0000);
    assert_eq!(d.bar_addr(4), 0xC000);
    assert!(d.is_io_bar(4));
    assert!(d.is_mmio_bar(0));
    assert!(classify_device(&d) == DeviceRole::Nvme(0x1_FEB0_0000));
    d.bars[0] = 0;
    d.bars[1] = 0;
    assert!(classify_device(&d) == DeviceRole::Other);
    let reg = PciRegistry { devices: vec![d], ecam_base: 0 };
    assert_eq!(find_class(&reg, 1, 8).len(), 1);
    assert_eq!(find_class(&reg, 2, 0).len(), 0);
}

#[test]
fn modules_load_unload() {
    let mut reg = ModuleRegistry::new();
    mod_init(&mut reg);
    assert_eq!(list(&reg).len(), 8);
    assert_eq!(load(&mut reg, "nope", |_| Ok(())), Err("not found"));
    assert_eq!(load(&mut reg, "ext4", |_| Err("boom")), Err("boom"));
    assert!(!is_loaded(&reg, "ext4"));
    assert_eq!(load(&mut reg, "ext4", |_| Ok(())), Ok(()));
    assert!(is_loaded(&reg, "ext4"));
    assert_eq!(load(&mut reg, "ext4", |_| Ok(())), Err("already loaded"));
    assert_eq!(unload(&mut reg, "ext4", |_| {}), Ok(()));
    assert_eq!(unload(&mut reg, "ext4", |_| {}), Err("not loaded"));
}

#[test]
fn char_devices() {
    let mut t = DeviceTable::new();
    dev_init(&mut t);
    let mut buf = [7u8; 4];
    assert!(read_device(&t, 1, &mut buf) == Ok(DevIo::Done(4)));
    assert_eq!(buf, [0; 4]);
    assert!(read_device(&t, 0, &mut buf) == Ok(DevIo::Done(0)));
    assert!(read_device(&t, 9, &mut buf) == Err(19));
    assert!(write_device(&t, 0, 10) == Ok(DevIo::Done(10)));
    assert!(write_device(&t, 3, 10) == Ok(DevIo::Console));
}

fn journal(disk: MemDisk) -> Journal<MemDisk> {
    Journal { disk, journal_start: 1, journal_len: 8, block_size: 1024, next_seq: 5, head: 0, tail_seq: 5,
        current: None, checkpoints: BTreeMap::new() }
}

#[test]
fn journal_commit_logs_blocks() {
    let mut j = journal(MemDisk::new(vec![0u8; 1024 * 16]));
    assert!(!j.in_transaction());
    assert_eq!(j.commit(), Ok(()));
    j.begin();
    assert!(j.in_transaction());
    j.write(12, vec![0xAB; 10]);
    j.revoke(3);
    j.revoke(3);
    assert_eq!(j.current.as_ref().unwrap().revoked, vec![3]);
    assert_eq!(j.commit(), Ok(()));
    assert!(!j.in_transaction());
    // Descriptor, data, revoke and commit blocks: the head moves by four.
    assert_eq!(j.head, 4);
    assert_eq!(j.tail_seq, 6);
    let mut hdr = [0u8; 12];
    j.disk.read_bytes(2 * 1024, &mut hdr).unwrap();
    assert_eq!(&hdr[..4], &JBD2_MAGIC.to_be_bytes());
    assert_eq!(&hdr[4..8], &1u32.to_be_bytes());
    let mut data = [0u8; 10];
    j.disk.read_bytes(3 * 1024, &mut data).unwrap();
    assert_eq!(data, [0xAB; 10]);
    assert_eq!(j.disk.size_bytes(), 16 * 1024);
}

#[test]
fn journal_commit_fails_on_short_disk() {
    let mut j = journal(MemDisk::new(vec![0u8; 1024 * 2]));
    j.begin();
    j.write(1, vec![1; 4]);
    assert_eq!(j.commit(), Err("JBD2: journal write failed"));
    assert_eq!(j.head, 0);
    assert!(!j.in_transaction());
}

#[test]
fn crc32c_is_deterministic() {
    assert_eq!(crc32c(0, b"123456789"), 0xE306_9283);
    assert_eq!(crc32c(0xFFFF_FFFF, b""), 0xFFFF_FFFF);
    assert_eq!(crc32c(0, b"abc"), crc32c(0, b"abc"));
}

#[test]
fn descriptor_tags_read_back() {
    let j = journal(MemDisk::new(vec![0u8; 1024]));
    let keys = [7u64, 0x1_2345_6789, 42];
    let b = qunix::fs::journal::build_descriptor(9, &keys, &[false, false, false], 1024);
    let tags = j.parse_descriptor(&b);
    assert_eq!(tags, vec![(7, 0, 0), (0x1_2345_6789, 2, 0), (42, 10, 0)]);
    // A tag without the last-tag flag and no room for another ends the list.
    let mut short = vec![0u8; 24];
    short[12 + 3] = 5;
    assert_eq!(j.parse_descriptor(&short), vec![(5, 0, 0)]);
}

#[test]
fn shm_open_unlink_and_truncate() {
    let mut t = ShmTable::new();
    let mut pa = PhysAllocator::new();
    assert_eq!(shm_open(&mut t, "a", 0, 0o600), -2);
    assert_eq!(shm_open(&mut t, "a", O_CREAT, 0o600), 0);
    assert_eq!(shm_open(&mut t, "a", O_CREAT | O_EXCL, 0o600), -17);
    assert_eq!(shm_open(&mut t, "a", O_CREAT, 0o600), 0);
    assert_eq!(ftruncate_shm(&mut t, "b", 10, &mut pa, 0).0, -9);
    // An empty allocator cannot back the pages.
    assert_eq!(ftruncate_shm(&mut t, "a", 5000, &mut pa, 0).0, -12);
    assert_eq!(ftruncate_shm(&mut t, "a", 0, &mut pa, 0), (0, vec![]));
    assert_eq!(mmap_shm(&t, "a", 0, 4096), Some(vec![]));
    assert_eq!(mmap_shm(&t, "b", 0, 4096), None);
    qunix::memory::phys::free_frame(&mut pa, 0, 0x5000);
    qunix::memory::phys::free_frame(&mut pa, 0, 0x9000);
    assert_eq!(ftruncate_shm(&mut t, "a", 5000, &mut pa, 0).0, 0);
    let m = mmap_shm(&t, "a", 4096, 8192).unwrap();
    assert_eq!(m.len(), 1);
    assert_eq!(m[0].0, 0);
    let (st, released) = ftruncate_shm(&mut t, "a", 100, &mut pa, 0);
    assert_eq!(st, 0);
    assert_eq!(released, vec![m[0].1]);
    assert_eq!(shm_unlink(&mut t, "a"), 0);
    assert_eq!(shm_unlink(&mut t, "a"), -2);
}

#[test]
fn initial_stack_layout() {
    let img = setup_stack(0x8000, &[b"a".to_vec()], &[], 0x401000, 0x400040, 56, 3, 0, 0);
    assert_eq!(img.sp, 0x7E78);
    assert_eq!(img.sp % 16, 8);
    assert_eq!(img.bytes[0], (0x7FFE, b"a\0".to_vec()));
    assert_eq!(img.bytes[1], (0x7FF0, b"x86_64".to_vec()));
    assert_eq!(img.bytes[2], (0x7FDE, b"a\0".to_vec()));
    assert_eq!(img.words[0], (0x7FE0, 0xDEAD_BEEF_0102_0304));
    // The first auxiliary pair pushed is AT_EXECFN at the top of the vector.
    assert_eq!(img.words[2], (0x7FC8, 0x7FFE));
    assert_eq!(img.words[3], (0x7FC0, AT_EXECFN));
    assert_eq!(img.words[39], (0x7EA0, AT_NULL));
    // Padding, the environment NULL, the argument NULL, argv[0], argc.
    assert_eq!(&img.words[40..], &[(0x7E98, 0), (0x7E90, 0), (0x7E88, 0), (0x7E80, 0x7FDE), (0x7E78, 1)]);
    // Without arguments the program is named "/init".
    let img = setup_stack(0x8000, &[], &[b"X=1".to_vec()], 0, 0, 0, 0, 0, 0);
    assert_eq!(img.bytes[0], (0x7FFA, b"/init\0".to_vec()));
    assert_eq!(img.sp % 16, 8);
}

fn ph(p_type: u32, p_flags: u32, off: u64, vaddr: u64, filesz: u64, memsz: u64) -> qunix::elf::PhSegment {
    qunix::elf::PhSegment { p_type, p_flags, p_offset: off, p_vaddr: vaddr, p_paddr: 0, p_filesz: filesz,
        p_memsz: memsz, p_align: 0x1000 }
}

#[test]
fn segment_plan_places_loads() {
    let phs = vec![ph(PT_PHDR, PF_R, 64, 0x40, 0x70, 0x70), ph(PT_LOAD, PF_R | PF_X, 0, 0x1010, 0x100, 0x2000),
        ph(PT_TLS, PF_R, 0x200, 0x3000, 8, 16), ph(PT_LOAD, PF_R | PF_W, 0x300, 0x5000, 0, 0)];
    let p = plan_segments(&phs, 0x4000_0000_0000, 0x1010, 0x1000).unwrap();
    assert_eq!(p.entry, 0x4000_0000_1010);
    assert_eq!(p.phdr_user, 0x4000_0000_0040);
    assert_eq!(p.tls_addr, 0x4000_0000_3000);
    assert_eq!((p.tls_filesz, p.tls_memsz), (8, 16));
    assert_eq!(p.segments.len(), 1);
    let s = &p.segments[0];
    assert_eq!((s.vaddr_page, s.page_offset, s.num_pages), (0x4000_0000_1000, 0x10, 3));
    assert_eq!(p.max_load_end, 0x4000_0000_4000);
    // File bytes past the image, or a segment past user space, are refused.
    assert_eq!(plan_segments(&phs, 0, 0, 0x80).err(), Some(22));
    let far = vec![ph(PT_LOAD, PF_R, 0, 0x7FFF_FFFF_F000, 0, 0x2000)];
    assert_eq!(plan_segments(&far, 0, 0, 0).err(), Some(22));
}

#[test]
fn exec_decisions() {
    assert_eq!(choose_load_bias(ET_DYN, false), 0x4000_0000_0000);
    assert_eq!(choose_load_bias(ET_DYN, true), 0x5000_0000_0000);
    assert_eq!(choose_load_bias(ET_EXEC, true), 0);
    assert_eq!(mmap_base_after(0x1234), 0x4000_0000_0000);
    assert_eq!(mmap_base_after(0x4000_0000_0001), 0x4000_0000_2000);
    assert_eq!(vector_pointers(0x7E78, 1), (0x7E80, 0x7E90));
    let phs = vec![ph(PT_INTERP, 0, 0, 0, 1, 1), ph(PT_LOAD, 0, 0, 0, 0, 0), ph(PT_INTERP, 0, 0x100, 0, 28, 28)];
    assert_eq!(find_interp(&phs), Some(2));
}

#[test]
fn epoll_watch_and_poll() {
    let mut t = EpollTable::new();
    let ep = epoll_create(&mut t);
    assert_eq!(ep, 200);
    assert_eq!(instance_of_ino(Some(0xE000_0000 + 200)), Some(200));
    assert_eq!(instance_of_ino(Some(5)), None);
    let ev = |events: u32, data: u64| EpollEvent { events, data };
    assert_eq!(epoll_ctl(&mut t, None, EPOLL_CTL_ADD, 3, ev(EPOLLIN, 1)), -9);
    assert_eq!(epoll_ctl(&mut t, Some(999), EPOLL_CTL_ADD, 3, ev(EPOLLIN, 1)), -9);
    assert_eq!(epoll_ctl(&mut t, Some(ep), EPOLL_CTL_ADD, 7, ev(EPOLLIN, 70)), 0);
    assert_eq!(epoll_ctl(&mut t, Some(ep), EPOLL_CTL_ADD, 3, ev(EPOLLIN | EPOLLOUT, 30)), 0);
    assert_eq!(epoll_ctl(&mut t, Some(ep), EPOLL_CTL_ADD, 5, ev(0, 50)), 0);
    assert_eq!(epoll_ctl(&mut t, Some(ep), EPOLL_CTL_MOD, 9, ev(EPOLLIN, 90)), -2);
    assert_eq!(epoll_ctl(&mut t, Some(ep), 42, 9, ev(EPOLLIN, 90)), -22);
    let mut has = BTreeSet::new();
    has.insert(7);
    let got = epoll_wait(&t, Some(ep), 10, &has).unwrap();
    // Descriptor order: 3 is writable only, 5 asks for nothing, 7 has data.
    let got: Vec<(u32, u64)> = got.iter().map(|e| (e.events, e.data)).collect();
    assert_eq!(got, vec![(EPOLLOUT, 30), (EPOLLIN, 70)]);
    assert_eq!(epoll_wait(&t, Some(ep), 1, &has).unwrap().len(), 1);
    assert_eq!(epoll_wait(&t, Some(ep), 0, &has).unwrap().len(), 0);
    assert_eq!(epoll_ctl(&mut t, Some(ep), EPOLL_CTL_DEL, 3, ev(0, 0)), 0);
    assert_eq!(epoll_wait(&t, Some(ep), 10, &has).unwrap().len(), 1);
    assert!(epoll_wait(&t, None, 10, &has).is_err());
    assert_eq!(check_fd_ready(false, EPOLLIN), 0);
}

#[test]
fn io_uring_geometry() {
    assert_eq!(next_power_of_two(0), 1);
    assert_eq!(next_power_of_two(5), 8);
    assert_eq!(next_power_of_two(64), 64);
    let mut pa = PhysAllocator::new();
    assert!(IoUring::new(3, 1, 4, 4, 0, &mut pa, 0).is_none());
}

#[test]
fn drm_mode_from_resolution() {
    let m = ModeInfo::from_resolution(1024, 768, 60);
    assert_eq!(m.clock, 47186);
    assert_eq!((m.hdisplay, m.hsync_start, m.hsync_end, m.htotal), (1024, 1152, 1160, 1280));
    assert_eq!((m.vdisplay, m.vsync_start, m.vsync_end, m.vtotal), (768, 771, 776, 796));
    assert_eq!((m.vrefresh, m.flags, m.mode_type), (60, 0xA, 0x48));
    assert_eq!(&m.name[..9], b"1024x768\0");
    assert_eq!(decimal(0), b"0".to_vec());
    assert_eq!(decimal(4294967295), b"4294967295".to_vec());
}

#[test]
fn drm_pixels_and_buffers() {
    assert_eq!(swap_rb(0x11223344), 0x11443322);
    assert_eq!(alpha_blend(0x000000, 0xFF0000, 255), 0xFF0000);
    assert_eq!(alpha_blend(0x123456, 0xFF0000, 0), 0x123456);
    assert_eq!(alpha_blend(0x000000, 0xFF00FF, 128), 0x800080);
    assert_eq!(fourcc_bpp(0x36313252), 16);
    assert_eq!(fourcc_bpp(0x34325258), 32);
    assert_eq!(dumb_geometry(100, 10, 32), (448, 8192));
    assert_eq!(dumb_geometry(16, 1, 32), (64, 4096));
}

#[test]
fn drm_atomic_commit() {
    let objs = [1u32, 2];
    let cnts = [2u32, 1];
    let props = [PROP_FB_ID, PROP_ACTIVE, PROP_MODE_ID];
    let vals = [7u64, 1, 9];
    let p = atomic_pending(&objs, &cnts, &props, &vals);
    assert_eq!((p.fb, p.active, p.mode_blob), (Some(7), true, Some(9)));
    let mut blob = vec![0u8; 68];
    blob[0] = 0x10;
    blob[4] = 0x80;
    blob[5] = 0x02;
    let mut blobs = BTreeMap::new();
    blobs.insert(9u32, blob.clone());
    let mut crtc = Crtc { id: 1, fb_id: 0, x: 0, y: 0, mode: read_mode_info(&blob), mode_valid: false, active: false,
        mode_blob: 0, cursor_fb: None, cursor_x: 0, cursor_y: 0 };
    crtc.mode.clock = 1;
    assert!(apply_atomic(&mut crtc, &blobs, &p));
    assert_eq!((crtc.fb_id, crtc.active, crtc.mode_valid), (7, true, true));
    assert_eq!((crtc.mode.clock, crtc.mode.hdisplay), (0x10, 640));
}

#[test]
fn input_queue_and_personality() {
    let mut q = qunix::abi_compat::input::InputQueue::new();
    qunix::abi_compat::input::push_key_event(&mut q, 2500, 30, 1);
    assert_eq!(q.events.len(), 2);
    assert!(qunix::abi_compat::input::read_event(&mut q, 8).is_none());
    let e = qunix::abi_compat::input::read_event(&mut q, 24).unwrap();
    assert_eq!((e.tv_sec, e.tv_usec, e.ev_type, e.code, e.value), (2, 500000, 1, 30, 1));
    let s = qunix::abi_compat::input::read_event(&mut q, 24).unwrap();
    assert_eq!((s.ev_type, s.code, s.value), (0, 0, 0));
    assert!(qunix::abi_compat::input::read_event(&mut q, 24).is_none());
    let mut p = 7u32;
    qunix::abi_compat::set_personality_qunix(&mut p);
    assert_eq!(p, 0xFFFF);
    qunix::abi_compat::set_personality_linux(&mut p);
    assert_eq!(p, 0);
}

#[test]
fn driver_registry_ids_and_lookup() {
    let mut reg: dh::DriverRegistry<&'static str, u8> = dh::DriverRegistry::new();
    assert_eq!(dh::register_block(&mut reg, "nvme0".to_string(), "disk-a"), 0);
    assert_eq!(dh::register_block(&mut reg, "ata0".to_string(), "disk-b"), 1);
    assert_eq!(dh::register_net(&mut reg, "eth".to_string(), 7), 0);
    assert_eq!(dh::get_block(&reg, 1), Some(&"disk-b"));
    assert_eq!(dh::get_block(&reg, 2), None);
    assert_eq!(dh::get_net(&reg, 0), Some(&7));
    assert_eq!((dh::block_device_count(&reg), dh::net_device_count(&reg)), (2, 1));
    assert!(matches!(dh::block_target(&reg, 5), Err(dh::DriverError::IoError(19))));
    assert!(matches!(dh::net_target(&reg, 0), Ok(&7)));
}

fn put32(b: &mut [u8], off: usize, v: u32) {
    b[off..off + 4].copy_from_slice(&v.to_le_bytes());
}

#[test]
fn ext4_extent_steps() {
    let mut leaf = vec![0u8; 24];
    leaf[0] = 0x0A;
    leaf[1] = 0xF3;
    leaf[2] = 1;
    put32(&mut leaf, 12, 100);
    leaf[16] = 10;
    put32(&mut leaf, 20, 5000);
    assert!(matches!(ext4::extent_step(&leaf, 105), Ok(ext4::ExtentStep::Found(Some(5005)))));
    assert!(matches!(ext4::extent_step(&leaf, 110), Ok(ext4::ExtentStep::Found(None))));
    let mut node = vec![0u8; 36];
    node[0] = 0x0A;
    node[1] = 0xF3;
    node[2] = 2;
    node[6] = 1;
    put32(&mut node, 12, 0);
    put32(&mut node, 16, 7);
    put32(&mut node, 24, 50);
    put32(&mut node, 28, 9);
    assert!(matches!(ext4::extent_step(&node, 60), Ok(ext4::ExtentStep::Descend(9))));
    assert!(matches!(ext4::extent_step(&node, 10), Ok(ext4::ExtentStep::Descend(7))));
    node[0] = 0;
    assert!(matches!(ext4::extent_step(&node, 10), Err(5)));
    assert!(matches!(ext4::inode_position(0, 8192), Err(22)));
    assert!(matches!(ext4::inode_position(8193, 8192), Ok((1, 0))));
    assert_eq!(ext4::inode_offset(10, 4096, 3, 256), 41728);
    let e = ext4::Ext4Extent { ee_block: 0, ee_len: 0x8005, ee_start_hi: 1, ee_start_lo: 2 };
    assert_eq!((e.length(), e.is_unwritten(), e.start_block()), (5, true, 0x1_0000_0002));
}

#[test]
fn nvme_queue_bookkeeping() {
    let mut q = nvme::QueueState::new(1, 4);
    assert_eq!((q.sq_doorbell_offset(), q.cq_doorbell_offset()), (0x1008, 0x100C));
    let mut cmd = nvme::SqEntry::new(0x02, 0, 1);
    cmd.set_lba(0x1_0000_0005, 8);
    assert_eq!((cmd.cdw10, cmd.cdw11, cmd.cdw12), (5, 1, 7));
    let (cid, slot, c) = q.submit(cmd);
    assert_eq!((cid, slot, c.cdw0), (1, 0, 0x0001_0002));
    assert_eq!((q.sq_tail, q.next_cid), (1, 2));
    let mut cqe = nvme::CqEntry { dw0: 0, dw1: 0, sq_hd: 0, sq_id: 1, cid: 1, phase_status: 0 };
    assert!(matches!(q.complete(cqe, 1), nvme::Completion::Pending));
    cqe.phase_status = 1 | (2 << 1);
    assert!(!cqe.is_success());
    assert!(matches!(q.complete(cqe, 1), nvme::Completion::Done(2)));
    assert_eq!(q.cq_head, 1);
    q.next_cid = u16::MAX;
    assert_eq!(q.alloc_cid(), u16::MAX);
    assert_eq!(q.next_cid, 1);
    let mut lbaf = [[0u8; 4]; 16];
    lbaf[1][1] = 12;
    assert_eq!(nvme::lba_size(0x11, &lbaf), 4096);
}

#[test]
fn journal_recovery_steps() {
    let j = journal(MemDisk::new(vec![0u8; 1024 * 16]));
    let desc = qunix::fs::journal::build_descriptor(5, &[12, 40], &[false, true], 1024);
    match j.recover_step(7, 5, &desc) {
        RecoverAction::Replay { copies, next } => {
            assert_eq!(copies, vec![(2048, 12, false), (3072, 40, true)]);
            assert_eq!(next, 2);
        },
        _ => panic!("a descriptor replays"),
    }
    let commit = qunix::fs::journal::build_commit(5, 1024);
    assert!(matches!(j.recover_step(3, 5, &commit), RecoverAction::Advance { next: 4, tail_seq: 6 }));
    assert!(matches!(j.recover_step(3, 9, &commit), RecoverAction::Advance { next: 4, tail_seq: 9 }));
    assert!(matches!(j.recover_step(3, 5, &vec![0u8; 1024]), RecoverAction::Stop));
}

#[test]
fn madt_cpus_and_ioapic() {
    let mut t = vec![0u8; 44];
    put32(&mut t, 36, 0xFEE0_0000);
    t.extend_from_slice(&[0, 8, 0, 5, 1, 0, 0, 0]);
    t.extend_from_slice(&[0, 8, 1, 7, 0, 0, 0, 0]);
    t.extend_from_slice(&[1, 12, 0, 0, 0, 0, 0xC0, 0xFE, 0, 0, 0, 0]);
    t.extend_from_slice(&[0, 8, 2, 9, 1, 0, 0, 0]);
    t.extend_from_slice(&[0, 1]);
    let mut info = qunix::drivers::acpi::AcpiInfo { lapic_addr: 0, ioapic_addr: 0x1234, cpu_count: 0, apic_ids: [0xAA; 32],
        hpet_addr: 0, pm_timer_blk: 0 };
    qunix::drivers::acpi::parse_madt(&mut info, &t);
    assert_eq!(info.lapic_addr, 0xFEE0_0000);
    assert_eq!(info.ioapic_addr, 0xFEC0_0000);
    assert_eq!(info.cpu_count, 2);
    assert_eq!(&info.apic_ids[..3], &[5, 9, 0xAA]);
    let mut empty = qunix::drivers::acpi::AcpiInfo { lapic_addr: 0, ioapic_addr: 7, cpu_count: 0, apic_ids: [0; 32],
        hpet_addr: 0, pm_timer_blk: 0 };
    qunix::drivers::acpi::parse_madt(&mut empty, &t[..44]);
    assert_eq!((empty.cpu_count, empty.ioapic_addr), (1, 7));
}

#[test]
fn mq_delivers_highest_priority_first() {
    let mut t = MqTable::new();
    assert_eq!(mq_open(&mut t, "q", 0o100, 0o600, 0, 0), 0);
    assert!(matches!(mq_send(&mut t, "q", b"low", 1, 9), MqStep::Done(0, None)));
    assert!(matches!(mq_send(&mut t, "q", b"high", 5, 9), MqStep::Done(0, None)));
    assert!(matches!(mq_send(&mut t, "q", b"high2", 5, 9), MqStep::Done(0, None)));
    let mut buf = [0u8; 8];
    assert!(matches!(mq_receive(&mut t, "q", &mut buf, 9), MqStep::Done(4, None)));
    assert_eq!(&buf[..4], b"high");
    assert!(matches!(mq_receive(&mut t, "q", &mut buf, 9), MqStep::Done(5, None)));
    assert_eq!(&buf[..5], b"high2");
    assert!(matches!(mq_receive(&mut t, "q", &mut buf, 9), MqStep::Done(3, None)));
    assert_eq!(&buf[..3], b"low");
    assert!(matches!(mq_receive(&mut t, "q", &mut buf, 9), MqStep::Block));
}

#[test]
fn journal_commit_escapes_and_checkpoints() {
    let mut j = journal(MemDisk::new(vec![0u8; 1024 * 16]));
    j.begin();
    let mut img = JBD2_MAGIC.to_be_bytes().to_vec();
    img.extend_from_slice(&[1, 2, 3]);
    j.write(12, img.clone());
    assert_eq!(j.commit(), Ok(()));
    // The descriptor's only tag carries the last-tag and escape flags.
    let mut desc = vec![0u8; 1024];
    j.disk.read_bytes(2 * 1024, &mut desc).unwrap();
    assert_eq!(j.parse_descriptor(&desc), vec![(12, 9, 0)]);
    // The logged copy has the magic zeroed.
    let mut logged = [0u8; 7];
    j.disk.read_bytes(3 * 1024, &mut logged).unwrap();
    assert_eq!(logged, [0, 0, 0, 0, 1, 2, 3]);
    // The checkpoint put the block in place with its magic back.
    let mut placed = [0u8; 7];
    j.disk.read_bytes(12 * 1024, &mut placed).unwrap();
    assert_eq!(&placed[..], &img[..]);
    assert!(j.checkpoints.is_empty());
    assert_eq!(j.tail_seq, 6);
}

#[test]
fn journal_commit_failure_keeps_state() {
    let mut j = journal(MemDisk::new(vec![0u8; 1024 * 3]));
    j.begin();
    j.write(1, vec![1; 4]);
    j.write(2, vec![2; 4]);
    assert_eq!(j.commit(), Err("JBD2: journal write failed"));
    assert_eq!((j.head, j.tail_seq, j.next_seq), (0, 5, 6));
    assert!(j.checkpoints.is_empty());
}

#[test]
fn journal_sync_commits() {
    let mut j = journal(MemDisk::new(vec![0u8; 1024 * 16]));
    j.begin();
    j.write(11, vec![9; 16]);
    j.sync();
    assert!(!j.in_transaction());
    assert_eq!(j.head, 3);
    let mut placed = [0u8; 16];
    j.disk.read_bytes(11 * 1024, &mut placed).unwrap();
    assert_eq!(placed, [9; 16]);
}

#[test]
fn journal_recover_replays_logged_blocks() {
    let mut j = journal(MemDisk::new(vec![0u8; 1024 * 16]));
    let desc = qunix::fs::journal::build_descriptor(5, &[12, 13], &[true, false], 1024);
    let mut first = vec![0u8; 1024];
    first[4] = 7;
    let second = vec![5u8; 1024];
    let commit = qunix::fs::journal::build_commit(5, 1024);
    j.disk.write_bytes(2 * 1024, &desc).unwrap();
    j.disk.write_bytes(3 * 1024, &first).unwrap();
    j.disk.write_bytes(4 * 1024, &second).unwrap();
    j.disk.write_bytes(5 * 1024, &commit).unwrap();
    assert_eq!(j.recover(), 2);
    assert_eq!(j.tail_seq, 6);
    let mut b12 = [0u8; 5];
    j.disk.read_bytes(12 * 1024, &mut b12).unwrap();
    let m = JBD2_MAGIC.to_be_bytes();
    assert_eq!(b12, [m[0], m[1], m[2], m[3], 7]);
    let mut b13 = [0u8; 3];
    j.disk.read_bytes(13 * 1024, &mut b13).unwrap();
    assert_eq!(b13, [5; 3]);
    // An empty log replays nothing.
    let mut clean = journal(MemDisk::new(vec![0u8; 1024 * 16]));
    assert_eq!(clean.recover(), 0);
    assert_eq!(clean.tail_seq, 5);
}

#[test]
fn console_plain_bytes_leave_escape_mode() {
    let mut c = Console::new();
    con_init(&mut c, 640, 480);
    write_char(&mut c, b'A');
    assert_eq!(c.esc_state, 0);
    let o = write_char(&mut c, b'B');
    assert!(o.draw.is_some());
    con_write_str(&mut c, "\x1b[31m");
    assert_eq!(c.esc_state, 0);
    assert_eq!(c.fg, 0xCC0000);
    let o = write_char(&mut c, b'C');
    assert_eq!(o.draw.unwrap().fg, 0xCC0000);
    write_char(&mut c, 0x1B);
    assert_eq!(c.esc_state, 1);
    write_char(&mut c, b'x');
    assert_eq!(c.esc_state, 0);
}

#[test]
fn journal_recover_after_lost_checkpoint() {
    let mut j = journal(MemDisk::new(vec![0u8; 1024 * 16]));
    j.begin();
    j.write(12, vec![3; 20]);
    j.write(14, vec![4; 20]);
    j.revoke(9);
    assert_eq!(j.commit(), Ok(()));
    // Lose the checkpointed copies and the superblock update, as a crash
    // right after the log writes would.
    j.disk.write_bytes(12 * 1024, &[0u8; 1024]).unwrap();
    j.disk.write_bytes(14 * 1024, &[0u8; 1024]).unwrap();
    j.head = 0;
    j.tail_seq = 5;
    assert_eq!(j.recover(), 2);
    assert_eq!(j.tail_seq, 6);
    let mut b = [0u8; 21];
    j.disk.read_bytes(12 * 1024, &mut b).unwrap();
    assert_eq!(&b[..20], &[3; 20]);
    assert_eq!(b[20], 0);
    j.disk.read_bytes(14 * 1024, &mut b).unwrap();
    assert_eq!(&b[..20], &[4; 20]);
}

#[test]
fn virtual_files_by_path() {
    match qunix::abi_compat::handle_virtual_fs_path("/proc/sys/kernel/pid_max") {
        Some(qunix::abi_compat::VirtualFile::Text(t)) => assert_eq!(t, "4194304\n"),
        _ => panic!("pid_max is fixed text"),
    }
    assert!(matches!(qunix::abi_compat::handle_virtual_fs_path("/proc/meminfo"),
        Some(qunix::abi_compat::VirtualFile::MemInfo)));
    match qunix::abi_compat::handle_virtual_fs_path("/etc/os-release") {
        Some(qunix::abi_compat::VirtualFile::Text(t)) => assert!(t.starts_with("NAME=\"Qunix\"\n")),
        _ => panic!("os-release is fixed text"),
    }
    assert!(qunix::abi_compat::handle_virtual_fs_path("/proc/nope").is_none());
    assert!(qunix::abi_compat::handle_virtual_fs_path("/proc/sys/kernel/pid_max/").is_none());
}

fn kernel_image_fixture() -> Vec<u8> {
    let mut d = vec![0u8; 64 + 3 * 56];
    d[..4].copy_from_slice(&[0x7F, b'E', b'L', b'F']);
    d[4] = 2;
    d[24..32].copy_from_slice(&0x10_0000u64.to_le_bytes());
    d[32..40].copy_from_slice(&64u64.to_le_bytes());
    d[54..56].copy_from_slice(&56u16.to_le_bytes());
    d[56..58].copy_from_slice(&3u16.to_le_bytes());
    let mut ph = |i: usize, ty: u32, paddr: u64, filesz: u64, memsz: u64| {
        let o = 64 + i * 56;
        d[o..o + 4].copy_from_slice(&ty.to_le_bytes());
        d[o + 24..o + 32].copy_from_slice(&paddr.to_le_bytes());
        d[o + 32..o + 40].copy_from_slice(&filesz.to_le_bytes());
        d[o + 40..o + 48].copy_from_slice(&memsz.to_le_bytes());
    };
    ph(0, 1, 0x3000, 0x10, 0x100);
    ph(1, 4, 0x9000, 0, 0x100);
    ph(2, 1, 0x1000, 0, 0x2100);
    d
}

#[test]
fn kernel_load_plan_sorts_and_reserves_once() {
    let d = kernel_image_fixture();
    let p = plan_kernel_load(&d).unwrap();
    assert_eq!(p.entry, 0x10_0000);
    assert_eq!((p.phys_start, p.phys_end), (0x1000, 0x3100));
    let addrs: Vec<u64> = p.segments.iter().map(|s| s.paddr).collect();
    assert_eq!(addrs, vec![0x1000, 0x3000]);
    assert_eq!(p.allocs, vec![(0x1000, 3)]);
    let mut bad = d.clone();
    bad[4] = 1;
    assert!(plan_kernel_load(&bad).is_none());
    let mut none = d.clone();
    none[64] = 4;
    none[64 + 2 * 56] = 4;
    assert!(plan_kernel_load(&none).is_none());
    let mut past_end = d.clone();
    past_end[64 + 8..64 + 16].copy_from_slice(&1000u64.to_le_bytes());
    assert!(plan_kernel_load(&past_end).is_none());
}

fn exec_fixture(e_type: u16, with_interp: bool) -> Vec<u8> {
    let n: u16 = if with_interp { 2 } else { 1 };
    let mut d = vec![0u8; 64 + 56 * n as usize + 16];
    d[..4].copy_from_slice(&[0x7F, b'E', b'L', b'F']);
    d[4] = 2;
    d[5] = 1;
    d[6] = 1;
    d[16..18].copy_from_slice(&e_type.to_le_bytes());
    d[18..20].copy_from_slice(&0x3Eu16.to_le_bytes());
    d[20..24].copy_from_slice(&1u32.to_le_bytes());
    d[24..32].copy_from_slice(&0x40_1000u64.to_le_bytes());
    d[32..40].copy_from_slice(&64u64.to_le_bytes());
    d[54..56].copy_from_slice(&56u16.to_le_bytes());
    d[56..58].copy_from_slice(&n.to_le_bytes());
    // A loadable segment of one page.
    d[64..68].copy_from_slice(&1u32.to_le_bytes());
    d[64 + 4..64 + 8].copy_from_slice(&5u32.to_le_bytes());
    d[64 + 16..64 + 24].copy_from_slice(&0x40_0000u64.to_le_bytes());
    d[64 + 40..64 + 48].copy_from_slice(&0x1000u64.to_le_bytes());
    if with_interp {
        let path_at = 64 + 56 * 2;
        d[120..124].copy_from_slice(&3u32.to_le_bytes());
        d[120 + 8..120 + 16].copy_from_slice(&(path_at as u64).to_le_bytes());
        d[120 + 32..120 + 40].copy_from_slice(&8u64.to_le_bytes());
        d[path_at..path_at + 8].copy_from_slice(b"/lib/ld\0");
    }
    d
}

#[test]
fn exec_image_plan_and_layout() {
    let d = exec_fixture(ET_EXEC, false);
    let img = qunix::elf::plan_exec_image(&qunix::elf::SliceSource { data: &d }).unwrap();
    assert!(img.interp.is_none());
    assert_eq!((img.plan.entry, img.plan.load_bias, img.plan.segments.len()), (0x40_1000, 0, 1));
    let l = qunix::elf::exec_layout(&img.plan, None);
    assert_eq!((l.entry, l.at_base, l.at_entry, l.brk), (0x40_1000, 0, 0x40_1000, 0x40_1000));
    let d = exec_fixture(ET_DYN, true);
    let img = qunix::elf::plan_exec_image(&qunix::elf::SliceSource { data: &d }).unwrap();
    assert_eq!(img.interp, Some(b"/lib/ld".to_vec()));
    assert_eq!(img.plan.load_bias, 0x0000_5000_0000_0000);
    let l = qunix::elf::exec_layout(&img.plan, Some(0x7FFF_0000_1000));
    assert_eq!((l.entry, l.at_base, l.at_entry), (0x7FFF_0000_1000, 0x0000_7FFF_0000_0000, img.plan.entry));
    let ip = qunix::elf::plan_interp_image(&qunix::elf::SliceSource { data: &exec_fixture(ET_DYN, false) }).unwrap();
    assert_eq!((ip.entry, ip.load_bias), (0x7FFF_0000_0000 + 0x40_1000, 0x7FFF_0000_0000));
    let mut bad = exec_fixture(ET_EXEC, false);
    bad[16] = 1;
    assert!(matches!(qunix::elf::plan_exec_image(&qunix::elf::SliceSource { data: &bad }), Err(22)));
}
