use qunix::fs::ext4::{parse_superblock, Ext4Fs, EXT4_MAGIC, mount_from_bytes, parse_dir_block};
use qunix::fs::journal::{MemDisk, Journal, JBD2_MAGIC};
use qunix::fs::fat32::{encode_83, decode_83, fat32_open, FAT_EOC, FAT_FREE};
use qunix::fs::tmpfs::{TmpFile, TmpFs, NodeData, ROOT_INO, S_IFREG, S_IFDIR};
use qunix::abi_compat::procfs::{render_meminfo, render_maps, render_stat, render_status};
use qunix::abi_compat::{iov_step, IovStep};
use qunix::elf::{build_auxv, AT_NULL, AT_PHDR};
use qunix::memory::vmm::{AddressSpace, VmaRegion, Prot, RegionKind, MremapPlan, MAP_FIXED, MAP_PRIVATE, MAP_SHARED,
    PROT_READ, PROT_WRITE, PROT_EXEC};

fn put16(b: &mut [u8], off: usize, v: u16) {
    b[off..off + 2].copy_from_slice(&v.to_le_bytes());
}

fn put32(b: &mut [u8], off: usize, v: u32) {
    b[off..off + 4].copy_from_slice(&v.to_le_bytes());
}

/// A 1 KiB-block image: one group, inode table at block 3, inode 2 an
/// extent-mapped file "hello" in block 5, inode 3 a block-mapped file
/// "abc" in block 6.
fn ext4_image() -> Vec<u8> {
    let mut img = vec![0u8; 8192];
    let sb = 1024;
    put32(&mut img, sb + 4, 8);
    put32(&mut img, sb + 24, 0);
    put32(&mut img, sb + 32, 8192);
    put32(&mut img, sb + 40, 16);
    put16(&mut img, sb + 56, EXT4_MAGIC);
    put32(&mut img, sb + 76, 1);
    put16(&mut img, sb + 88, 128);
    put32(&mut img, sb + 96, 0x40);
    put32(&mut img, 2048 + 8, 3);
    let i2 = 3072 + 128;
    put32(&mut img, i2 + 4, 5);
    put32(&mut img, i2 + 32, 0x0008_0000);
    put16(&mut img, i2 + 40, 0xF30A);
    put16(&mut img, i2 + 42, 1);
    put16(&mut img, i2 + 44, 4);
    put16(&mut img, i2 + 46, 0);
    put32(&mut img, i2 + 52, 0);
    put16(&mut img, i2 + 56, 1);
    put16(&mut img, i2 + 58, 0);
    put32(&mut img, i2 + 60, 5);
    img[5120..5125].copy_from_slice(b"hello");
    let i3 = 3072 + 256;
    put32(&mut img, i3 + 4, 3);
    put32(&mut img, i3 + 40, 6);
    img[6144..6147].copy_from_slice(b"abc");
    img
}

#[test]
fn ext4_superblock_geometry() {
    let img = ext4_image();
    let g = parse_superblock(&img[1024..2048]).unwrap();
    assert_eq!(g.block_size, 1024);
    assert_eq!(g.inodes_per_group, 16);
    assert_eq!(g.num_groups, 1);
    assert_eq!(g.inode_size, 128);
    assert_eq!(g.desc_size, 32);
    assert_eq!(g.group_desc_off, 2048);
    assert!(g.has_extents && !g.has_64bit && !g.has_journal);
    assert!(parse_superblock(&img[0..1024]).is_none());
    assert!(parse_superblock(&img[1024..1500]).is_none());
}

#[test]
fn ext4_read_extent_file() {
    let fs = Ext4Fs::open(MemDisk::new(ext4_image())).unwrap();
    assert_eq!(fs.inode_location(2), Ok((3200, 128)));
    assert_eq!(fs.inode_location(0), Err(22));
    let raw = fs.read_inode(2).unwrap();
    assert_eq!(raw.len(), 128);
    assert_eq!(fs.block_lookup(&raw, 0), Ok(Some(5)));
    assert_eq!(fs.block_lookup(&raw, 1), Ok(None));
    assert_eq!(fs.read_file(&raw, 0, 100).unwrap(), b"hello".to_vec());
    assert_eq!(fs.read_file(&raw, 1, 2).unwrap(), b"el".to_vec());
    assert_eq!(fs.read_file(&raw, 5, 10).unwrap(), Vec::<u8>::new());
}

#[test]
fn ext4_read_block_mapped_file() {
    let fs = Ext4Fs::open(MemDisk::new(ext4_image())).unwrap();
    let raw = fs.read_inode(3).unwrap();
    assert_eq!(fs.block_lookup(&raw, 0), Ok(Some(6)));
    assert_eq!(fs.block_lookup(&raw, 1), Ok(None));
    assert_eq!(fs.read_file(&raw, 0, 10).unwrap(), b"abc".to_vec());
}

#[test]
fn ext4_bad_extent_magic_is_eio() {
    let mut img = ext4_image();
    img[3072 + 128 + 40] = 0;
    let fs = Ext4Fs::open(MemDisk::new(img)).unwrap();
    let raw = fs.read_inode(2).unwrap();
    assert_eq!(fs.block_lookup(&raw, 0), Err(5));
    assert_eq!(fs.read_file(&raw, 0, 5), Err(5));
}

#[test]
fn ext4_open_refuses_bad_magic_and_short_disk() {
    let mut img = ext4_image();
    img[1024 + 56] = 0;
    assert!(Ext4Fs::open(MemDisk::new(img)).is_none());
    assert!(Ext4Fs::open(MemDisk::new(vec![0u8; 1500])).is_none());
}

#[test]
fn journal_new_reads_superblock() {
    let mut img = vec![0u8; 4 * 1024];
    img[1024..1028].copy_from_slice(&JBD2_MAGIC.to_be_bytes());
    img[1024 + 16..1024 + 20].copy_from_slice(&3u32.to_be_bytes());
    img[1024 + 28..1024 + 32].copy_from_slice(&2u32.to_be_bytes());
    img[1024 + 84..1024 + 88].copy_from_slice(&7u32.to_be_bytes());
    let j = Journal::new(MemDisk::new(img.clone()), 1, 1024).unwrap();
    assert_eq!(j.journal_len, 3);
    assert_eq!(j.head, 2);
    assert_eq!(j.tail_seq, 7);
    assert_eq!(j.next_seq, 7);
    let mut bad = img;
    bad[1024] = 0;
    assert!(Journal::new(MemDisk::new(bad), 1, 1024).is_none());
}

#[test]
fn fat32_names_round_trip() {
    assert_eq!(encode_83("hello.txt"), *b"HELLO   TXT");
    assert_eq!(encode_83("README"), *b"README     ");
    assert_eq!(encode_83("averylongname.c"), *b"AVERYLONC  ");
    assert_eq!(decode_83(*b"HELLO   TXT"), b"hello.txt".to_vec());
    assert_eq!(decode_83(*b"README     "), b"readme".to_vec());
}

#[test]
fn fat32_open_reads_bpb() {
    let mut d = vec![0u8; 1024];
    put16(&mut d, 11, 512);
    d[13] = 1;
    put16(&mut d, 14, 32);
    d[16] = 2;
    put32(&mut d, 36, 100);
    put32(&mut d, 44, 2);
    let f = fat32_open(d).unwrap();
    assert_eq!(f.bps, 512);
    assert_eq!(f.spc, 1);
    assert_eq!(f.data_start, 232);
    assert_eq!(f.root_clus, 2);
    assert!(fat32_open(vec![0u8; 100]).is_none());
}

#[test]
fn tmpfs_file_read_after_write_and_truncate() {
    let mut f = TmpFile::new();
    assert_eq!(f.write(3, b"abc"), Ok(3));
    assert_eq!(f.len(), 6);
    let mut buf = [9u8; 8];
    assert_eq!(f.read(0, &mut buf), 6);
    assert_eq!(&buf[..6], &[0, 0, 0, b'a', b'b', b'c']);
    assert_eq!(buf[6], 9);
    f.truncate(4);
    assert_eq!(f.len(), 4);
    let mut b2 = [0u8; 4];
    assert_eq!(f.read(3, &mut b2), 1);
    assert_eq!(b2[0], b'a');
    f.truncate(6);
    let mut b3 = [7u8; 3];
    assert_eq!(f.read(3, &mut b3), 3);
    assert_eq!(b3, [b'a', 0, 0]);
    assert_eq!(f.read(10, &mut b3), 0);
}

#[test]
fn procfs_meminfo_text() {
    let t = render_meminfo(10, 5);
    assert_eq!(String::from_utf8(t).unwrap(),
        "MemTotal:\t40 kB\nMemFree:\t20 kB\nMemAvailable:\t20 kB\nBuffers:\t0 kB\nCached:\t\t0 kB\nSwapTotal:\t0 kB\nSwapFree:\t0 kB\n");
}

#[test]
fn procfs_maps_lines() {
    let r = VmaRegion { start: 0x400000, end: 0x401000, prot: Prot { bits: PROT_READ | PROT_EXEC },
        kind: RegionKind::Anonymous, flags: MAP_PRIVATE, name: String::new(), cow: false };
    let s = VmaRegion { start: 0x7000_0000, end: 0x7000_2000, prot: Prot { bits: PROT_READ | PROT_WRITE },
        kind: RegionKind::Anonymous, flags: MAP_PRIVATE, name: String::new(), cow: false };
    let t = render_maps(&[r, s]);
    assert_eq!(String::from_utf8(t).unwrap(),
        "0000000000400000-0000000000401000 r-xp 0 00:00 0\n0000000070000000-0000000070002000 rw-p 0 00:00 0\n");
    assert!(render_maps(&[]).is_empty());
}

#[test]
fn procfs_status_and_stat() {
    let st = String::from_utf8(render_status(7, "sh", 0, 0)).unwrap();
    assert!(st.starts_with("Name:\tsh\n"));
    assert!(st.contains("Pid:\t7\n"));
    let s = String::from_utf8(render_stat(42)).unwrap();
    assert!(s.starts_with("42 "));
}

#[test]
fn readv_steps() {
    assert!(matches!(iov_step(0, 0, -5), IovStep::Next(0)));
    assert!(matches!(iov_step(0, 10, -14), IovStep::Return(-14)));
    assert!(matches!(iov_step(8, 10, -14), IovStep::Return(8)));
    assert!(matches!(iov_step(8, 10, 4), IovStep::Return(12)));
    assert!(matches!(iov_step(8, 10, 10), IovStep::Next(18)));
}

#[test]
fn auxv_words_and_stack() {
    let (words, sp) = build_auxv(0x1000, 0x401000, 0x400040, 56, 9, 0, 0x2000, 0x3000);
    assert_eq!(words.len(), 38);
    assert_eq!(words[0], (0x1000 - 8, AT_NULL));
    assert_eq!(words[1], (0x1000 - 16, 0));
    assert_eq!(words[36], (0x1000 - 8 * 37, AT_PHDR));
    assert_eq!(words[37], (0x1000 - 8 * 38, 0x400040));
    assert_eq!(sp, 0x1000 - 38 * 8);
}

#[test]
fn mmap_full_fixed_shared_and_refused() {
    let mut asp = AddressSpace::new_user_layout(0x1000);
    let p = asp.mmap_full(Some(0x1000_0000), 0x2000, Prot { bits: PROT_READ | PROT_WRITE }, MAP_FIXED | MAP_SHARED,
        true, true).unwrap();
    assert_eq!(p.addr, 0x1000_0000);
    assert_eq!(p.pages, 2);
    let last = asp.regions.last().unwrap();
    assert_eq!((last.start, last.end), (0x1000_0000, 0x1000_2000));
    assert!(last.kind == RegionKind::Shared);
    assert!(asp.mmap_full(None, 0x1000, Prot { bits: PROT_READ }, MAP_FIXED, false, true).is_none());
    assert!(asp.mmap_full(Some(0), 0x1000, Prot { bits: PROT_READ }, MAP_FIXED, false, true).is_none());
    let n = asp.regions.len();
    assert!(asp.mmap_full(None, 0x1000, Prot { bits: PROT_READ }, MAP_PRIVATE, false, false).is_none());
    assert_eq!(asp.regions.len(), n);
    let q = asp.mmap_full(None, 0x1800, Prot { bits: PROT_READ }, MAP_PRIVATE, false, true).unwrap();
    assert_eq!(q.pages, 2);
    assert!(asp.regions.last().unwrap().kind == RegionKind::Anonymous);
}

#[test]
fn mremap_shrinks_and_grows_in_place() {
    let mut asp = AddressSpace::new_user_layout(0x1000);
    asp.mmap_full(Some(0x1000_0000), 0x4000, Prot { bits: PROT_READ | PROT_WRITE }, MAP_FIXED | MAP_PRIVATE, false,
        true).unwrap();
    let r = asp.mremap(0x1000_0000, 0x4000, 0x2000, 0, 0, true, true).unwrap();
    assert!(matches!(r, MremapPlan::InPlace { addr: 0x1000_0000, unmap: Some((0x1000_2000, 0x1000_4000)) }));
    let g = asp.mremap(0x1000_0000, 0x2000, 0x3000, 0, 0, true, true).unwrap();
    assert!(matches!(g, MremapPlan::Grown { addr: 0x1000_0000, map_at: 0x1000_2000, pages: 1, .. }));
    let u = asp.mremap(0x1000_0000, 0x3000, 0, 0, 0, true, true).unwrap();
    assert!(matches!(u, MremapPlan::Unmapped { addr: 0x1000_0000, end: 0x1000_3000 }));
    assert!(asp.mremap(0, 0x1000, 0x2000, 0, 0, true, true).is_none());
}

#[test]
fn fork_marks_private_writable_regions_cow() {
    let mut asp = AddressSpace::new_user_layout(0x1000);
    asp.mmap_full(Some(0x1000_0000), 0x2000, Prot { bits: PROT_READ | PROT_WRITE }, MAP_FIXED | MAP_PRIVATE, false,
        true).unwrap();
    asp.mmap_full(Some(0x2000_0000), 0x1000, Prot { bits: PROT_READ }, MAP_FIXED | MAP_PRIVATE, false, true).unwrap();
    let plan = asp.copy_on_fork(0x9000);
    assert_eq!(plan.child.pml4_phys, 0x9000);
    assert_eq!(plan.maps.len(), 2);
    assert!(plan.maps[0].cow && plan.maps[0].pages == 2);
    assert!(!plan.maps[1].cow && plan.maps[1].pages == 1);
    assert!(asp.regions[0].cow && plan.child.regions[0].cow);
    assert!(!asp.regions[1].cow);
}

#[test]
fn ext4_mount_without_journal_keeps_disk() {
    let img = ext4_image();
    let fs = mount_from_bytes(img.clone()).unwrap();
    assert_eq!(fs.disk.data, img);
    assert_eq!(fs.geo.block_size, 1024);
    assert!(mount_from_bytes(vec![0u8; 4096]).is_none());
}

#[test]
fn ext4_mount_replays_journal() {
    // The journal inode (8) maps block 10, whose superblock describes a
    // log of 4 blocks with a committed transaction writing block 7.
    let mut img = vec![0u8; 16 * 1024];
    img[..8192].copy_from_slice(&ext4_image());
    put32(&mut img, 1024 + 4, 16);
    put32(&mut img, 1024 + 92, 0x4);
    put32(&mut img, 1024 + 224, 8);
    let i8 = 3072 + 7 * 128;
    put32(&mut img, i8 + 40, 10);
    let j = 10 * 1024;
    let be = |img: &mut Vec<u8>, off: usize, v: u32| img[off..off + 4].copy_from_slice(&v.to_be_bytes());
    be(&mut img, j, JBD2_MAGIC);
    be(&mut img, j + 4, 4);
    be(&mut img, j + 16, 4);
    be(&mut img, j + 28, 0);
    be(&mut img, j + 84, 1);
    // log block 0 (disk block 11): descriptor for fs block 7, last tag
    let d = 11 * 1024;
    be(&mut img, d, JBD2_MAGIC);
    be(&mut img, d + 4, 1);
    be(&mut img, d + 8, 1);
    be(&mut img, d + 12, 7);
    img[d + 16..d + 18].copy_from_slice(&(8u16 | 2).to_be_bytes());
    img[d + 18..d + 20].copy_from_slice(&0u16.to_be_bytes());
    // log block 1 (disk block 12): the data
    for b in &mut img[12 * 1024..13 * 1024] {
        *b = 0xAB;
    }
    // log block 2 (disk block 13): commit of sequence 1
    let c = 13 * 1024;
    be(&mut img, c, JBD2_MAGIC);
    be(&mut img, c + 4, 2);
    be(&mut img, c + 8, 1);
    let fs = mount_from_bytes(img).unwrap();
    assert!(fs.geo.has_journal);
    assert!(fs.disk.data[7 * 1024..8 * 1024].iter().all(|&b| b == 0xAB));
}

#[test]
fn tmpfs_create_write_read_lookup() {
    let mut fs = TmpFs::new();
    let ino = fs.create(ROOT_INO, "a.txt", 0o644, 5, 6).unwrap();
    assert_eq!(ino, 2);
    assert_eq!(fs.lookup(ROOT_INO, "a.txt"), Ok(2));
    assert_eq!(fs.lookup(ROOT_INO, "b.txt"), Err(2));
    assert_eq!(fs.write(ino, 0, b"hello"), Ok(5));
    let mut buf = [0u8; 8];
    assert_eq!(fs.read(ino, 1, &mut buf), Ok(4));
    assert_eq!(&buf[..4], b"ello");
    assert_eq!(fs.truncate(ino, 2), Ok(()));
    assert_eq!(fs.read(ino, 0, &mut buf), Ok(2));
    assert_eq!(fs.read(ROOT_INO, 0, &mut buf), Err(21));
    assert_eq!(fs.write(ROOT_INO, 0, b"x"), Err(21));
    assert_eq!(fs.read(99, 0, &mut buf), Err(2));
    assert_eq!(fs.write(ino, usize::MAX, b"x"), Err(22));
    assert_eq!(fs.truncate(ROOT_INO, 0), Err(22));
    let n = fs.nodes.iter().find(|n| n.ino == ino).unwrap();
    assert_eq!(n.mode, S_IFREG | 0o644);
    assert_eq!((n.uid, n.gid, n.nlink), (5, 6, 1));
    assert!(matches!(n.data, NodeData::File(_)));
}

#[test]
fn tmpfs_mkdir_unlink_rmdir() {
    let mut fs = TmpFs::new();
    let d = fs.mkdir(ROOT_INO, "d", 0o755, 0, 0).unwrap();
    let f = fs.create(d, "f", 0o600, 0, 0).unwrap();
    assert_eq!(fs.lookup(d, "f"), Ok(f));
    assert_eq!(fs.nodes.iter().find(|n| n.ino == d).unwrap().mode, S_IFDIR | 0o755);
    assert_eq!(fs.rmdir(ROOT_INO, "d"), Err(39));
    assert_eq!(fs.unlink(ROOT_INO, "d"), Err(21));
    assert_eq!(fs.lookup(f, "x"), Err(20));
    assert_eq!(fs.create(f, "x", 0o600, 0, 0), Err(20));
    assert_eq!(fs.unlink(d, "f"), Ok(()));
    assert_eq!(fs.lookup(d, "f"), Err(2));
    assert!(fs.nodes.iter().all(|n| n.ino != f));
    assert_eq!(fs.unlink(d, "f"), Err(2));
    assert_eq!(fs.rmdir(ROOT_INO, "d"), Ok(()));
    assert_eq!(fs.lookup(ROOT_INO, "d"), Err(2));
    assert!(fs.nodes.iter().all(|n| n.ino != d));
    assert_eq!(fs.create(77, "y", 0o600, 0, 0), Err(2));
}

fn fat_image() -> qunix::fs::fat32::Fat32Image {
    let mut d = vec![0u8; 70000];
    put16(&mut d, 11, 512);
    d[13] = 1;
    put16(&mut d, 14, 1);
    d[16] = 2;
    put32(&mut d, 36, 1);
    put32(&mut d, 44, 2);
    put32(&mut d, 512, 0x0FFF_FFF8);
    put32(&mut d, 516, 0x0FFF_FFFF);
    fat32_open(d).unwrap()
}

#[test]
fn fat32_write_chain_grows_and_cuts() {
    let mut f = fat_image();
    assert_eq!(f.data_start, 3);
    assert_eq!(f.write_chain(0, b"hello"), Some(2));
    assert_eq!(f.fat_get(2), FAT_EOC);
    assert_eq!(u32::from_le_bytes(f.disk[1024 + 8..1024 + 12].try_into().unwrap()), FAT_EOC);
    assert_eq!(&f.disk[1536..1541], b"hello");
    assert!(f.disk[1541..2048].iter().all(|&b| b == 0));
    let big = vec![7u8; 1200];
    assert_eq!(f.write_chain(2, &big), Some(2));
    assert_eq!(f.chain(2), vec![2, 3, 4]);
    assert_eq!(f.fat_get(2), 3);
    assert_eq!(f.fat_get(3), 4);
    assert!(f.disk[1536..1536 + 1200].iter().all(|&b| b == 7));
    assert!(f.disk[1536 + 1200..1536 + 1536].iter().all(|&b| b == 0));
    assert_eq!(f.write_chain(2, b"0123456789"), Some(2));
    assert_eq!(f.chain(2), vec![2]);
    assert_eq!(f.fat_get(3), FAT_FREE);
    assert_eq!(f.fat_get(4), FAT_FREE);
    f.free_chain(2);
    assert_eq!(f.fat_get(2), FAT_FREE);
    assert_eq!(f.chain(2), vec![2]);
    assert_eq!(f.chain(0), Vec::<u32>::new());
}

#[test]
fn fat32_alloc_cluster_takes_first_free() {
    let mut f = fat_image();
    assert_eq!(f.alloc_cluster(), Some(2));
    assert_eq!(f.fat_get(2), FAT_EOC);
    assert_eq!(f.alloc_cluster(), Some(3));
    assert_eq!(f.fat_get(3), FAT_EOC);
    f.fat_set(2, FAT_FREE);
    assert_eq!(f.alloc_cluster(), Some(2));
    assert_eq!(f.write_chain(0, b""), Some(0));
}

fn put_dirent(b: &mut [u8], off: usize, ino: u32, rec: u16, name: &[u8], ft: u8) {
    put32(b, off, ino);
    put16(b, off + 4, rec);
    b[off + 6] = name.len() as u8;
    b[off + 7] = ft;
    b[off + 8..off + 8 + name.len()].copy_from_slice(name);
}

#[test]
fn ext4_directory_entries_and_lookup() {
    let mut img = ext4_image();
    let i4 = 3072 + 3 * 128;
    put32(&mut img, i4 + 4, 1024);
    put32(&mut img, i4 + 40, 7);
    put_dirent(&mut img, 7168, 2, 16, b"hello", 1);
    put_dirent(&mut img, 7168 + 16, 0, 12, b"gone", 1);
    put_dirent(&mut img, 7168 + 28, 3, 996, b"abc", 1);
    let fs = Ext4Fs::open(MemDisk::new(img.clone())).unwrap();
    let raw = fs.read_inode(4).unwrap();
    let es = fs.dir_read_entries(&raw).unwrap();
    assert_eq!(es, vec![(b"hello".to_vec(), 2, 1), (b"abc".to_vec(), 3, 1)]);
    assert_eq!(fs.dir_lookup(&raw, b"abc"), Ok(3));
    assert_eq!(fs.dir_lookup(&raw, b"hello"), Ok(2));
    assert_eq!(fs.dir_lookup(&raw, b"gone"), Err(2));
    let file = fs.read_inode(2).unwrap();
    let content = fs.read_file(&file, 0, 5).unwrap();
    assert_eq!(content, b"hello".to_vec());
    let blk = &img[7168..8192];
    assert_eq!(parse_dir_block(blk).len(), 2);
    let mut short = blk.to_vec();
    put16(&mut short, 4, 4);
    assert!(parse_dir_block(&short).is_empty());
}

#[test]
fn tmpfs_symlink_readlink_rename() {
    let mut fs = TmpFs::new();
    let l = fs.symlink(ROOT_INO, "link", b"/etc/target", 1, 1).unwrap();
    assert_eq!(fs.readlink(l), Ok(b"/etc/target".to_vec()));
    assert_eq!(fs.readlink(ROOT_INO), Err(22));
    assert_eq!(fs.readlink(50), Err(2));
    let mut buf = [0u8; 4];
    assert_eq!(fs.read(l, 0, &mut buf), Ok(4));
    assert_eq!(&buf, b"/etc");
    assert_eq!(fs.write(l, 0, b"x"), Err(22));
    let d = fs.mkdir(ROOT_INO, "d", 0o700, 0, 0).unwrap();
    assert_eq!(fs.rename(ROOT_INO, "link", d, "moved"), Ok(()));
    assert_eq!(fs.lookup(ROOT_INO, "link"), Err(2));
    assert_eq!(fs.lookup(d, "moved"), Ok(l));
    assert_eq!(fs.rename(ROOT_INO, "nothing", d, "x"), Err(2));
    let f = fs.create(ROOT_INO, "f", 0o600, 0, 0).unwrap();
    // The entry is gone from its directory before the missing target
    // directory is noticed.
    assert_eq!(fs.rename(ROOT_INO, "f", 999, "g"), Err(2));
    assert_eq!(fs.lookup(ROOT_INO, "f"), Err(2));
    assert!(fs.nodes.iter().any(|n| n.ino == f));
}
