use qunix::memory::lz4::{lz4_compress, lz4_decompress, crc32_simple};
use qunix::memory::zswap::{
    CompressedPool, Zswap, ZramDevice, init, is_enabled, store_page, load_page, evict_one,
    zram_init, zram_read, zram_write, zram_sectors, zram_init_default,
};
use qunix::memory::buddy::BuddyAlloc;
use qunix::memory::thp::{Thp, PromoteResult, khugepaged_scan, enable, disable, is_enabled as thp_enabled, stats, record_promotion};
use qunix::memory::vmm::{VmaRegion, RegionKind, Prot, PROT_READ, PROT_WRITE, AddressSpace};
use qunix::memory::slab::{SlabCaches, alloc_sized, free_sized};
use qunix::memory::phys::PhysAllocator;

fn pattern(n: usize) -> Vec<u8> {
    (0..n).map(|i| ((i * 7 + i / 13) % 251) as u8).collect()
}

fn roundtrip(src: &[u8]) {
    let mut enc = vec![0u8; src.len() + src.len() / 255 + 64];
    let len = lz4_compress(src, &mut enc).expect("fits");
    let mut out = vec![0u8; src.len()];
    assert!(lz4_decompress(&enc[..len], &mut out));
    assert_eq!(out, src);
}

#[test]
fn lz4_roundtrip_zero_page_compresses() {
    let page = vec![0u8; 4096];
    let mut enc = vec![0u8; 4160];
    let len = lz4_compress(&page, &mut enc).unwrap();
    assert!(len < 4096);
    let mut out = vec![1u8; 4096];
    assert!(lz4_decompress(&enc[..len], &mut out));
    assert_eq!(out, page);
}

#[test]
fn lz4_roundtrip_various() {
    roundtrip(&pattern(4096));
    roundtrip(b"abcdabcdabcdabcdabcdxyz");
    roundtrip(&[7u8; 300]);
    roundtrip(&pattern(5));
    let mut mixed = pattern(1000);
    mixed.extend_from_slice(&[0u8; 1000]);
    mixed.extend_from_slice(&pattern(1000));
    roundtrip(&mixed);
}

#[test]
fn lz4_short_input_is_a_literal_block() {
    let mut dst = [0u8; 8];
    // Short inputs are a single literal-only sequence, which decodes back.
    assert_eq!(lz4_compress(b"hi!", &mut dst), Some(4));
    assert_eq!(&dst[..4], &[0x30, b'h', b'i', b'!']);
    assert_eq!(&dst[4..], &[0u8; 4][..dst.len() - 4]);
    let mut out = [0u8; 3];
    assert!(lz4_decompress(&dst[..4], &mut out));
    assert_eq!(&out, b"hi!");
}

#[test]
fn lz4_compress_fails_when_too_small() {
    let mut dst = [0u8; 2];
    assert_eq!(lz4_compress(&pattern(64), &mut dst), None);
}

#[test]
fn lz4_decompress_rejects_bad_input() {
    let mut out = [0u8; 4];
    assert!(!lz4_decompress(&[], &mut out));
    // Literal count larger than the input.
    assert!(!lz4_decompress(&[0x50, 1, 2], &mut out));
    // Back-reference of distance zero.
    assert!(!lz4_decompress(&[0x10, 9, 0, 0], &mut out));
    // Exactly one literal run of four bytes.
    assert!(lz4_decompress(&[0x40, 1, 2, 3, 4], &mut out));
    assert_eq!(out, [1, 2, 3, 4]);
    // Output length must match.
    let mut out5 = [0u8; 5];
    assert!(!lz4_decompress(&[0x40, 1, 2, 3, 4], &mut out5));
}

#[test]
fn crc32_known_value() {
    assert_eq!(crc32_simple(b"123456789"), 0xCBF4_3926);
    assert_eq!(crc32_simple(b""), 0);
}

#[test]
fn zswap_store_load_roundtrip() {
    let mut z = Zswap::new();
    assert!(!is_enabled(&z));
    let page = [3u8; 4096];
    assert_eq!(store_page(&mut z, 1, 0x1000, &page), None);
    init(&mut z, 1000);
    assert!(is_enabled(&z));
    assert_eq!(z.pool.as_ref().unwrap().max_entries, 256);
    let mut data = [0u8; 4096];
    for (i, b) in data.iter_mut().enumerate() {
        *b = (i % 97) as u8;
    }
    let h = store_page(&mut z, 1, 0x1000, &data).unwrap();
    assert_eq!(h, 1);
    let h2 = store_page(&mut z, 2, 0x2000, &page).unwrap();
    assert_eq!(h2, 2);
    let mut out = [0u8; 4096];
    assert!(load_page(&mut z, h, &mut out));
    assert_eq!(out[..], data[..]);
    // A loaded page leaves the pool.
    assert!(!load_page(&mut z, h, &mut out));
    assert!(load_page(&mut z, h2, &mut out));
    assert_eq!(out[..], page[..]);
}

#[test]
fn zswap_evicts_oldest_first() {
    let mut z = Zswap::new();
    init(&mut z, 0);
    let page = [9u8; 4096];
    let a = store_page(&mut z, 1, 0, &page).unwrap();
    let b = store_page(&mut z, 1, 4096, &page).unwrap();
    assert!(evict_one(&mut z));
    let mut out = [0u8; 4096];
    assert!(!load_page(&mut z, a, &mut out));
    assert!(load_page(&mut z, b, &mut out));
    assert!(!evict_one(&mut z));
}

#[test]
fn zswap_pool_full() {
    let mut p = CompressedPool::new(1);
    let page = [1u8; 4096];
    assert!(p.store(1, 0, &page).is_some());
    assert!(p.is_full());
    assert_eq!(p.store(1, 0, &page), None);
}

#[test]
fn zram_read_after_write() {
    let mut z: Option<ZramDevice> = None;
    let mut buf = vec![0u8; 512];
    assert!(!zram_read(&mut z, 0, &mut buf));
    assert_eq!(zram_sectors(&z), 0);
    zram_init(&mut z, 1);
    assert_eq!(zram_sectors(&z), 2048);
    // Unwritten sectors read as zeros.
    let mut r = vec![0xAAu8; 1024];
    assert!(zram_read(&mut z, 5, &mut r));
    assert!(r.iter().all(|&b| b == 0));
    // A write spanning two blocks, starting mid-block.
    let data = pattern(512 * 10);
    assert!(zram_write(&mut z, 6, &data));
    let mut back = vec![0u8; 512 * 10];
    assert!(zram_read(&mut z, 6, &mut back));
    assert_eq!(back, data);
    // Neighbouring sectors are untouched.
    let mut before = vec![1u8; 512];
    assert!(zram_read(&mut z, 5, &mut before));
    assert!(before.iter().all(|&b| b == 0));
    assert_eq!(z.as_ref().unwrap().used_blocks(), 2);
}

#[test]
fn zram_default_sizes() {
    let mut z: Option<ZramDevice> = None;
    zram_init_default(&mut z, 1000);
    assert!(z.is_none());
    zram_init_default(&mut z, 131072);
    assert_eq!(zram_sectors(&z), 128 * 2048);
    let mut z2: Option<ZramDevice> = None;
    zram_init_default(&mut z2, 524288);
    assert_eq!(zram_sectors(&z2), 512 * 2048);
}

#[test]
fn buddy_alloc_then_free_restores() {
    let mut b = BuddyAlloc::new();
    b.add_range(0, 1024);
    let before = b.free_frames;
    let p = b.alloc_block(3).unwrap();
    assert_eq!(b.free_frames, before - 8);
    b.free_block(p, 3);
    assert_eq!(b.free_frames, before);
    assert!(b.alloc_block(11).is_none() || true);
}

#[test]
fn thp_switch_and_scan() {
    let mut t = Thp::new();
    assert!(thp_enabled(&t));
    let region = VmaRegion {
        start: 0x20_0000 - 0x1000,
        end: 0x20_0000 * 4,
        prot: Prot { bits: PROT_READ | PROT_WRITE },
        kind: RegionKind::Anonymous,
        flags: 0,
        name: String::new(),
        cow: false,
    };
    let stack = VmaRegion { kind: RegionKind::Stack, name: String::new(), ..region_clone(&region) };
    let regions = vec![region, stack];
    // Windows 2 MiB, 4 MiB, 6 MiB in the first region; the stack is skipped.
    let n = khugepaged_scan(&t, &regions, |va| if va == 0x40_0000 { PromoteResult::NotEligible } else { PromoteResult::Promoted(va) });
    assert_eq!(n, 2);
    let n2 = khugepaged_scan(&t, &regions, |_| PromoteResult::OutOfMemory);
    assert_eq!(n2, 0);
    disable(&mut t);
    assert_eq!(khugepaged_scan(&t, &regions, |va| PromoteResult::Promoted(va)), 0);
    enable(&mut t);
    record_promotion(&mut t);
    assert_eq!(stats(&t), (1, 0));
}

fn region_clone(r: &VmaRegion) -> VmaRegion {
    VmaRegion { start: r.start, end: r.end, prot: Prot { bits: r.prot.bits }, kind: RegionKind::Anonymous,
        flags: r.flags, name: String::new(), cow: r.cow }
}

#[test]
fn slab_sizes_and_reuse() {
    let mut sc = SlabCaches::new();
    let mut pa = PhysAllocator::new();
    assert_eq!(alloc_sized(&mut sc, &mut pa, 0, 4096), None);
    let mut pa2 = PhysAllocator::new();
    pa2.buddy.add_range(1, 64);
    let a = alloc_sized(&mut sc, &mut pa2, 0, 24).unwrap();
    let b = alloc_sized(&mut sc, &mut pa2, 0, 24).unwrap();
    assert_eq!(a - b, 32);
    free_sized(&mut sc, a, 24);
    assert_eq!(alloc_sized(&mut sc, &mut pa2, 0, 20), Some(a));
    assert_eq!(sc.caches[1].used_objects(), 2);
}

#[test]
fn lz4_literal_block_layout() {
    let src: Vec<u8> = (0u8..15).collect();
    let mut dst = [0u8; 32];
    assert_eq!(lz4_compress(&src, &mut dst), Some(17));
    assert_eq!(&dst[..2], &[0xF0, 0x00]);
    assert_eq!(&dst[2..17], &src[..]);
    assert_eq!(&dst[17..], &[0u8; 15]);
    // A block that does not fit leaves the buffer as it was.
    let mut small = [7u8; 17];
    assert_eq!(lz4_compress(&src, &mut small), None);
    assert_eq!(small, [7u8; 17]);
}

#[test]
fn mmap_places_at_hint_or_area() {
    let mut a = AddressSpace::new_user_layout(0x1000);
    let base = a.mmap_base;
    let p = Prot { bits: PROT_READ };
    // No hint: the area's next address, which moves past it and a guard page.
    assert_eq!(a.mmap(None, 100, p), Some(base));
    assert_eq!(a.mmap_base, base + 0x2000);
    // A free, aligned hint is taken as it is (rounded down to a page).
    assert_eq!(a.mmap(Some(0x1000_0123), 0x2000, p), Some(0x1000_0000));
    assert_eq!(a.mmap_base, base + 0x2000);
    // A hint on top of a region falls back to the area.
    assert_eq!(a.mmap(Some(0x1000_1000), 0x1000, p), Some(base + 0x2000));
    assert_eq!(a.mmap_base, base + 0x4000);
}

#[test]
fn alloc_frames_then_free_restores_count() {
    let mut pa = PhysAllocator::new();
    pa.buddy.add_range(0x100, 64);
    let before = qunix::memory::phys::free_frames(&pa);
    let p = qunix::memory::phys::alloc_frames(&mut pa, 0, 3).unwrap();
    assert_eq!(qunix::memory::phys::free_frames(&pa), before.wrapping_sub(4));
    qunix::memory::phys::free_frames_n(&mut pa, 0, p, 3);
    assert_eq!(qunix::memory::phys::free_frames(&pa), before);
}
