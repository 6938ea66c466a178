use ziran::frame_allocator::{alloc_frame, free, init, self_test, FrameAllocator, FreeOutcome, PhysFrame};
use ziran::heap::{FreeListHeap, HEAP_BASE, HEAP_SIZE};
use ziran::multiboot::{BootInfo, MemoryRegion};

fn usable(base: u64, length: u64) -> MemoryRegion {
    MemoryRegion { base, length, kind: 1 }
}

fn standard_allocator() -> FrameAllocator {
    let mut a = FrameAllocator::new();
    let map = vec![usable(0x10_0000, 0xF0_0000)];
    init(&mut a, &map, 0x10_0000, 0x20_0000, 0x30_0000, 0x30_0100);
    a
}

#[test]
fn init_counts_usable_frames_and_reserves() {
    let mut a = FrameAllocator::new();
    let map = vec![
        MemoryRegion { base: 0, length: 0x9_F000, kind: 1 },
        MemoryRegion { base: 0x9_F000, length: 0x6_1000, kind: 2 },
        usable(0x10_0000, 0xF0_0000),
        usable(0x1_0000_0000, 0x1000_0000),
    ];
    let report = init(&mut a, &map, 0x10_0000, 0x20_0000, 0x30_0000, 0x30_0100);
    // 159 frames below the hole, 3840 from 1 MiB to 16 MiB.
    assert_eq!(report.usable_frames, 159 + 3840);
    assert_eq!(report.usable_regions, 2);
    assert_eq!(report.ignored_bytes, 0x1000_0000);
    // frame 0, the kernel's 256 frames and the boot structure's one frame.
    assert_eq!(report.free_frames, 159 + 3840 - 1 - 256 - 1);
    assert_eq!(a.free_frame_count(), report.free_frames);
}

#[test]
fn alloc_returns_lowest_free_frame() {
    let mut a = standard_allocator();
    let before = a.free_frame_count();
    let f = alloc_frame(&mut a).unwrap();
    // 1 MiB..2 MiB is the kernel; the first free frame is at 2 MiB.
    assert_eq!(f.start_address(), 0x20_0000);
    assert_eq!(a.free_frame_count(), before - 1);
}

#[test]
fn free_then_double_free_then_out_of_range() {
    let mut a = standard_allocator();
    let f = alloc_frame(&mut a).unwrap();
    assert_eq!(free(&mut a, f), FreeOutcome::Freed);
    assert_eq!(free(&mut a, f), FreeOutcome::DoubleFree);
    let far = PhysFrame::containing_address(0x1_0000_0000);
    assert_eq!(free(&mut a, far), FreeOutcome::OutOfRange);
}

#[test]
fn alloc_free_roundtrip_restores_count() {
    let mut a = standard_allocator();
    let before = a.free_frame_count();
    let f = alloc_frame(&mut a).unwrap();
    free(&mut a, f);
    assert_eq!(a.free_frame_count(), before);
    assert_eq!(alloc_frame(&mut a).unwrap(), f);
}

#[test]
fn allocator_self_test_reclaims_second_frame() {
    let mut a = standard_allocator();
    let before = a.free_frame_count();
    let r = self_test(&mut a);
    assert_ne!(r.first, r.second);
    assert_ne!(r.second, r.third);
    assert_ne!(r.first, r.third);
    assert_eq!(r.first % 4096, 0);
    assert_eq!(r.reclaimed, r.second);
    assert_eq!(a.free_frame_count(), before);
}

#[test]
fn exhausted_allocator_returns_none() {
    let mut a = FrameAllocator::new();
    let map = vec![usable(0x5000, 0x2000)];
    init(&mut a, &map, 0, 0, 0, 0);
    assert_eq!(a.free_frame_count(), 2);
    assert!(alloc_frame(&mut a).is_some());
    assert!(alloc_frame(&mut a).is_some());
    assert!(alloc_frame(&mut a).is_none());
}

#[test]
fn containing_address_rounds_down() {
    assert_eq!(PhysFrame::containing_address(0x1234_5678).start_address(), 0x1234_5000);
    assert_eq!(PhysFrame::containing_address(0x2000).start_address(), 0x2000);
}

#[test]
fn heap_reclaims_freed_block() {
    let mut h = FreeListHeap::new();
    h.init(HEAP_BASE as usize, HEAP_SIZE as usize);
    let a1 = h.allocate(8, 8).unwrap();
    h.deallocate(a1, 8, 8);
    let a2 = h.allocate(8, 8).unwrap();
    assert_eq!(a1, a2);
}

#[test]
fn heap_respects_alignment_and_capacity() {
    let mut h = FreeListHeap::new();
    h.init(0x1000, 0x1000);
    let a = h.allocate(24, 64).unwrap();
    assert_eq!(a % 64, 0);
    assert!(a >= 0x1000 && a + 24 <= 0x2000);
    assert!(h.allocate(0x2000, 8).is_none());
}

#[test]
fn heap_blocks_do_not_overlap() {
    let mut h = FreeListHeap::new();
    h.init(0x1000, 0x1000);
    let a = h.allocate(100, 8).unwrap();
    let b = h.allocate(100, 8).unwrap();
    assert!(a + 100 <= b || b + 100 <= a);
}

fn boot_info_bytes() -> Vec<u8> {
    let mut b = Vec::new();
    b.extend_from_slice(&0u32.to_le_bytes()); // total size, patched below
    b.extend_from_slice(&0u32.to_le_bytes());
    // A boot-loader-name tag (type 2), 13 bytes, padded to 16.
    b.extend_from_slice(&2u32.to_le_bytes());
    b.extend_from_slice(&13u32.to_le_bytes());
    b.extend_from_slice(b"GRUB\0");
    b.extend_from_slice(&[0u8; 3]);
    // The memory-map tag: two entries of 24 bytes.
    b.extend_from_slice(&6u32.to_le_bytes());
    b.extend_from_slice(&(16u32 + 48).to_le_bytes());
    b.extend_from_slice(&24u32.to_le_bytes());
    b.extend_from_slice(&0u32.to_le_bytes());
    for (base, len, kind) in [(0u64, 0x9_FC00u64, 1u32), (0x10_0000, 0x7EE_0000, 1)] {
        b.extend_from_slice(&base.to_le_bytes());
        b.extend_from_slice(&len.to_le_bytes());
        b.extend_from_slice(&kind.to_le_bytes());
        b.extend_from_slice(&0u32.to_le_bytes());
    }
    // End tag.
    b.extend_from_slice(&0u32.to_le_bytes());
    b.extend_from_slice(&8u32.to_le_bytes());
    let total = b.len() as u32;
    b[0..4].copy_from_slice(&total.to_le_bytes());
    b
}

#[test]
fn multiboot_memory_map_is_read() {
    let bytes = boot_info_bytes();
    let info = BootInfo::new(0x9000, bytes.len() as u32);
    assert_eq!(info.region(), (0x9000, 0x9000 + bytes.len() as u64));
    let mut it = info.memory_map(&bytes).expect("memory map tag present");
    let r1 = it.next_region(&bytes).unwrap();
    assert_eq!(r1, MemoryRegion { base: 0, length: 0x9_FC00, kind: 1 });
    let r2 = it.next_region(&bytes).unwrap();
    assert_eq!(r2.base, 0x10_0000);
    assert_eq!(r2.end(), 0x10_0000 + 0x7EE_0000);
    assert!(r2.is_usable());
    assert!(it.next_region(&bytes).is_none());
    let all = info.memory_regions(&bytes).expect("memory map tag present");
    assert_eq!(all, vec![r1, r2]);
}

#[test]
fn multiboot_without_memory_map_gives_none() {
    let mut b = Vec::new();
    b.extend_from_slice(&16u32.to_le_bytes());
    b.extend_from_slice(&0u32.to_le_bytes());
    b.extend_from_slice(&0u32.to_le_bytes());
    b.extend_from_slice(&8u32.to_le_bytes());
    let info = BootInfo::new(0, 16);
    assert!(info.memory_map(&b).is_none());
    assert!(info.memory_regions(&b).is_none());
}

#[test]
fn region_end_saturates() {
    let r = MemoryRegion { base: u64::MAX - 1, length: 10, kind: 2 };
    assert_eq!(r.end(), u64::MAX);
    assert!(!r.is_usable());
}
