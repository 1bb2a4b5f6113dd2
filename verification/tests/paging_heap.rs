use anasos_kernel::memory_map::FirmwareMemoryArea;
use anasos_kernel::memory_map::FrameRange;
use anasos_kernel::memory_map::MemoryMap;
use anasos_kernel::frame_alloc::BootInfoFrameAllocator;
use anasos_kernel::paging::map_framebuffer;
use anasos_kernel::paging::is_identity_mapped;
use anasos_kernel::paging::MapToError;
use anasos_kernel::paging::PageFlags;
use anasos_kernel::paging::PageMapper;
use anasos_kernel::heap::init_heap;
use anasos_kernel::heap::HeapAllocator;
use anasos_kernel::heap::HeapError;
use anasos_kernel::heap::HEAP_SIZE;
use anasos_kernel::heap::HEAP_START;

fn ample_allocator() -> BootInfoFrameAllocator {
    let areas = vec![FirmwareMemoryArea { start: 0x100000, length: 0x400000, typ: 1 }];
    let map = MemoryMap::from_memory_map_tag(&areas);
    let kernel = vec![FrameRange::new(0x100000, 0x110000)];
    BootInfoFrameAllocator::init(&map, &kernel).unwrap()
}

#[test]
fn map_and_translate_round_trip() {
    let mut mapper = PageMapper::init(0);
    let mut fa = ample_allocator();
    let frame = fa.allocate_frame().unwrap();
    mapper.map_to(0x4000_0000, frame, PageFlags::kernel_data(), &mut fa).unwrap();
    assert_eq!(mapper.translate_addr(0x4000_0000), Some(frame));
    assert_eq!(mapper.translate_addr(0x4000_0123), Some(frame + 0x123));
    assert_eq!(mapper.translate_addr(0x4000_0fff), Some(frame + 0xfff));
    assert_eq!(mapper.translate_addr(0x4000_1000), None);
    assert_eq!(mapper.translate_addr(0x3fff_f000), None);
}

#[test]
fn typed_translation_matches_untyped() {
    let mut mapper = PageMapper::init(0);
    let mut fa = ample_allocator();
    let frame = fa.allocate_frame().unwrap();
    mapper.map_to(0x4000_0000, frame, PageFlags::kernel_data(), &mut fa).unwrap();
    let pa = mapper.translate_virt(x86_64::VirtAddr::new(0x4000_0123)).unwrap();
    assert_eq!(pa.as_u64(), frame + 0x123);
    assert!(mapper.translate_virt(x86_64::VirtAddr::new(0x5000_0000)).is_none());
}

#[test]
fn map_to_rejects_conflicting_mapping() {
    let mut mapper = PageMapper::init(0);
    let mut fa = ample_allocator();
    mapper.map_to(0x5000_0000, 0x110000, PageFlags::kernel_data(), &mut fa).unwrap();
    match mapper.map_to(0x5000_0000, 0x111000, PageFlags::kernel_data(), &mut fa) {
        Err(MapToError::PageAlreadyMapped(f)) => assert_eq!(f, 0x110000),
        _ => panic!("expected PageAlreadyMapped"),
    }
    // remapping to the same frame is not a conflict
    mapper.map_to(0x5000_0000, 0x110000, PageFlags::device_memory(), &mut fa).unwrap();
}

#[test]
fn map_to_reports_frame_exhaustion() {
    let mut mapper = PageMapper::init(0);
    // a map with no usable frame at all: init succeeds, allocation fails
    let areas = vec![FirmwareMemoryArea { start: 0x1000, length: 0x800, typ: 1 }];
    let map = MemoryMap::from_memory_map_tag(&areas);
    let kernel: Vec<FrameRange> = Vec::new();
    let mut fa = BootInfoFrameAllocator::init(&map, &kernel).unwrap();
    match mapper.map_to(0x4000_0000, 0x200000, PageFlags::kernel_data(), &mut fa) {
        Err(MapToError::FrameAllocationFailed) => {}
        _ => panic!("expected FrameAllocationFailed"),
    }
    assert_eq!(mapper.translate_addr(0x4000_0000), None);
}

#[test]
fn framebuffer_three_pages_translate_each() {
    let mut mapper = PageMapper::init(0);
    let mut fa = ample_allocator();
    let phys: u64 = 0xfd00_0000;
    let virt: u64 = 0xfd00_0000;
    map_framebuffer(phys, 3 * 4096, virt, &mut mapper, &mut fa).unwrap();
    assert_eq!(mapper.translate_addr(virt), Some(phys));
    assert_eq!(mapper.translate_addr(virt + 0x1000), Some(phys + 0x1000));
    assert_eq!(mapper.translate_addr(virt + 0x2000), Some(phys + 0x2000));
    assert_eq!(mapper.translate_addr(virt + 0x2fff), Some(phys + 0x2fff));
    assert_eq!(mapper.translate_addr(virt + 0x3000), None);
    assert!(is_identity_mapped(virt, &mapper));
    assert!(is_identity_mapped(virt + 0x1234, &mapper));
}

#[test]
fn framebuffer_mapping_reports_a_conflicting_page() {
    let mut mapper = PageMapper::init(0);
    let mut fa = ample_allocator();
    // the middle page of the run is already mapped elsewhere
    mapper.map_to(0xfd00_1000, 0x110000, PageFlags::kernel_data(), &mut fa).unwrap();
    match map_framebuffer(0xfd00_0000, 3 * 4096, 0xfd00_0000, &mut mapper, &mut fa) {
        Err(MapToError::PageAlreadyMapped(f)) => assert_eq!(f, 0x110000),
        _ => panic!("expected PageAlreadyMapped"),
    }
}

#[test]
fn framebuffer_size_rounds_up_to_whole_pages() {
    let mut mapper = PageMapper::init(0);
    let mut fa = ample_allocator();
    map_framebuffer(0xfd00_0000, 4097, 0xfd00_0000, &mut mapper, &mut fa).unwrap();
    assert!(mapper.translate_addr(0xfd00_0000).is_some());
    assert!(mapper.translate_addr(0xfd00_1000).is_some());
    assert!(mapper.translate_addr(0xfd00_2000).is_none());
}

#[test]
fn heap_init_maps_every_heap_page() {
    let mut mapper = PageMapper::init(0);
    let mut fa = ample_allocator();
    let heap = init_heap(&mut mapper, &mut fa).unwrap();
    let pages = HEAP_SIZE / 4096;
    for k in 0..pages {
        assert!(mapper.translate_addr(HEAP_START + k * 4096).is_some());
    }
    drop(heap);
}

#[test]
fn heap_init_fails_when_frames_run_out() {
    let mut mapper = PageMapper::init(0);
    let areas = vec![FirmwareMemoryArea { start: 0x100000, length: 0x3000, typ: 1 }];
    let map = MemoryMap::from_memory_map_tag(&areas);
    let kernel: Vec<FrameRange> = Vec::new();
    let mut fa = BootInfoFrameAllocator::init(&map, &kernel).unwrap();
    match init_heap(&mut mapper, &mut fa) {
        Err(MapToError::FrameAllocationFailed) => {}
        _ => panic!("expected FrameAllocationFailed"),
    }
}

#[test]
fn heap_round_trip_restores_all_space() {
    let mut h = HeapAllocator::new(HEAP_START, HEAP_SIZE);
    // the whole heap fits exactly once
    let p = h.allocate(HEAP_SIZE, 8).unwrap();
    assert_eq!(p, HEAP_START);
    match h.allocate(1, 1) {
        Err(HeapError::OutOfMemory) => {}
        _ => panic!("expected OutOfMemory"),
    }
    h.deallocate(p, HEAP_SIZE, 8);
    // after the balanced pair the whole heap fits again
    let p2 = h.allocate(HEAP_SIZE, 8).unwrap();
    assert_eq!(p2, HEAP_START);
}

#[test]
fn heap_coalesces_adjacent_blocks() {
    let mut h = HeapAllocator::new(HEAP_START, HEAP_SIZE);
    let a = h.allocate(100, 1).unwrap();
    let b = h.allocate(100, 1).unwrap();
    let c = h.allocate(100, 1).unwrap();
    h.deallocate(a, 100, 1);
    h.deallocate(c, 100, 1);
    h.deallocate(b, 100, 1);
    // only if the three freed blocks merged with each other and the rest can
    // a single allocation of the whole heap succeed
    let p = h.allocate(HEAP_SIZE, 1).unwrap();
    assert_eq!(p, HEAP_START);
}

#[test]
fn heap_live_allocations_never_overlap() {
    let mut h = HeapAllocator::new(HEAP_START, HEAP_SIZE);
    let mut live: Vec<(u64, u64)> = Vec::new();
    for i in 0..20u64 {
        let size = 16 + (i % 5) * 24;
        let p = h.allocate(size, 8).unwrap();
        assert_eq!(p % 8, 0);
        assert!(p >= HEAP_START && p + size <= HEAP_START + HEAP_SIZE);
        for &(q, qs) in &live {
            assert!(p + size <= q || q + qs <= p, "overlapping live allocations");
        }
        live.push((p, size));
    }
    for &(p, s) in &live {
        h.deallocate(p, s, 8);
    }
    assert_eq!(h.allocate(HEAP_SIZE, 1).unwrap(), HEAP_START);
}

#[test]
fn heap_honors_alignment() {
    let mut h = HeapAllocator::new(HEAP_START + 8, HEAP_SIZE);
    let p = h.allocate(10, 256).unwrap();
    assert_eq!(p % 256, 0);
    let q = h.allocate(10, 4096).unwrap();
    assert_eq!(q % 4096, 0);
}
