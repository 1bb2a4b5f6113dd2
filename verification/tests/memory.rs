use anasos_kernel::memory_map::FirmwareMemoryArea;
use anasos_kernel::memory_map::FrameRange;
use anasos_kernel::memory_map::MemoryMap;
use anasos_kernel::memory_map::MemoryRegion;
use anasos_kernel::memory_map::MemoryRegionType;
use anasos_kernel::frame_alloc::BootInfoFrameAllocator;
use anasos_kernel::frame_alloc::FrameAllocError;

fn usable_regions_disjoint(map: &MemoryMap) -> bool {
    let regs = map.regions();
    for i in 0..regs.len() {
        for j in 0..regs.len() {
            if i != j && regs[i].region_type == MemoryRegionType::Usable
                && regs[j].region_type == MemoryRegionType::Usable
            {
                let a = regs[i].range;
                let b = regs[j].range;
                let disjoint =
                    a.end <= b.start || b.end <= a.start || a.start >= a.end || b.start >= b.end;
                if !disjoint {
                    return false;
                }
            }
        }
    }
    true
}

#[test]
fn firmware_map_classifies_by_type_code() {
    let areas = vec![
        FirmwareMemoryArea { start: 0x0, length: 0x9f000, typ: 1 },
        FirmwareMemoryArea { start: 0x9f000, length: 0x1000, typ: 2 },
        FirmwareMemoryArea { start: 0x100000, length: 0x100000, typ: 1 },
        FirmwareMemoryArea { start: 0xe0000000, length: 0x1000, typ: 3 },
    ];
    let map = MemoryMap::from_memory_map_tag(&areas);
    assert!(usable_regions_disjoint(&map));
    // two usable areas of 0x9f + 0x100 pages
    assert_eq!(map.total_usable_pages(), 0x9f + 0x100);
}

#[test]
fn add_region_clips_usable_overlap() {
    let areas = vec![FirmwareMemoryArea { start: 0x100000, length: 0x100000, typ: 1 }];
    let mut map = MemoryMap::from_memory_map_tag(&areas);
    assert_eq!(map.total_usable_pages(), 0x100);
    // reserve a framebuffer-like range inside the usable region
    map.add_region(MemoryRegion {
        range: FrameRange::new(0x180000, 0x1c0000),
        region_type: MemoryRegionType::Reserved,
    });
    assert!(usable_regions_disjoint(&map));
    assert_eq!(map.total_usable_pages(), 0x100 - 0x40);
}

#[test]
fn add_region_sequences_keep_usable_disjoint() {
    let mut map = MemoryMap::new();
    map.add_region(MemoryRegion {
        range: FrameRange::new(0x0, 0x10000),
        region_type: MemoryRegionType::Usable,
    });
    map.add_region(MemoryRegion {
        range: FrameRange::new(0x8000, 0x20000),
        region_type: MemoryRegionType::Usable,
    });
    map.add_region(MemoryRegion {
        range: FrameRange::new(0x4000, 0xc000),
        region_type: MemoryRegionType::Reserved,
    });
    map.add_region(MemoryRegion {
        range: FrameRange::new(0x4000, 0x6000),
        region_type: MemoryRegionType::Usable,
    });
    assert!(usable_regions_disjoint(&map));
}

#[test]
fn frame_range_reports_its_bounds() {
    let r = FrameRange::new(0x1000, 0x5000);
    assert_eq!(r.start_addr(), 0x1000);
    assert_eq!(r.end_addr(), 0x5000);
}

#[test]
fn allocator_fails_without_usable_regions() {
    let areas = vec![FirmwareMemoryArea { start: 0x0, length: 0x1000, typ: 2 }];
    let map = MemoryMap::from_memory_map_tag(&areas);
    let kernel: Vec<FrameRange> = Vec::new();
    match BootInfoFrameAllocator::init(&map, &kernel) {
        Err(FrameAllocError::NoUsableRegions) => {}
        _ => panic!("expected NoUsableRegions"),
    }
}

#[test]
fn allocator_walks_usable_frames_in_order() {
    // one usable region, kernel occupying its head
    let areas = vec![FirmwareMemoryArea { start: 0x100000, length: 0x100000, typ: 1 }];
    let map = MemoryMap::from_memory_map_tag(&areas);
    let kernel = vec![FrameRange::new(0x100000, 0x110000)];
    let mut fa = BootInfoFrameAllocator::init(&map, &kernel).unwrap();
    let mut expected: u64 = 0x110000;
    let mut issued: Vec<u64> = Vec::new();
    while expected < 0x200000 {
        let f = fa.allocate_frame().unwrap();
        assert_eq!(f, expected);
        assert_eq!(f % 4096, 0);
        assert!(!issued.contains(&f));
        issued.push(f);
        expected += 0x1000;
    }
    assert_eq!(issued.len(), 0xf0);
    match fa.allocate_frame() {
        Err(FrameAllocError::Exhausted) => {}
        _ => panic!("expected exhaustion after the last usable frame"),
    }
    // exhaustion is final
    match fa.allocate_frame() {
        Err(FrameAllocError::Exhausted) => {}
        _ => panic!("expected exhaustion to persist"),
    }
}

#[test]
fn allocator_skips_partial_and_reserved_frames() {
    // an unaligned usable region: only whole aligned frames come out
    let areas = vec![FirmwareMemoryArea { start: 0x1800, length: 0x3800, typ: 1 }];
    let map = MemoryMap::from_memory_map_tag(&areas);
    let kernel: Vec<FrameRange> = Vec::new();
    let mut fa = BootInfoFrameAllocator::init(&map, &kernel).unwrap();
    // region [0x1800, 0x5000): aligned whole frames are 0x2000..0x5000
    assert_eq!(fa.allocate_frame().unwrap(), 0x2000);
    assert_eq!(fa.allocate_frame().unwrap(), 0x3000);
    assert_eq!(fa.allocate_frame().unwrap(), 0x4000);
    assert!(fa.allocate_frame().is_err());
}
