use sos::memory::{BootInfoFrameAllocator, MemoryRegion, MemoryRegionType, PhysFrame};

fn region(start: u64, end: u64, t: MemoryRegionType) -> MemoryRegion {
    MemoryRegion { start_frame_number: start, end_frame_number: end, region_type: t }
}

fn sample_map() -> Vec<MemoryRegion> {
    vec![
        region(0, 1, MemoryRegionType::FrameZero),
        region(1, 3, MemoryRegionType::Usable),
        region(3, 5, MemoryRegionType::Reserved),
        region(5, 6, MemoryRegionType::Usable),
        region(6, 8, MemoryRegionType::Kernel),
    ]
}

#[test]
fn frames_come_in_map_order() {
    let mut fa = BootInfoFrameAllocator::init(sample_map());
    assert_eq!(fa.allocate_frame(), Some(PhysFrame { start_address: 0x1000 }));
    assert_eq!(fa.allocate_frame(), Some(PhysFrame { start_address: 0x2000 }));
    assert_eq!(fa.allocate_frame(), Some(PhysFrame { start_address: 0x5000 }));
}

#[test]
fn frames_are_exhausted_for_good() {
    let mut fa = BootInfoFrameAllocator::init(sample_map());
    for _ in 0..3 {
        assert!(fa.allocate_frame().is_some());
    }
    for _ in 0..5 {
        assert_eq!(fa.allocate_frame(), None);
    }
}

#[test]
fn frames_are_unique_and_usable() {
    let map = sample_map();
    let mut fa = BootInfoFrameAllocator::init(map.clone());
    let mut seen: Vec<u64> = Vec::new();
    while let Some(f) = fa.allocate_frame() {
        assert!(!seen.contains(&f.start_address));
        assert_eq!(f.start_address % 4096, 0);
        assert!(map.iter().any(|r| r.region_type == MemoryRegionType::Usable
            && r.start_frame_number * 4096 <= f.start_address
            && f.start_address < r.end_frame_number * 4096));
        seen.push(f.start_address);
    }
    assert_eq!(seen.len(), 3);
}

#[test]
fn empty_map_has_no_frame() {
    let mut fa = BootInfoFrameAllocator::init(Vec::new());
    assert_eq!(fa.allocate_frame(), None);
}

#[test]
fn containing_address_rounds_down() {
    assert_eq!(PhysFrame::containing_address(0x1234), PhysFrame { start_address: 0x1000 });
    assert_eq!(PhysFrame::containing_address(0x2000), PhysFrame { start_address: 0x2000 });
}

#[test]
fn cursor_advances_on_every_call() {
    let mut fa = BootInfoFrameAllocator::init(vec![
        region(2, 4, MemoryRegionType::Usable),
        region(4, 8, MemoryRegionType::Reserved),
        region(8, 10, MemoryRegionType::Usable),
    ]);
    assert_eq!(fa.cursor(), 0);
    let frames: Vec<u64> = (0..4).map(|_| fa.allocate_frame().unwrap().start_address).collect();
    assert_eq!(frames, vec![0x2000, 0x3000, 0x8000, 0x9000]);
    assert_eq!(fa.cursor(), 4);
    assert_eq!(fa.allocate_frame(), None);
    assert_eq!(fa.cursor(), 5);
    assert_eq!(fa.allocate_frame(), None);
    assert_eq!(fa.cursor(), 6);
}
