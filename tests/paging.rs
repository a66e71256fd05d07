use sos::interrupts::{
    create_page, page_fault_handler, FaultAction, InterruptIndex, MemoryContext, INSTRUCTION_FETCH,
    PROTECTION_VIOLATION,
};
use sos::memory::{BootInfoFrameAllocator, MemoryRegion, MemoryRegionType, PhysFrame};
use sos::paging::{MapperFlush, MappingError, OffsetPageTable, Page, PRESENT, WRITABLE};

fn allocator(frames: u64) -> BootInfoFrameAllocator {
    BootInfoFrameAllocator::init(vec![MemoryRegion {
        start_frame_number: 0x100,
        end_frame_number: 0x100 + frames,
        region_type: MemoryRegionType::Usable,
    }])
}

fn context(frames: u64) -> MemoryContext {
    MemoryContext {
        frame_allocator: allocator(frames),
        mapper: OffsetPageTable::new(0x1000, 0xffff_8000_0000_0000),
    }
}

#[test]
fn map_to_uses_fresh_frames_for_tables() {
    let mut fa = allocator(16);
    let mut m = OffsetPageTable::new(0x1000, 0);
    let page = Page::containing_address(0x4444_0000_1234);
    let frame = PhysFrame { start_address: 0x9000 };
    let flush = m.map_to(page, frame, PRESENT | WRITABLE, &mut fa).unwrap();
    assert_eq!(flush.page, Page { start_address: 0x4444_0000_1000 });
    assert_eq!(flush.frame, frame);
    assert_eq!(m.translate_page(page), Some(frame));
    // Three tables were built from the first three frames.
    assert_eq!(fa.allocate_frame(), Some(PhysFrame { start_address: 0x103000 }));
}

#[test]
fn map_to_neighbour_reuses_tables() {
    let mut fa = allocator(16);
    let mut m = OffsetPageTable::new(0x1000, 0);
    m.map_to(Page { start_address: 0x20_0000 }, PhysFrame { start_address: 0x9000 }, PRESENT, &mut fa)
        .unwrap();
    m.map_to(Page { start_address: 0x20_1000 }, PhysFrame { start_address: 0xa000 }, PRESENT, &mut fa)
        .unwrap();
    assert_eq!(fa.allocate_frame(), Some(PhysFrame { start_address: 0x103000 }));
}

#[test]
fn map_to_refuses_mapped_page() {
    let mut fa = allocator(16);
    let mut m = OffsetPageTable::new(0x1000, 0);
    let page = Page { start_address: 0x5000 };
    assert!(m.map_to(page, PhysFrame { start_address: 0x9000 }, PRESENT, &mut fa).is_ok());
    assert_eq!(
        m.map_to(page, PhysFrame { start_address: 0xa000 }, PRESENT, &mut fa),
        Err(MappingError::AlreadyMapped)
    );
    assert_eq!(m.translate_page(page), Some(PhysFrame { start_address: 0x9000 }));
}

#[test]
fn map_to_fails_without_frames() {
    let mut fa = allocator(2);
    let mut m = OffsetPageTable::new(0x1000, 0);
    let page = Page { start_address: 0x5000 };
    assert_eq!(
        m.map_to(page, PhysFrame { start_address: 0x9000 }, PRESENT, &mut fa),
        Err(MappingError::FrameAllocationFailed)
    );
    assert_eq!(m.translate_page(page), None);
}

#[test]
fn demand_paging_backs_unmapped_pages() {
    let mut ctx = context(16);
    let a = page_fault_handler(&mut ctx, 0xdead_beef, 0);
    assert_eq!(
        a,
        FaultAction::Resume(MapperFlush {
            page: Page { start_address: 0xdead_b000 },
            frame: PhysFrame { start_address: 0x100000 },
        })
    );
    assert_eq!(
        ctx.mapper.translate_page(Page { start_address: 0xdead_b000 }),
        Some(PhysFrame { start_address: 0x100000 })
    );
    let b = page_fault_handler(&mut ctx, 0x1234_5678, 0);
    // The first fault used one frame for the page and three for its tables.
    assert_eq!(
        b,
        FaultAction::Resume(MapperFlush {
            page: Page { start_address: 0x1234_5000 },
            frame: PhysFrame { start_address: 0x104000 },
        })
    );
    assert_eq!(
        ctx.mapper.translate_page(Page { start_address: 0x1234_5000 }),
        Some(PhysFrame { start_address: 0x104000 })
    );
    assert_eq!(
        ctx.mapper.translate_page(Page { start_address: 0xdead_b000 }),
        Some(PhysFrame { start_address: 0x100000 })
    );
    assert_eq!(page_fault_handler(&mut ctx, 0xdead_beef, PROTECTION_VIOLATION), FaultAction::Halt);
    assert_eq!(page_fault_handler(&mut ctx, 0xdead_beef, 0), FaultAction::Halt);
}

#[test]
fn fatal_bits_halt() {
    let mut ctx = context(16);
    assert_eq!(page_fault_handler(&mut ctx, 0x5000, INSTRUCTION_FETCH), FaultAction::Halt);
    assert_eq!(page_fault_handler(&mut ctx, 0x5000, PROTECTION_VIOLATION | 0x2), FaultAction::Halt);
    assert_eq!(ctx.mapper.translate_page(Page { start_address: 0x5000 }), None);
    // A write to an absent page is fine.
    assert!(matches!(page_fault_handler(&mut ctx, 0x5000, 0x2), FaultAction::Resume(_)));
}

#[test]
fn demand_paging_halts_when_frames_run_out() {
    let mut ctx = context(3);
    assert!(create_page(&mut ctx, 0x7000).is_none());
    assert_eq!(page_fault_handler(&mut ctx, 0x9000, 0), FaultAction::Halt);
}

#[test]
fn interrupt_vectors() {
    assert_eq!(InterruptIndex::Timer.as_u8(), 32);
    assert_eq!(InterruptIndex::Keyboard.as_u8(), 33);
    assert_eq!(InterruptIndex::COM1.as_usize(), 36);
}

#[test]
fn demand_paging_needs_frames_for_missing_tables_only() {
    // Six frames: four for the first page and its tables, one for its neighbour.
    let mut ctx = context(6);
    assert!(matches!(page_fault_handler(&mut ctx, 0x20_0000, 0), FaultAction::Resume(_)));
    // Same level-1 table: one frame left over after this one.
    assert!(matches!(page_fault_handler(&mut ctx, 0x20_1000, 0), FaultAction::Resume(_)));
    // A new level-2 and level-1 table would be needed: one frame is not enough.
    assert_eq!(page_fault_handler(&mut ctx, 0x4000_0000, 0), FaultAction::Halt);
}
