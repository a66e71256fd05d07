use vstd::prelude::*;
use crate::memory::{lemma_frames_unique, nth_frame, total_frames, BootInfoFrameAllocator, PAGE_SIZE};
use crate::paging::{is_mapped, missing_tables, Leaf, MapperFlush, MappingError, OffsetPageTable, Page, PRESENT, WRITABLE};

verus! {

/// Vector of the first interrupt line of the primary interrupt controller.
pub const PIC_1_OFFSET: u8 = 32;

/// Vector of the first interrupt line of the secondary interrupt controller.
pub const PIC_2_OFFSET: u8 = 40;

/// Page-fault error bit: the page was present and the access broke its protection.
pub const PROTECTION_VIOLATION: u64 = 0x1;

/// Page-fault error bit: the access was a write.
pub const CAUSED_BY_WRITE: u64 = 0x2;

/// Page-fault error bit: the access came from user mode.
pub const USER_MODE: u64 = 0x4;

/// Page-fault error bit: a reserved bit was set in a table entry.
pub const MALFORMED_TABLE: u64 = 0x8;

/// Page-fault error bit: the access was an instruction fetch.
pub const INSTRUCTION_FETCH: u64 = 0x10;

/// The hardware interrupt lines the kernel handles.
#[derive(Clone, Copy, Debug, PartialEq, Eq)]
pub enum InterruptIndex {
    Timer,
    Keyboard,
    COM1,
}

impl InterruptIndex {
    pub open spec fn spec_vector(self) -> u8 {
        match self {
            InterruptIndex::Timer => PIC_1_OFFSET,
            InterruptIndex::Keyboard => (PIC_1_OFFSET + 1) as u8,
            InterruptIndex::COM1 => (PIC_1_OFFSET + 4) as u8,
        }
    }

    /// The interrupt vector of this line.
    pub fn as_u8(self) -> (r: u8)
        ensures
            r == self.spec_vector(),
    {
        match self {
            InterruptIndex::Timer => PIC_1_OFFSET,
            InterruptIndex::Keyboard => PIC_1_OFFSET + 1,
            InterruptIndex::COM1 => PIC_1_OFFSET + 4,
        }
    }

    /// The interrupt vector of this line, as an index into the descriptor table.
    pub fn as_usize(self) -> (r: usize)
        ensures
            r == self.spec_vector() as usize,
    {
        self.as_u8() as usize
    }
}

/// The memory state that page faults act on: the frame allocator and the active address space.
pub struct MemoryContext {
    pub frame_allocator: BootInfoFrameAllocator,
    pub mapper: OffsetPageTable,
}

impl MemoryContext {
    pub open spec fn wf(&self) -> bool {
        self.frame_allocator.wf() && self.mapper.wf()
    }
}

/// What the kernel does after a page fault.
#[derive(Clone, Copy, Debug, PartialEq, Eq)]
pub enum FaultAction {
    /// A fresh frame backs the page now: flush its translation and resume.
    Resume(MapperFlush),
    /// The fault cannot be resolved: report it and halt.
    Halt,
}

/// The error bits that make a fault fatal whatever the page's state.
pub open spec fn fatal_bits(error_code: u64) -> bool {
    error_code & (PROTECTION_VIOLATION | INSTRUCTION_FETCH) != 0
}

pub open spec fn page_of(addr: u64) -> u64 {
    (addr - addr % PAGE_SIZE) as u64
}

/// How a page fault at `addr` with `error_code` takes the memory state from `old` to `new`.
pub open spec fn fault_post(
    old: MemoryContext,
    new: MemoryContext,
    addr: u64,
    error_code: u64,
    act: FaultAction,
) -> bool {
    let page = page_of(addr);
    let map = old.frame_allocator.map();
    &&& new.wf()
    &&& new.frame_allocator.map() == map
    &&& old.frame_allocator.next() <= new.frame_allocator.next()
    &&& new.frame_allocator.next() <= old.frame_allocator.next() + 4
    &&& fatal_bits(error_code) ==> act is Halt && new == old
    &&& is_mapped(old.mapper.leaves(), page) ==> act is Halt
    &&& !fatal_bits(error_code) && !is_mapped(old.mapper.leaves(), page) ==> (act is Resume <==> old.frame_allocator.next()
        + 1 + missing_tables(old.mapper.tables(), page) <= total_frames(map))
    &&& !fatal_bits(error_code) && !is_mapped(old.mapper.leaves(), page) && act is Halt
        ==> new.frame_allocator.next() >= total_frames(map)
    &&& act is Resume ==> {
        &&& act->Resume_0.page.start_address == page
        &&& act->Resume_0.frame.start_address == nth_frame(map, old.frame_allocator.next())->0
        &&& new.frame_allocator.next() == old.frame_allocator.next() + 1 + missing_tables(
            old.mapper.tables(),
            page,
        )
        &&& new.mapper.leaves() == old.mapper.leaves().push(
            Leaf {
                page,
                frame: nth_frame(map, old.frame_allocator.next())->0,
                flags: PRESENT | WRITABLE,
            },
        )
    }
    &&& act is Halt ==> new.mapper.leaves() == old.mapper.leaves()
}

/// Backs the page that holds `addr` with a fresh writable frame.
pub fn create_page(ctx: &mut MemoryContext, addr: u64) -> (r: Option<MapperFlush>)
    requires
        old(ctx).wf(),
    ensures
        final(ctx).wf(),
        final(ctx).frame_allocator.map() == old(ctx).frame_allocator.map(),
        old(ctx).frame_allocator.next() <= final(ctx).frame_allocator.next(),
        final(ctx).frame_allocator.next() <= old(ctx).frame_allocator.next() + 4,
        is_mapped(old(ctx).mapper.leaves(), page_of(addr)) ==> r is None,
        old(ctx).frame_allocator.next() >= total_frames(old(ctx).frame_allocator.map()) ==> r is None,
        !is_mapped(old(ctx).mapper.leaves(), page_of(addr)) ==> (r is Some <==> old(ctx).frame_allocator.next()
            + 1 + missing_tables(old(ctx).mapper.tables(), page_of(addr)) <= total_frames(old(ctx).frame_allocator.map())),
        !is_mapped(old(ctx).mapper.leaves(), page_of(addr)) && r is None ==> final(ctx).frame_allocator.next()
            >= total_frames(old(ctx).frame_allocator.map()),
        r is Some ==> {
            &&& r->0.page.start_address == page_of(addr)
            &&& r->0.frame.start_address == nth_frame(
                old(ctx).frame_allocator.map(),
                old(ctx).frame_allocator.next(),
            )->0
            &&& final(ctx).frame_allocator.next() == old(ctx).frame_allocator.next() + 1
                + missing_tables(old(ctx).mapper.tables(), page_of(addr))
            &&& final(ctx).mapper.leaves() == old(ctx).mapper.leaves().push(
                Leaf {
                    page: page_of(addr),
                    frame: nth_frame(
                        old(ctx).frame_allocator.map(),
                        old(ctx).frame_allocator.next(),
                    )->0,
                    flags: PRESENT | WRITABLE,
                },
            )
        },
        r is None ==> final(ctx).mapper.leaves() == old(ctx).mapper.leaves(),
{
    let page = Page::containing_address(addr);
    let flags = PRESENT | WRITABLE;
    let frame = match ctx.frame_allocator.allocate_frame() {
        Some(frame) => frame,
        None => return None,
    };
    match ctx.mapper.map_to(page, frame, flags, &mut ctx.frame_allocator) {
        Ok(flush) => Some(flush),
        Err(MappingError::AlreadyMapped) => {
            assert(is_mapped(old(ctx).mapper.leaves(), page_of(addr)));
            None
        },
        Err(MappingError::FrameAllocationFailed) => {
            assert(ctx.frame_allocator.next() >= total_frames(ctx.frame_allocator.map()));
            assert(ctx.frame_allocator.map() == old(ctx).frame_allocator.map());
            None
        },
    }
}

/// Decides a page fault at `addr` with `error_code`: a fault that is neither a protection
/// violation nor an instruction fetch is resolved by backing the page with a fresh frame;
/// every other fault, and every fault that cannot be resolved, halts.
pub fn page_fault_handler(ctx: &mut MemoryContext, addr: u64, error_code: u64) -> (r: FaultAction)
    requires
        old(ctx).wf(),
    ensures
        fault_post(*old(ctx), *final(ctx), addr, error_code, r),
{
    if error_code & (PROTECTION_VIOLATION | INSTRUCTION_FETCH) == 0 {
        match create_page(ctx, addr) {
            Some(flush) => FaultAction::Resume(flush),
            None => FaultAction::Halt,
        }
    } else {
        FaultAction::Halt
    }
}

/// Demand paging: a plain fault on an unbacked page is resolved, a plain fault on another
/// unbacked page afterwards is resolved too, with a different fresh frame, and a new fault on
/// the first page, now backed, is fatal, whether it reports a protection violation or not.
pub proof fn lemma_demand_paging(
    c0: MemoryContext,
    c1: MemoryContext,
    c2: MemoryContext,
    c3: MemoryContext,
    c4: MemoryContext,
    a: u64,
    b: u64,
    act1: FaultAction,
    act2: FaultAction,
    act3: FaultAction,
    act4: FaultAction,
)
    requires
        c0.wf(),
        page_of(a) != page_of(b),
        !is_mapped(c0.mapper.leaves(), page_of(a)),
        !is_mapped(c0.mapper.leaves(), page_of(b)),
        c0.frame_allocator.next() + 8 <= total_frames(c0.frame_allocator.map()),
        fault_post(c0, c1, a, 0, act1),
        fault_post(c1, c2, b, 0, act2),
        fault_post(c2, c3, a, PROTECTION_VIOLATION, act3),
        fault_post(c2, c4, a, 0, act4),
    ensures
        act1 is Resume,
        act2 is Resume,
        act3 is Halt,
        act4 is Halt,
        c2.mapper.leaves().len() == c0.mapper.leaves().len() + 2,
        c2.mapper.leaves()[c0.mapper.leaves().len() as int].page == page_of(a),
        c2.mapper.leaves()[c0.mapper.leaves().len() + 1int].page == page_of(b),
        c2.mapper.leaves()[c0.mapper.leaves().len() as int].frame != c2.mapper.leaves()[c0.mapper.leaves().len() + 1int].frame,
{
    assert(!fatal_bits(0)) by (bit_vector);
    assert(fatal_bits(PROTECTION_VIOLATION)) by (bit_vector);
    let leaves1 = c1.mapper.leaves();
    let leaves0 = c0.mapper.leaves();
    assert(leaves1[leaves0.len() as int].page == page_of(a));
    if is_mapped(leaves1, page_of(b)) {
        let i = choose|i: int| 0 <= i < leaves1.len() && #[trigger] leaves1[i].page == page_of(b);
        assert(leaves1[i] == leaves0[i]);
    }
    let leaves2 = c2.mapper.leaves();
    assert(leaves2[leaves0.len() as int] == leaves1[leaves0.len() as int]);
    assert(is_mapped(leaves2, page_of(a)));
    let map = c0.frame_allocator.map();
    let n0 = c0.frame_allocator.next();
    let n1 = c1.frame_allocator.next();
    lemma_frames_unique(map, n0, n1);
    assert(leaves2[leaves0.len() + 1int].frame == nth_frame(map, n1)->0);
}

} // verus!
