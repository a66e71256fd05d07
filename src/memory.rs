use vstd::prelude::*;

verus! {

/// Size in bytes of a page and of a frame.
pub const PAGE_SIZE: u64 = 4096;

/// Largest number of entries in the firmware memory map.
pub const MAX_REGIONS: usize = 64;

/// Frame numbers stay below this bound: physical addresses have 52 bits.
pub const MAX_FRAME_NUMBER: u64 = 0x100_0000_0000;

/// What the firmware says a range of physical memory holds.
#[derive(Clone, Copy, Debug, PartialEq, Eq, Structural)]
pub enum MemoryRegionType {
    Usable,
    InUse,
    Reserved,
    AcpiReclaimable,
    AcpiNvs,
    BadMemory,
    Kernel,
    KernelStack,
    PageTable,
    Bootloader,
    FrameZero,
    Empty,
    BootInfo,
    Package,
}

/// One entry of the firmware memory map: frames `start_frame_number .. end_frame_number`.
#[derive(Clone, Copy, Debug, PartialEq, Eq)]
pub struct MemoryRegion {
    pub start_frame_number: u64,
    pub end_frame_number: u64,
    pub region_type: MemoryRegionType,
}

/// A 4 KiB physical frame, named by its start address.
#[derive(Clone, Copy, Debug, PartialEq, Eq)]
pub struct PhysFrame {
    pub start_address: u64,
}

impl PhysFrame {
    /// The frame that holds physical address `addr`.
    pub fn containing_address(addr: u64) -> (r: PhysFrame)
        ensures
            r.start_address == addr - addr % PAGE_SIZE,
    {
        PhysFrame { start_address: addr - addr % PAGE_SIZE }
    }
}

pub open spec fn is_usable(r: MemoryRegion) -> bool {
    r.region_type == MemoryRegionType::Usable
}

/// Number of frames that region `r` contributes.
pub open spec fn frame_count(r: MemoryRegion) -> int {
    if is_usable(r) && r.start_frame_number < r.end_frame_number {
        r.end_frame_number - r.start_frame_number
    } else {
        0
    }
}

/// Number of usable frames in the whole map.
pub open spec fn total_frames(map: Seq<MemoryRegion>) -> int
    decreases map.len(),
{
    if map.len() == 0 {
        0
    } else {
        frame_count(map[0]) + total_frames(map.drop_first())
    }
}

/// Start address of the `n`-th usable frame, counting region by region in map order and by
/// ascending address inside a region.
pub open spec fn nth_frame(map: Seq<MemoryRegion>, n: int) -> Option<u64>
    decreases map.len(),
{
    if map.len() == 0 {
        None
    } else if n < frame_count(map[0]) {
        Some(((map[0].start_frame_number + n) * PAGE_SIZE) as u64)
    } else {
        nth_frame(map.drop_first(), n - frame_count(map[0]))
    }
}

/// A map the platform can produce: bounded in length, frames inside the physical address space,
/// usable regions in ascending order of address without overlap.
pub open spec fn map_wf(map: Seq<MemoryRegion>) -> bool {
    &&& map.len() <= MAX_REGIONS
    &&& forall|i: int| 0 <= i < map.len() ==> (#[trigger] map[i]).end_frame_number <= MAX_FRAME_NUMBER
    &&& usable_sorted(map)
}

/// Each usable region ends before any later usable region starts.
pub open spec fn usable_sorted(map: Seq<MemoryRegion>) -> bool {
    forall|i: int, j: int|
        0 <= i < j < map.len() && is_usable(map[i]) && is_usable(map[j])
            ==> #[trigger] map[i].end_frame_number <= #[trigger] map[j].start_frame_number
}

/// No two usable regions share a frame.
pub open spec fn usable_disjoint(map: Seq<MemoryRegion>) -> bool {
    forall|i: int, j: int|
        0 <= i < map.len() && 0 <= j < map.len() && i != j && is_usable(map[i]) && is_usable(map[j])
            ==> #[trigger] map[i].end_frame_number <= #[trigger] map[j].start_frame_number
            || map[j].end_frame_number <= map[i].start_frame_number
}

pub proof fn lemma_total_frames(map: Seq<MemoryRegion>)
    requires
        forall|i: int| 0 <= i < map.len() ==> (#[trigger] map[i]).end_frame_number <= MAX_FRAME_NUMBER,
    ensures
        0 <= total_frames(map) <= map.len() * MAX_FRAME_NUMBER,
    decreases map.len(),
{
    if map.len() > 0 {
        assert(map[0].end_frame_number <= MAX_FRAME_NUMBER);
        assert forall|i: int| 0 <= i < map.drop_first().len() implies (
        #[trigger] map.drop_first()[i]).end_frame_number <= MAX_FRAME_NUMBER by {
            assert(map.drop_first()[i] == map[i + 1]);
        }
        lemma_total_frames(map.drop_first());
    }
}

/// Frame `n` exists exactly when `n` is below the number of usable frames; it lies in a usable
/// region of the map and is page aligned.
pub proof fn lemma_nth_frame(map: Seq<MemoryRegion>, n: int)
    requires
        n >= 0,
        forall|i: int| 0 <= i < map.len() ==> (#[trigger] map[i]).end_frame_number <= MAX_FRAME_NUMBER,
    ensures
        nth_frame(map, n) is Some <==> n < total_frames(map),
        nth_frame(map, n) is Some ==> {
            let a = nth_frame(map, n)->0;
            &&& a % PAGE_SIZE == 0
            &&& exists|k: int|
                0 <= k < map.len() && is_usable(map[k]) && map[k].start_frame_number * PAGE_SIZE
                    <= a && a < #[trigger] map[k].end_frame_number * PAGE_SIZE
        },
    decreases map.len(),
{
    lemma_total_frames(map);
    if map.len() > 0 {
        assert forall|i: int| 0 <= i < map.drop_first().len() implies (
        #[trigger] map.drop_first()[i]).end_frame_number <= MAX_FRAME_NUMBER by {
            assert(map.drop_first()[i] == map[i + 1]);
        }
        lemma_total_frames(map.drop_first());
        let c = frame_count(map[0]);
        if n < c {
            let a = (map[0].start_frame_number + n) * PAGE_SIZE;
            assert(a <= MAX_FRAME_NUMBER * PAGE_SIZE) by (nonlinear_arith)
                requires
                    a == (map[0].start_frame_number + n) * PAGE_SIZE,
                    map[0].start_frame_number + n <= MAX_FRAME_NUMBER,
            ;
            assert(a % PAGE_SIZE as int == 0) by (nonlinear_arith)
                requires
                    a == (map[0].start_frame_number + n) * PAGE_SIZE,
                    map[0].start_frame_number + n >= 0,
            ;
            assert(map[0].end_frame_number * PAGE_SIZE > a) by (nonlinear_arith)
                requires
                    a == (map[0].start_frame_number + n) * PAGE_SIZE,
                    map[0].start_frame_number + n < map[0].end_frame_number,
            ;
            assert(map[0].start_frame_number * PAGE_SIZE <= a) by (nonlinear_arith)
                requires
                    a == (map[0].start_frame_number + n) * PAGE_SIZE,
                    n >= 0,
            ;
        } else {
            lemma_nth_frame(map.drop_first(), n - c);
            if nth_frame(map, n) is Some {
                let a = nth_frame(map, n)->0;
                let k = choose|k: int|
                    0 <= k < map.drop_first().len() && is_usable(map.drop_first()[k])
                        && map.drop_first()[k].start_frame_number * PAGE_SIZE <= a && a
                        < #[trigger] map.drop_first()[k].end_frame_number * PAGE_SIZE;
                assert(map.drop_first()[k] == map[k + 1]);
            }
        }
    }
}

/// Frames at two different cursor positions differ when no two usable regions overlap.
proof fn lemma_nth_frame_distinct(map: Seq<MemoryRegion>, i: int, j: int)
    requires
        map_wf(map),
        usable_disjoint(map),
        0 <= i < j < total_frames(map),
    ensures
        nth_frame(map, i)->0 != nth_frame(map, j)->0,
    decreases map.len(),
{
    lemma_nth_frame(map, i);
    lemma_nth_frame(map, j);
    let rest = map.drop_first();
    assert forall|k: int| 0 <= k < rest.len() implies (#[trigger] rest[k]).end_frame_number
        <= MAX_FRAME_NUMBER by {
        assert(rest[k] == map[k + 1]);
    }
    let c = frame_count(map[0]);
    if j < c {
        assert(nth_frame(map, i)->0 < nth_frame(map, j)->0) by (nonlinear_arith)
            requires
                nth_frame(map, i)->0 == (map[0].start_frame_number + i) * PAGE_SIZE,
                nth_frame(map, j)->0 == (map[0].start_frame_number + j) * PAGE_SIZE,
                i < j,
        ;
    } else if i < c {
        lemma_nth_frame(rest, j - c);
        let a = nth_frame(map, i)->0;
        let b = nth_frame(map, j)->0;
        let k = choose|k: int|
            0 <= k < rest.len() && is_usable(rest[k]) && rest[k].start_frame_number * PAGE_SIZE
                <= b && b < #[trigger] rest[k].end_frame_number * PAGE_SIZE;
        assert(rest[k] == map[k + 1]);
        let s0 = map[0].start_frame_number as int;
        let e0 = map[0].end_frame_number as int;
        let sk = map[k + 1].start_frame_number as int;
        let ek = map[k + 1].end_frame_number as int;
        assert(e0 <= sk || ek <= s0);
        assert(a == (s0 + i) * PAGE_SIZE);
        if e0 <= sk {
            assert(a < b) by (nonlinear_arith)
                requires
                    a == (s0 + i) * PAGE_SIZE,
                    s0 + i < e0,
                    e0 <= sk,
                    sk * PAGE_SIZE <= b,
            ;
        } else {
            assert(b < a) by (nonlinear_arith)
                requires
                    a == (s0 + i) * PAGE_SIZE,
                    i >= 0,
                    ek <= s0,
                    b < ek * PAGE_SIZE,
            ;
        }
    } else {
        assert(usable_sorted(rest)) by {
            assert forall|x: int, y: int|
                0 <= x < y < rest.len() && is_usable(rest[x]) && is_usable(rest[y])
                    implies #[trigger] rest[x].end_frame_number
                <= #[trigger] rest[y].start_frame_number by {
                assert(rest[x] == map[x + 1]);
                assert(rest[y] == map[y + 1]);
            }
        }
        assert(usable_disjoint(rest)) by {
            assert forall|x: int, y: int|
                0 <= x < rest.len() && 0 <= y < rest.len() && x != y && is_usable(rest[x])
                    && is_usable(rest[y]) implies #[trigger] rest[x].end_frame_number
                <= #[trigger] rest[y].start_frame_number || rest[y].end_frame_number
                <= rest[x].start_frame_number by {
                assert(rest[x] == map[x + 1]);
                assert(rest[y] == map[y + 1]);
            }
        }
        lemma_nth_frame_distinct(rest, i - c, j - c);
    }
}

/// Frame uniqueness: the frames handed out at two different cursor positions differ, and each
/// lies page aligned inside a usable region of the map.
pub proof fn lemma_frames_unique(map: Seq<MemoryRegion>, i: int, j: int)
    requires
        map_wf(map),
        0 <= i < total_frames(map),
        0 <= j < total_frames(map),
        i != j,
    ensures
        nth_frame(map, i) is Some,
        nth_frame(map, j) is Some,
        nth_frame(map, i) != nth_frame(map, j),
        ({
            let a = nth_frame(map, i)->0;
            &&& a % PAGE_SIZE == 0
            &&& exists|k: int|
                0 <= k < map.len() && is_usable(map[k]) && map[k].start_frame_number * PAGE_SIZE
                    <= a && a < #[trigger] map[k].end_frame_number * PAGE_SIZE
        }),
{
    lemma_nth_frame(map, i);
    lemma_nth_frame(map, j);
    lemma_sorted_disjoint(map);
    if i < j {
        lemma_nth_frame_distinct(map, i, j);
    } else {
        lemma_nth_frame_distinct(map, j, i);
    }
}

/// Usable regions in ascending order do not overlap.
pub proof fn lemma_sorted_disjoint(map: Seq<MemoryRegion>)
    requires
        usable_sorted(map),
    ensures
        usable_disjoint(map),
{
    assert forall|i: int, j: int|
        0 <= i < map.len() && 0 <= j < map.len() && i != j && is_usable(map[i]) && is_usable(
            map[j],
        ) implies #[trigger] map[i].end_frame_number <= #[trigger] map[j].start_frame_number
        || map[j].end_frame_number <= map[i].start_frame_number by {
        if i < j {
            assert(map[i].end_frame_number <= map[j].start_frame_number);
        } else {
            assert(map[j].end_frame_number <= map[i].start_frame_number);
        }
    }
}

/// Frame exhaustion: at and past the number of usable frames there is no frame.
pub proof fn lemma_frames_exhausted(map: Seq<MemoryRegion>, n: int)
    requires
        map_wf(map),
        n >= total_frames(map),
    ensures
        nth_frame(map, n) is None,
{
    lemma_total_frames(map);
    lemma_nth_frame(map, n);
}

/// Hands out the usable frames of the firmware memory map, one after the other, never twice.
pub struct BootInfoFrameAllocator {
    memory_map: Vec<MemoryRegion>,
    next: u64,
}

impl BootInfoFrameAllocator {
    /// The memory map the frames come from.
    pub closed spec fn map(&self) -> Seq<MemoryRegion> {
        self.memory_map@
    }

    /// The cursor: number of calls made so far, saturating at the largest `u64`.
    pub closed spec fn next(&self) -> int {
        self.next as int
    }

    pub open spec fn wf(&self) -> bool {
        &&& map_wf(self.map())
        &&& 0 <= self.next() <= u64::MAX
    }

    /// An allocator over `memory_map` that has handed out nothing yet.
    pub fn init(memory_map: Vec<MemoryRegion>) -> (r: Self)
        requires
            map_wf(memory_map@),
        ensures
            r.wf(),
            r.map() == memory_map@,
            r.next() == 0,
    {
        proof {
            lemma_total_frames(memory_map@);
        }
        BootInfoFrameAllocator { memory_map, next: 0 }
    }

    /// The `n`-th usable frame of the map, if there is one.
    fn usable_frame(&self, n: u64) -> (r: Option<PhysFrame>)
        requires
            map_wf(self.memory_map@),
        ensures
            r == match nth_frame(self.memory_map@, n as int) {
                Some(a) => Some(PhysFrame { start_address: a }),
                None => None::<PhysFrame>,
            },
    {
        let ghost map = self.memory_map@;
        let mut rem: u64 = n;
        let mut i: usize = 0;
        assert(map.subrange(0, map.len() as int) =~= map);
        while i < self.memory_map.len()
            invariant
                map == self.memory_map@,
                map_wf(map),
                0 <= i <= map.len(),
                nth_frame(map, n as int) == nth_frame(map.subrange(i as int, map.len() as int), rem as int),
            decreases map.len() - i,
        {
            let region = self.memory_map[i];
            let ghost tail = map.subrange(i as int, map.len() as int);
            assert(tail[0] == region);
            assert(tail.drop_first() =~= map.subrange(i + 1, map.len() as int));
            assert(region.end_frame_number <= MAX_FRAME_NUMBER);
            if region.region_type == MemoryRegionType::Usable
                && region.start_frame_number < region.end_frame_number {
                let count = region.end_frame_number - region.start_frame_number;
                if rem < count {
                    let addr = (region.start_frame_number + rem) * PAGE_SIZE;
                    let frame = PhysFrame::containing_address(addr);
                    assert(addr % PAGE_SIZE == 0) by (nonlinear_arith)
                        requires
                            addr == (region.start_frame_number + rem) * PAGE_SIZE,
                    ;
                    return Some(frame);
                }
                rem = rem - count;
            }
            i += 1;
        }
        None
    }

    /// The cursor: how many frames have been asked for.
    pub fn cursor(&self) -> (r: u64)
        ensures
            r == self.next(),
    {
        self.next
    }

    /// The next usable frame, or `None` once every usable frame has been handed out.
    pub fn allocate_frame(&mut self) -> (r: Option<PhysFrame>)
        requires
            old(self).wf(),
        ensures
            final(self).wf(),
            final(self).map() == old(self).map(),
            r == match nth_frame(old(self).map(), old(self).next()) {
                Some(a) => Some(PhysFrame { start_address: a }),
                None => None::<PhysFrame>,
            },
            r is None <==> old(self).next() >= total_frames(old(self).map()),
            r is Some ==> final(self).next() == old(self).next() + 1,
            final(self).next() == if old(self).next() < u64::MAX {
                old(self).next() + 1
            } else {
                old(self).next()
            },
    {
        proof {
            lemma_nth_frame(self.memory_map@, self.next as int);
            lemma_total_frames(self.memory_map@);
        }
        let frame = self.usable_frame(self.next);
        self.next = self.next.saturating_add(1);
        frame
    }
}

} // verus!
