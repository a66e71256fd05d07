use vstd::prelude::*;
use crate::memory::{nth_frame, total_frames, BootInfoFrameAllocator, PhysFrame, PAGE_SIZE};

verus! {

/// Entry flag: the entry is in use.
pub const PRESENT: u64 = 0x1;

/// Entry flag: writes are allowed through the entry.
pub const WRITABLE: u64 = 0x2;

/// A 4 KiB page of virtual memory, named by its start address.
#[derive(Clone, Copy, Debug, PartialEq, Eq)]
pub struct Page {
    pub start_address: u64,
}

impl Page {
    /// The page that holds virtual address `addr`.
    pub fn containing_address(addr: u64) -> (r: Page)
        ensures
            r.start_address == addr - addr % PAGE_SIZE,
    {
        Page { start_address: addr - addr % PAGE_SIZE }
    }
}

/// An intermediate page table: the table of `level` (3, 2 or 1) that serves every address whose
/// bits above that level's index give `prefix`, stored in `frame`.
#[derive(Clone, Copy, Debug, PartialEq, Eq)]
pub struct TableNode {
    pub level: u8,
    pub prefix: u64,
    pub frame: u64,
}

/// A leaf entry: `page` maps to `frame` with `flags`.
#[derive(Clone, Copy, Debug, PartialEq, Eq)]
pub struct Leaf {
    pub page: u64,
    pub frame: u64,
    pub flags: u64,
}

/// Token for a mapping recorded in an `OffsetPageTable`: whoever writes that mapping into the
/// hardware tables must then flush the stale translation of `page`.
#[derive(Clone, Copy, Debug, PartialEq, Eq)]
pub struct MapperFlush {
    pub page: Page,
    pub frame: PhysFrame,
}

/// Why a mapping could not be made.
#[derive(Clone, Copy, Debug, PartialEq, Eq, Structural)]
pub enum MappingError {
    /// The page already has a present leaf entry.
    AlreadyMapped,
    /// No frame was left for a missing intermediate table.
    FrameAllocationFailed,
}

/// The bits of `addr` that pick the table of `level` on the walk.
pub open spec fn table_prefix(addr: u64, level: u8) -> u64 {
    if level == 3 {
        addr >> 39u64
    } else if level == 2 {
        addr >> 30u64
    } else {
        addr >> 21u64
    }
}

pub open spec fn has_table(ts: Seq<TableNode>, level: u8, prefix: u64) -> bool {
    exists|i: int| 0 <= i < ts.len() && #[trigger] ts[i].level == level && ts[i].prefix == prefix
}

/// The walk for `addr` finds all three intermediate tables.
pub open spec fn tables_for(ts: Seq<TableNode>, addr: u64) -> bool {
    &&& has_table(ts, 3, table_prefix(addr, 3))
    &&& has_table(ts, 2, table_prefix(addr, 2))
    &&& has_table(ts, 1, table_prefix(addr, 1))
}

pub open spec fn is_mapped(ls: Seq<Leaf>, page: u64) -> bool {
    exists|i: int| 0 <= i < ls.len() && #[trigger] ls[i].page == page
}

/// Number of intermediate tables the walk for `addr` still lacks.
pub open spec fn missing_tables(ts: Seq<TableNode>, addr: u64) -> int {
    (if has_table(ts, 3, table_prefix(addr, 3)) {
        0int
    } else {
        1int
    }) + (if has_table(ts, 2, table_prefix(addr, 2)) {
        0int
    } else {
        1int
    }) + (if has_table(ts, 1, table_prefix(addr, 1)) {
        0int
    } else {
        1int
    })
}

/// `new` is `old` followed by tables stored in the frames numbered `old_next .. new_next`.
pub open spec fn grown_from(
    old: Seq<TableNode>,
    new: Seq<TableNode>,
    map: Seq<crate::memory::MemoryRegion>,
    old_next: int,
    new_next: int,
) -> bool {
    &&& old.len() <= new.len()
    &&& new.len() - old.len() == new_next - old_next
    &&& new.subrange(0, old.len() as int) == old
    &&& forall|k: int|
        old.len() <= k < new.len() ==> Some((#[trigger] new[k]).frame) == nth_frame(
            map,
            old_next + (k - old.len()),
        )
}

proof fn lemma_grown_trans(
    a: Seq<TableNode>,
    b: Seq<TableNode>,
    c: Seq<TableNode>,
    map: Seq<crate::memory::MemoryRegion>,
    na: int,
    nb: int,
    nc: int,
)
    requires
        grown_from(a, b, map, na, nb),
        grown_from(b, c, map, nb, nc),
    ensures
        grown_from(a, c, map, na, nc),
        forall|l: u8, p: u64| has_table(a, l, p) ==> has_table(c, l, p),
{
    assert(c.subrange(0, a.len() as int) =~= b.subrange(0, a.len() as int));
    assert forall|k: int| a.len() <= k < c.len() implies Some((#[trigger] c[k]).frame) == nth_frame(
        map,
        na + (k - a.len()),
    ) by {
        if k < b.len() {
            assert(c[k] == c.subrange(0, b.len() as int)[k]);
        }
    }
    assert forall|l: u8, p: u64| has_table(a, l, p) implies has_table(c, l, p) by {
        let i = choose|i: int| 0 <= i < a.len() && #[trigger] a[i].level == l && a[i].prefix == p;
        assert(c.subrange(0, a.len() as int)[i] == c[i]);
    }
}

/// A record of the page-table hierarchy of one address space: which intermediate tables exist
/// and in which frames, and which leaf entries were made through it. It holds no hardware
/// table itself; it records the mappings made through it, keeping the level-4 frame and the
/// virtual offset at which physical memory is seen.
pub struct OffsetPageTable {
    level_4_frame: u64,
    physical_memory_offset: u64,
    tables: Vec<TableNode>,
    leaves: Vec<Leaf>,
}

impl OffsetPageTable {
    pub closed spec fn tables(&self) -> Seq<TableNode> {
        self.tables@
    }

    pub closed spec fn leaves(&self) -> Seq<Leaf> {
        self.leaves@
    }

    pub closed spec fn level_4_frame(&self) -> u64 {
        self.level_4_frame
    }

    pub closed spec fn physical_memory_offset(&self) -> u64 {
        self.physical_memory_offset
    }

    /// Every leaf is reached through its three intermediate tables, and no page has two leaves.
    pub open spec fn wf(&self) -> bool {
        &&& forall|i: int| 0 <= i < self.leaves().len() ==> tables_for(self.tables(), #[trigger] self.leaves()[i].page)
        &&& forall|i: int, j: int|
            0 <= i < self.leaves().len() && 0 <= j < self.leaves().len() && i != j
                ==> #[trigger] self.leaves()[i].page != #[trigger] self.leaves()[j].page
    }

    /// The address space whose level-4 table lives in `level_4_frame`, with physical memory seen
    /// at `physical_memory_offset`.
    pub fn new(level_4_frame: u64, physical_memory_offset: u64) -> (r: Self)
        ensures
            r.wf(),
            r.level_4_frame() == level_4_frame,
            r.physical_memory_offset() == physical_memory_offset,
            r.tables() == Seq::<TableNode>::empty(),
            r.leaves() == Seq::<Leaf>::empty(),
    {
        OffsetPageTable {
            level_4_frame,
            physical_memory_offset,
            tables: Vec::new(),
            leaves: Vec::new(),
        }
    }

    pub fn level_4_table_frame(&self) -> (r: u64)
        ensures
            r == self.level_4_frame(),
    {
        self.level_4_frame
    }

    pub fn phys_offset(&self) -> (r: u64)
        ensures
            r == self.physical_memory_offset(),
    {
        self.physical_memory_offset
    }

    /// The intermediate tables, in the order they were created.
    pub fn table_nodes(&self) -> (r: Vec<TableNode>)
        ensures
            r@ == self.tables(),
    {
        let mut r: Vec<TableNode> = Vec::new();
        let mut i: usize = 0;
        while i < self.tables.len()
            invariant
                i <= self.tables@.len(),
                r@ == self.tables@.subrange(0, i as int),
            decreases self.tables@.len() - i,
        {
            r.push(self.tables[i]);
            i += 1;
            assert(r@ =~= self.tables@.subrange(0, i as int));
        }
        assert(r@ =~= self.tables@);
        r
    }

    fn find_table(&self, level: u8, prefix: u64) -> (r: bool)
        ensures
            r == has_table(self.tables(), level, prefix),
    {
        let mut i: usize = 0;
        while i < self.tables.len()
            invariant
                0 <= i <= self.tables@.len(),
                forall|j: int|
                    0 <= j < i ==> !(#[trigger] self.tables@[j].level == level
                        && self.tables@[j].prefix == prefix),
            decreases self.tables@.len() - i,
        {
            if self.tables[i].level == level && self.tables[i].prefix == prefix {
                return true;
            }
            i += 1;
        }
        false
    }

    /// The frame that `page` maps to, if it has a leaf entry.
    pub fn translate_page(&self, page: Page) -> (r: Option<PhysFrame>)
        ensures
            r is Some <==> is_mapped(self.leaves(), page.start_address),
            r is Some ==> exists|i: int|
                0 <= i < self.leaves().len() && #[trigger] self.leaves()[i].page == page.start_address
                    && self.leaves()[i].frame == r->0.start_address,
    {
        let mut i: usize = 0;
        while i < self.leaves.len()
            invariant
                0 <= i <= self.leaves@.len(),
                forall|j: int| 0 <= j < i ==> #[trigger] self.leaves@[j].page != page.start_address,
            decreases self.leaves@.len() - i,
        {
            if self.leaves[i].page == page.start_address {
                return Some(PhysFrame { start_address: self.leaves[i].frame });
            }
            i += 1;
        }
        None
    }

    /// Makes sure the table of `level` for `prefix` exists, taking a fresh frame for it if not.
    fn ensure_table(&mut self, level: u8, prefix: u64, frame_allocator: &mut BootInfoFrameAllocator)
        -> (r: Result<(), MappingError>)
        requires
            old(self).wf(),
            old(frame_allocator).wf(),
        ensures
            final(self).wf(),
            final(frame_allocator).wf(),
            final(self).leaves() == old(self).leaves(),
            final(frame_allocator).map() == old(frame_allocator).map(),
            r is Ok ==> grown_from(
                old(self).tables(),
                final(self).tables(),
                old(frame_allocator).map(),
                old(frame_allocator).next(),
                final(frame_allocator).next(),
            ),
            r is Err ==> final(self).tables() == old(self).tables(),
            old(frame_allocator).next() <= final(frame_allocator).next(),
            final(frame_allocator).next() <= old(frame_allocator).next() + 1,
            has_table(old(self).tables(), level, prefix) ==> r is Ok && final(frame_allocator).next()
                == old(frame_allocator).next(),
            r is Ok ==> has_table(final(self).tables(), level, prefix),
            r is Err ==> r == Err::<(), MappingError>(MappingError::FrameAllocationFailed)
                && final(frame_allocator).next() >= total_frames(final(frame_allocator).map()),
            old(frame_allocator).next() < total_frames(old(frame_allocator).map()) ==> r is Ok,
            r is Err ==> old(frame_allocator).next() >= total_frames(old(frame_allocator).map()),
            !has_table(old(self).tables(), level, prefix) && r is Ok
                ==> final(frame_allocator).next() == old(frame_allocator).next() + 1
                && old(frame_allocator).next() < total_frames(old(frame_allocator).map()),
            forall|l: u8, p: u64|
                !(l == level && p == prefix) ==> (has_table(final(self).tables(), l, p)
                    == has_table(old(self).tables(), l, p)),
    {
        let ghost ts = self.tables@;
        if self.find_table(level, prefix) {
            assert(self.tables@.subrange(0, ts.len() as int) =~= ts);
            return Ok(());
        }
        match frame_allocator.allocate_frame() {
            Some(frame) => {
                let node = TableNode { level, prefix, frame: frame.start_address };
                self.tables.push(node);
                proof {
                    assert(self.tables@.subrange(0, ts.len() as int) =~= ts);
                    assert(self.tables@[ts.len() as int] == node);
                    assert(self.tables@[ts.len() as int].level == level);
                    assert(self.leaves() == old(self).leaves());
                    assert forall|l: u8, p: u64| has_table(ts, l, p) implies has_table(
                        self.tables@,
                        l,
                        p,
                    ) by {
                        let i = choose|i: int|
                            0 <= i < ts.len() && #[trigger] ts[i].level == l && ts[i].prefix == p;
                        assert(self.tables@[i] == ts[i]);
                    }
                    assert forall|l: u8, p: u64|
                        !(l == level && p == prefix) && has_table(self.tables@, l, p) implies has_table(
                        ts,
                        l,
                        p,
                    ) by {
                        let i = choose|i: int|
                            0 <= i < self.tables@.len() && #[trigger] self.tables@[i].level == l
                                && self.tables@[i].prefix == p;
                        assert(self.tables@[i] == ts[i]);
                    }
                    assert forall|i: int| 0 <= i < self.leaves().len() implies tables_for(
                        self.tables(),
                        #[trigger] self.leaves()[i].page,
                    ) by {
                        assert(self.leaves() == old(self).leaves());
                        assert(tables_for(ts, old(self).leaves()[i].page));
                        let pg = self.leaves()[i].page;
                        assert(has_table(self.tables@, 3, table_prefix(pg, 3)));
                        assert(has_table(self.tables@, 2, table_prefix(pg, 2)));
                        assert(has_table(self.tables@, 1, table_prefix(pg, 1)));
                    }
                }
                Ok(())
            },
            None => {
                assert(self.tables@.subrange(0, ts.len() as int) =~= ts);
                Err(MappingError::FrameAllocationFailed)
            },
        }
    }

    /// Maps `page` to `frame` with `flags`, creating the missing intermediate tables from fresh
    /// frames of `frame_allocator`.
    pub fn map_to(
        &mut self,
        page: Page,
        frame: PhysFrame,
        flags: u64,
        frame_allocator: &mut BootInfoFrameAllocator,
    ) -> (r: Result<MapperFlush, MappingError>)
        requires
            old(self).wf(),
            old(frame_allocator).wf(),
        ensures
            final(self).wf(),
            final(frame_allocator).wf(),
            final(frame_allocator).map() == old(frame_allocator).map(),
            old(frame_allocator).next() <= final(frame_allocator).next(),
            final(frame_allocator).next() <= old(frame_allocator).next() + 3,
            r != Err::<MapperFlush, MappingError>(MappingError::FrameAllocationFailed) ==> grown_from(
                old(self).tables(),
                final(self).tables(),
                old(frame_allocator).map(),
                old(frame_allocator).next(),
                final(frame_allocator).next(),
            ),
            r == Err::<MapperFlush, MappingError>(MappingError::AlreadyMapped) <==> is_mapped(
                old(self).leaves(),
                page.start_address,
            ),
            is_mapped(old(self).leaves(), page.start_address) ==> final(frame_allocator).next()
                == old(frame_allocator).next(),
            !is_mapped(old(self).leaves(), page.start_address) && old(frame_allocator).next() + 3
                <= total_frames(old(frame_allocator).map()) ==> r is Ok,
            !is_mapped(old(self).leaves(), page.start_address) ==> (r is Ok <==> (missing_tables(old(self).tables(), page.start_address) == 0
                || old(frame_allocator).next() + missing_tables(old(self).tables(), page.start_address) <= total_frames(old(frame_allocator).map()))),
            r is Ok ==> final(frame_allocator).next() == old(frame_allocator).next()
                + missing_tables(old(self).tables(), page.start_address),
            r is Ok ==> r->Ok_0.page == page && r->Ok_0.frame == frame && final(self).leaves() == old(self).leaves().push(
                Leaf { page: page.start_address, frame: frame.start_address, flags },
            ),
            r is Err ==> final(self).leaves() == old(self).leaves(),
            old(self).tables().len() <= final(self).tables().len(),
            final(self).tables().subrange(0, old(self).tables().len() as int) == old(self).tables(),
            r == Err::<MapperFlush, MappingError>(MappingError::FrameAllocationFailed)
                ==> final(frame_allocator).next() >= total_frames(final(frame_allocator).map()),
    {
        let addr = page.start_address;
        let ghost ts0 = self.tables@;
        let ghost n0 = frame_allocator.next();
        let ghost map = frame_allocator.map();
        proof {
            if is_mapped(self.leaves@, addr) {
                let i = choose|i: int|
                    0 <= i < self.leaves@.len() && #[trigger] self.leaves@[i].page == addr;
                assert(tables_for(ts0, self.leaves@[i].page));
            }
        }
        let r3 = self.ensure_table(3, addr >> 39u64, frame_allocator);
        let ghost ts1 = self.tables@;
        let ghost n1 = frame_allocator.next();
        if r3.is_err() {
            return Err(MappingError::FrameAllocationFailed);
        }
        let r2 = self.ensure_table(2, addr >> 30u64, frame_allocator);
        let ghost ts2 = self.tables@;
        let ghost n2 = frame_allocator.next();
        if r2.is_err() {
            assert(ts2.subrange(0, ts0.len() as int) =~= ts1.subrange(0, ts0.len() as int));
            return Err(MappingError::FrameAllocationFailed);
        }
        proof {
            lemma_grown_trans(ts0, ts1, ts2, map, n0, n1, n2);
        }
        let r1 = self.ensure_table(1, addr >> 21u64, frame_allocator);
        if r1.is_err() {
            return Err(MappingError::FrameAllocationFailed);
        }
        proof {
            lemma_grown_trans(ts0, ts2, self.tables@, map, n0, n2, frame_allocator.next());
            lemma_grown_trans(ts1, ts2, self.tables@, map, n1, n2, frame_allocator.next());
        }
        assert(tables_for(self.tables@, addr));
        if self.translate_page(page).is_some() {
            return Err(MappingError::AlreadyMapped);
        }
        let ghost ls = self.leaves@;
        let leaf = Leaf { page: addr, frame: frame.start_address, flags };
        self.leaves.push(leaf);
        proof {
            assert(self.leaves@[ls.len() as int] == leaf);
            assert forall|i: int| 0 <= i < self.leaves().len() implies tables_for(
                self.tables(),
                #[trigger] self.leaves()[i].page,
            ) by {
                if i < ls.len() {
                    assert(self.leaves@[i] == ls[i]);
                }
            }
            assert forall|i: int, j: int|
                0 <= i < self.leaves().len() && 0 <= j < self.leaves().len() && i != j
                    implies #[trigger] self.leaves()[i].page != #[trigger] self.leaves()[j].page by {
                if i < ls.len() {
                    assert(self.leaves@[i] == ls[i]);
                }
                if j < ls.len() {
                    assert(self.leaves@[j] == ls[j]);
                }
            }
        }
        Ok(MapperFlush { page, frame })
    }
}

} // verus!
