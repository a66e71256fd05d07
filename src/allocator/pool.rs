use vstd::prelude::*;
use vstd::arithmetic::power2::is_pow2;
use vstd::layout::valid_layout;
use super::{align_up, align_up_spec, lemma_align_up};

verus! {

/// Size in bytes of the header that every free region must be able to hold.
pub const NODE_SIZE: usize = 16;

/// Alignment of the header that every free region must be able to hold.
pub const NODE_ALIGN: usize = 8;

/// Descriptor of one free region of the heap, `[start, start + size)`.
#[derive(Clone, Copy, Debug, PartialEq, Eq)]
pub struct ListNode {
    pub start: usize,
    pub size: usize,
}

impl ListNode {
    pub open spec fn end(self) -> int {
        self.start + self.size
    }

    /// A region that could hold its own header: aligned, large enough, inside the address space.
    pub open spec fn wf(self) -> bool {
        &&& self.start as int % NODE_ALIGN as int == 0
        &&& self.size >= NODE_SIZE
        &&& self.end() <= usize::MAX
    }

    pub fn new(start: usize, size: usize) -> (r: ListNode)
        ensures
            r == (ListNode { start, size }),
    {
        ListNode { start, size }
    }

    pub fn start_addr(&self) -> (r: usize)
        ensures
            r == self.start,
    {
        self.start
    }

    pub fn end_addr(&self) -> (r: usize)
        requires
            self.end() <= usize::MAX,
        ensures
            r == self.end(),
    {
        self.start + self.size
    }
}

pub open spec fn disjoint(a: ListNode, b: ListNode) -> bool {
    a.end() <= b.start || b.end() <= a.start
}

/// Every region is well formed and no two regions share a byte.
pub open spec fn regions_wf(rs: Seq<ListNode>) -> bool {
    &&& forall|i: int| 0 <= i < rs.len() ==> (#[trigger] rs[i]).wf()
    &&& forall|i: int, j: int|
        0 <= i < rs.len() && 0 <= j < rs.len() && i != j ==> disjoint(
            #[trigger] rs[i],
            #[trigger] rs[j],
        )
}

/// The alignment actually used for a request: at least the header's.
pub open spec fn eff_align(align: usize) -> int {
    if align < NODE_ALIGN {
        NODE_ALIGN as int
    } else {
        align as int
    }
}

/// The size actually reserved for a request: rounded up to the effective alignment,
/// and at least one header.
pub open spec fn eff_size(size: usize, align: usize) -> int {
    let s = align_up_spec(size as int, eff_align(align));
    if s < NODE_SIZE {
        NODE_SIZE as int
    } else {
        s
    }
}

/// A request that is a valid layout and stays one once its alignment is raised to the header's.
pub open spec fn layout_ok(size: usize, align: usize) -> bool {
    &&& valid_layout(size, align)
    &&& size as int <= isize::MAX as int - (isize::MAX as int % eff_align(align))
}

/// `size` bytes aligned to `align` fit in `region`, leaving either nothing or room for a header.
pub open spec fn fits(region: ListNode, size: int, align: int) -> bool {
    let start = align_up_spec(region.start as int, align);
    let end = start + size;
    end <= region.end() && (end == region.end() || region.end() - end >= NODE_SIZE)
}

/// Index of the first region in list order that fits, or the length of the list.
pub open spec fn first_fit(rs: Seq<ListNode>, size: int, align: int) -> int
    decreases rs.len(),
{
    if rs.len() == 0 {
        0
    } else if fits(rs[0], size, align) {
        0
    } else {
        1 + first_fit(rs.drop_first(), size, align)
    }
}

/// The start of the block carved out of region `i`, and the free list afterwards:
/// region `i` unlinked, and any leftover tail pushed at the head.
pub open spec fn carve(rs: Seq<ListNode>, i: int, size: int, align: int) -> (int, Seq<ListNode>) {
    let start = align_up_spec(rs[i].start as int, align);
    let end = start + size;
    let rest = rs.remove(i);
    if end < rs[i].end() {
        (start, seq![ListNode { start: end as usize, size: (rs[i].end() - end) as usize }] + rest)
    } else {
        (start, rest)
    }
}

/// What an allocation request returns on a free list, and the free list afterwards.
pub open spec fn alloc_outcome(rs: Seq<ListNode>, size: usize, align: usize) -> (
    Result<usize, ()>,
    Seq<ListNode>,
) {
    let s = eff_size(size, align);
    let a = eff_align(align);
    let i = first_fit(rs, s, a);
    if i < rs.len() {
        (Ok(carve(rs, i, s, a).0 as usize), carve(rs, i, s, a).1)
    } else {
        (Err(()), rs)
    }
}

pub proof fn lemma_first_fit(rs: Seq<ListNode>, size: int, align: int)
    ensures
        0 <= first_fit(rs, size, align) <= rs.len(),
        forall|j: int|
            0 <= j < first_fit(rs, size, align) ==> !#[trigger] fits(rs[j], size, align),
        first_fit(rs, size, align) < rs.len() ==> fits(
            rs[first_fit(rs, size, align)],
            size,
            align,
        ),
    decreases rs.len(),
{
    if rs.len() > 0 && !fits(rs[0], size, align) {
        lemma_first_fit(rs.drop_first(), size, align);
        assert forall|j: int| 0 <= j < first_fit(rs, size, align) implies !#[trigger] fits(
            rs[j],
            size,
            align,
        ) by {
            if j > 0 {
                assert(rs[j] == rs.drop_first()[j - 1]);
            }
        }
    }
}

proof fn lemma_pow2_mod8(n: int)
    requires
        is_pow2(n),
        n >= 8,
    ensures
        n % 8 == 0,
{
    reveal(is_pow2);
    let m = n / 2;
    assert(is_pow2(m));
    let k = m / 2;
    assert(is_pow2(k));
    assert(k % 2 == 0);
}

proof fn lemma_mul_of_mult8(x: int, a: int)
    requires
        x >= 0,
        a > 0,
        x % a == 0,
        a % 8 == 0,
    ensures
        x % 8 == 0,
{
    vstd::arithmetic::div_mod::lemma_fundamental_div_mod(x, a);
    vstd::arithmetic::div_mod::lemma_fundamental_div_mod(a, 8);
    let k = (a / 8) * (x / a);
    assert(x == 8 * k) by (nonlinear_arith)
        requires
            x == a * (x / a),
            a == 8 * (a / 8),
            k == (a / 8) * (x / a),
    ;
    vstd::arithmetic::div_mod::lemma_mod_multiples_basic(k, 8);
}

/// The effective size and alignment are multiples of the header's alignment.
pub proof fn lemma_eff_layout(size: usize, align: usize)
    requires
        layout_ok(size, align),
    ensures
        eff_align(align) % 8 == 0,
        eff_align(align) >= 8,
        eff_size(size, align) % 8 == 0,
        eff_size(size, align) >= NODE_SIZE,
        eff_size(size, align) <= isize::MAX,
{
    let a = eff_align(align);
    if align >= 8 {
        lemma_pow2_mod8(align as int);
    }
    lemma_align_up(size as int, a);
    let s = align_up_spec(size as int, a);
    lemma_mul_of_mult8(s, a);
    let m = isize::MAX as int - (isize::MAX as int % a);
    vstd::arithmetic::div_mod::lemma_fundamental_div_mod(isize::MAX as int, a);
    vstd::arithmetic::div_mod::lemma_mod_multiples_basic(isize::MAX as int / a, a);
    assert(m == (isize::MAX as int / a) * a) by (nonlinear_arith)
        requires
            isize::MAX as int == a * (isize::MAX as int / a) + isize::MAX as int % a,
            m == isize::MAX as int - (isize::MAX as int % a),
    ;
    lemma_round_le(size as int, a, m);
}

/// Rounding up never passes a multiple of `align` that is at least `x`.
proof fn lemma_round_le(x: int, align: int, m: int)
    requires
        0 <= x <= m,
        align > 0,
        m % align == 0,
    ensures
        align_up_spec(x, align) <= m,
{
    if x % align != 0 {
        vstd::arithmetic::div_mod::lemma_fundamental_div_mod(x, align);
        vstd::arithmetic::div_mod::lemma_fundamental_div_mod(m, align);
        let q = x / align;
        let p = m / align;
        assert(q + 1 <= p) by (nonlinear_arith)
            requires
                x == align * q + x % align,
                m == align * p,
                0 < x % align < align,
                x <= m,
                align > 0,
        ;
        assert(align * (q + 1) <= align * p) by (nonlinear_arith)
            requires
                q + 1 <= p,
                align > 0,
        ;
        assert(align_up_spec(x, align) == align * (q + 1)) by (nonlinear_arith)
            requires
                x == align * q + x % align,
                align_up_spec(x, align) == x + (align - x % align),
        ;
    }
}

/// A first-fit heap allocator over a list of free regions, most recently freed first.
pub struct PoolAllocator {
    regions: Vec<ListNode>,
}

impl View for PoolAllocator {
    type V = Seq<ListNode>;

    closed spec fn view(&self) -> Seq<ListNode> {
        self.regions@
    }
}

impl PoolAllocator {
    pub open spec fn wf(&self) -> bool {
        regions_wf(self@)
    }

    /// An allocator with no free region.
    pub fn new() -> (r: Self)
        ensures
            r@ == Seq::<ListNode>::empty(),
            r.wf(),
    {
        PoolAllocator { regions: Vec::new() }
    }

    /// The free regions, head first.
    pub fn free_regions(&self) -> (r: Vec<ListNode>)
        ensures
            r@ == self@,
    {
        let mut r: Vec<ListNode> = Vec::new();
        let mut i: usize = 0;
        while i < self.regions.len()
            invariant
                i <= self.regions@.len(),
                r@ == self.regions@.subrange(0, i as int),
            decreases self.regions@.len() - i,
        {
            r.push(self.regions[i]);
            i += 1;
            assert(r@ =~= self.regions@.subrange(0, i as int));
        }
        assert(r@ =~= self.regions@);
        r
    }

    /// Registers the heap `[heap_start, heap_start + heap_size)` as a free region.
    pub fn init(&mut self, heap_start: usize, heap_size: usize)
        requires
            old(self).wf(),
            (ListNode { start: heap_start, size: heap_size }).wf(),
            forall|i: int|
                0 <= i < old(self)@.len() ==> disjoint(
                    #[trigger] old(self)@[i],
                    ListNode { start: heap_start, size: heap_size },
                ),
        ensures
            final(self).wf(),
            final(self)@ == seq![ListNode { start: heap_start, size: heap_size }] + old(self)@,
    {
        self.add_free_region(heap_start, heap_size);
    }

    /// Pushes `[addr, addr + size)` at the head of the free list.
    fn add_free_region(&mut self, addr: usize, size: usize)
        requires
            old(self).wf(),
            (ListNode { start: addr, size }).wf(),
            forall|i: int|
                0 <= i < old(self)@.len() ==> disjoint(
                    #[trigger] old(self)@[i],
                    ListNode { start: addr, size },
                ),
        ensures
            final(self).wf(),
            final(self)@ == seq![ListNode { start: addr, size }] + old(self)@,
    {
        let node = ListNode::new(addr, size);
        self.regions.insert(0, node);
        assert(self.regions@ =~= seq![node] + old(self)@);
    }

    /// Unlinks the first region in which `size` bytes aligned to `align` fit, and returns it with
    /// the start of the block.
    fn find_region(&mut self, size: usize, align: usize) -> (r: Option<(ListNode, usize)>)
        requires
            old(self).wf(),
            align > 0,
        ensures
            final(self).wf(),
            ({
                let i = first_fit(old(self)@, size as int, align as int);
                if i < old(self)@.len() {
                    &&& fits(old(self)@[i], size as int, align as int)
                    &&& r == Some(
                        (
                            old(self)@[i],
                            align_up_spec(old(self)@[i].start as int, align as int) as usize,
                        ),
                    )
                    &&& final(self)@ == old(self)@.remove(i)
                } else {
                    &&& r is None
                    &&& final(self)@ == old(self)@
                }
            }),
    {
        proof {
            lemma_first_fit(self@, size as int, align as int);
        }
        let mut i: usize = 0;
        while i < self.regions.len()
            invariant
                self@ == old(self)@,
                regions_wf(self@),
                align > 0,
                0 <= i <= self@.len(),
                0 <= first_fit(self@, size as int, align as int) <= self@.len(),
                forall|j: int|
                    0 <= j < first_fit(self@, size as int, align as int) ==> !#[trigger] fits(
                        self@[j],
                        size as int,
                        align as int,
                    ),
                first_fit(self@, size as int, align as int) < self@.len() ==> fits(
                    self@[first_fit(self@, size as int, align as int)],
                    size as int,
                    align as int,
                ),
                forall|j: int| 0 <= j < i ==> !#[trigger] fits(self@[j], size as int, align as int),
            decreases self@.len() - i,
        {
            match Self::alloc_from_region(&self.regions[i], size, align) {
                Ok(start) => {
                    let ghost rs = self@;
                    let region = self.regions.remove(i);
                    assert(regions_wf(self@)) by {
                        assert forall|j: int| 0 <= j < self@.len() implies (
                        #[trigger] self@[j]).wf() by {
                            if j >= i {
                                assert(self@[j] == rs[j + 1]);
                            }
                        }
                        assert forall|j: int, k: int|
                            0 <= j < self@.len() && 0 <= k < self@.len() && j != k implies disjoint(
                            #[trigger] self@[j],
                            #[trigger] self@[k],
                        ) by {
                            let jj = if j < i {
                                j
                            } else {
                                j + 1
                            };
                            let kk = if k < i {
                                k
                            } else {
                                k + 1
                            };
                            assert(self@[j] == rs[jj]);
                            assert(self@[k] == rs[kk]);
                        }
                    }
                    return Some((region, start));
                },
                Err(()) => {
                    i += 1;
                },
            }
        }
        None
    }

    /// Where a block of `size` bytes aligned to `align` would start in `region`, if it fits.
    fn alloc_from_region(region: &ListNode, size: usize, align: usize) -> (r: Result<usize, ()>)
        requires
            region.wf(),
            align > 0,
        ensures
            r is Ok <==> fits(*region, size as int, align as int),
            r is Ok ==> r == Ok::<usize, ()>(
                align_up_spec(region.start as int, align as int) as usize,
            ),
    {
        let alloc_start = match align_up(region.start_addr(), align) {
            Some(a) => a,
            None => return Err(()),
        };
        let alloc_end = match alloc_start.checked_add(size) {
            Some(e) => e,
            None => return Err(()),
        };
        if alloc_end > region.end_addr() {
            return Err(());
        }
        let excess_size = region.end_addr() - alloc_end;
        if excess_size > 0 && excess_size < NODE_SIZE {
            return Err(());
        }
        Ok(alloc_start)
    }

    /// The size and alignment actually used for a request of `size` bytes aligned to `align`.
    pub fn size_align(size: usize, align: usize) -> (r: (usize, usize))
        requires
            layout_ok(size, align),
        ensures
            r.0 == eff_size(size, align),
            r.1 == eff_align(align),
    {
        proof {
            lemma_eff_layout(size, align);
        }
        let a = if align < NODE_ALIGN {
            NODE_ALIGN
        } else {
            align
        };
        let padded = match align_up(size, a) {
            Some(p) => p,
            None => size,
        };
        let s = if padded < NODE_SIZE {
            NODE_SIZE
        } else {
            padded
        };
        (s, a)
    }

    /// Allocates `size` bytes aligned to `align` from the first region that can take them.
    pub fn alloc_first(&mut self, size: usize, align: usize) -> (r: Result<usize, ()>)
        requires
            old(self).wf(),
            layout_ok(size, align),
        ensures
            final(self).wf(),
            (r, final(self)@) == alloc_outcome(old(self)@, size, align),
    {
        proof {
            lemma_eff_layout(size, align);
        }
        let (s, a) = Self::size_align(size, align);
        let ghost rs = self@;
        match self.find_region(s, a) {
            Some((region, alloc_start)) => {
                let ghost i = first_fit(rs, s as int, a as int);
                proof {
                    lemma_first_fit(rs, s as int, a as int);
                    lemma_align_up(region.start as int, a as int);
                }
                let alloc_end = alloc_start + s;
                let excess_size = region.end_addr() - alloc_end;
                if excess_size > 0 {
                    proof {
                        lemma_mul_of_mult8(alloc_start as int, a as int);
                        assert forall|j: int| 0 <= j < self@.len() implies disjoint(
                            #[trigger] self@[j],
                            ListNode { start: alloc_end, size: excess_size },
                        ) by {
                            let jj = if j < i {
                                j
                            } else {
                                j + 1
                            };
                            assert(self@[j] == rs[jj]);
                            assert(disjoint(rs[jj], rs[i]));
                        }
                    }
                    self.add_free_region(alloc_end, excess_size);
                }
                Ok(alloc_start)
            },
            None => Err(()),
        }
    }

    /// Returns the block at `addr`, allocated as `size` bytes aligned to `align`, to the head of
    /// the free list.
    pub fn deallocate(&mut self, addr: usize, size: usize, align: usize)
        requires
            old(self).wf(),
            layout_ok(size, align),
            addr as int % NODE_ALIGN as int == 0,
            addr + eff_size(size, align) <= usize::MAX,
            forall|i: int|
                0 <= i < old(self)@.len() ==> disjoint(
                    #[trigger] old(self)@[i],
                    ListNode { start: addr, size: eff_size(size, align) as usize },
                ),
        ensures
            final(self).wf(),
            final(self)@ == seq![ListNode { start: addr, size: eff_size(size, align) as usize }]
                + old(self)@,
    {
        proof {
            lemma_eff_layout(size, align);
        }
        let (s, _) = Self::size_align(size, align);
        self.add_free_region(addr, s);
    }
}

} // verus!
