use vstd::prelude::*;
use vstd::arithmetic::power2::is_pow2;
use super::live::{
    apart, free_ok, lemma_allocate_keeps_live_apart, lemma_deallocate_keeps_live_apart, live_ok,
    valid_block,
};
use super::pool::{alloc_outcome, disjoint, regions_wf, eff_size, layout_ok, ListNode, PoolAllocator, NODE_ALIGN};

verus! {

/// Number of size classes.
pub const BLOCK_CLASSES: usize = 9;

/// Block size of class `k`: the powers of two from 8 to 2048.
pub open spec fn block_size_spec(k: int) -> int {
    if k <= 0 {
        8
    } else if k == 1 {
        16
    } else if k == 2 {
        32
    } else if k == 3 {
        64
    } else if k == 4 {
        128
    } else if k == 5 {
        256
    } else if k == 6 {
        512
    } else if k == 7 {
        1024
    } else {
        2048
    }
}

/// The smallest class from `k` on whose blocks hold `needed` bytes.
pub open spec fn class_from(k: int, needed: int) -> Option<int>
    decreases BLOCK_CLASSES - k,
{
    if k < 0 || k >= BLOCK_CLASSES {
        None
    } else if block_size_spec(k) >= needed {
        Some(k)
    } else {
        class_from(k + 1, needed)
    }
}

/// The class serving a request of `size` bytes aligned to `align`, if any.
pub open spec fn class_of(size: usize, align: usize) -> Option<int> {
    class_from(0, if size >= align { size as int } else { align as int })
}

/// What an allocation request returns, and the class lists and pool free list afterwards.
pub open spec fn block_alloc_outcome(
    lists: Seq<Seq<usize>>,
    pool: Seq<ListNode>,
    size: usize,
    align: usize,
) -> (Option<usize>, Seq<Seq<usize>>, Seq<ListNode>) {
    match class_of(size, align) {
        Some(k) => if lists[k].len() > 0 {
            (Some(lists[k].last()), lists.update(k, lists[k].drop_last()), pool)
        } else {
            let bs = block_size_spec(k) as usize;
            let (r, p) = alloc_outcome(pool, bs, bs);
            (r.ok(), lists, p)
        },
        None => {
            let (r, p) = alloc_outcome(pool, size, align);
            (r.ok(), lists, p)
        },
    }
}

/// The class lists and pool free list after the block at `addr`, allocated as `size` bytes
/// aligned to `align`, is given back.
pub open spec fn block_dealloc_outcome(
    lists: Seq<Seq<usize>>,
    pool: Seq<ListNode>,
    addr: usize,
    size: usize,
    align: usize,
) -> (Seq<Seq<usize>>, Seq<ListNode>) {
    match class_of(size, align) {
        Some(k) => (lists.update(k, lists[k].push(addr)), pool),
        None => (lists, seq![ListNode { start: addr, size: eff_size(size, align) as usize }] + pool),
    }
}

/// The class chosen for a request is a real class whose blocks hold the request.
pub proof fn lemma_class_of(size: usize, align: usize)
    ensures
        class_of(size, align) is Some ==> {
            let k = class_of(size, align)->0;
            &&& 0 <= k < BLOCK_CLASSES
            &&& block_size_spec(k) >= size
            &&& block_size_spec(k) >= align
        },
{
    lemma_class_from(0, if size >= align { size as int } else { align as int });
}

proof fn lemma_class_from(k: int, needed: int)
    requires
        k >= 0,
    ensures
        class_from(k, needed) is Some ==> {
            let c = class_from(k, needed)->0;
            &&& k <= c < BLOCK_CLASSES
            &&& block_size_spec(c) >= needed
        },
    decreases BLOCK_CLASSES - k,
{
    if k < BLOCK_CLASSES && block_size_spec(k) < needed {
        lemma_class_from(k + 1, needed);
    }
}

/// A class's blocks form a valid request of their own size and alignment.
pub proof fn lemma_class_layout(k: int)
    requires
        0 <= k < BLOCK_CLASSES,
    ensures
        layout_ok(block_size_spec(k) as usize, block_size_spec(k) as usize),
        block_size_spec(k) >= NODE_ALIGN,
{
    reveal_with_fuel(is_pow2, 13);
}

/// A size-class front end: one free list of blocks per class, over a pool allocator.
pub struct BlockAllocator {
    list_heads: Vec<Vec<usize>>,
    fallback_allocator: PoolAllocator,
}

impl BlockAllocator {
    /// The free blocks of each class; the last one of a list is handed out first.
    pub closed spec fn lists(&self) -> Seq<Seq<usize>> {
        self.list_heads@.map_values(|l: Vec<usize>| l@)
    }

    /// The free list of the pool allocator underneath.
    pub closed spec fn pool(&self) -> Seq<ListNode> {
        self.fallback_allocator@
    }

    /// One free list per class, over a well-formed pool; no two free pieces share a byte and
    /// every class block is aligned to its class size.
    pub open spec fn wf(&self) -> bool {
        free_ok(self.lists(), self.pool())
    }

    /// An allocator with empty class lists and an empty pool.
    pub fn new() -> (r: Self)
        ensures
            r.wf(),
            r.lists() == Seq::new(BLOCK_CLASSES as nat, |k: int| Seq::<usize>::empty()),
            r.pool() == Seq::<ListNode>::empty(),
    {
        let mut list_heads: Vec<Vec<usize>> = Vec::new();
        let mut k: usize = 0;
        while k < BLOCK_CLASSES
            invariant
                k <= BLOCK_CLASSES,
                list_heads@.len() == k,
                forall|j: int| 0 <= j < k ==> (#[trigger] list_heads@[j])@.len() == 0,
            decreases BLOCK_CLASSES - k,
        {
            list_heads.push(Vec::new());
            k += 1;
        }
        let r = BlockAllocator { list_heads, fallback_allocator: PoolAllocator::new() };
        assert forall|j: int| 0 <= j < BLOCK_CLASSES implies #[trigger] r.lists()[j] =~= Seq::<
            usize,
        >::empty() by {
            assert(r.list_heads@[j]@.len() == 0);
        }
        assert(r.lists() =~= Seq::new(BLOCK_CLASSES as nat, |k: int| Seq::<usize>::empty()));
        r
    }

    /// Hands the heap `[heap_start, heap_start + heap_size)` to the pool underneath.
    pub fn init(&mut self, heap_start: usize, heap_size: usize)
        requires
            old(self).wf(),
            (ListNode { start: heap_start, size: heap_size }).wf(),
            forall|i: int|
                0 <= i < old(self).pool().len() ==> disjoint(
                    #[trigger] old(self).pool()[i],
                    ListNode { start: heap_start, size: heap_size },
                ),
            forall|k: int, j: int|
                valid_block(old(self).lists(), k, j) ==> apart(
                    #[trigger] old(self).lists()[k][j] as int,
                    block_size_spec(k),
                    heap_start as int,
                    heap_size as int,
                ),
        ensures
            final(self).wf(),
            final(self).lists() == old(self).lists(),
            final(self).pool() == seq![ListNode { start: heap_start, size: heap_size }] + old(
                self,
            ).pool(),
    {
        let ghost lists = self.lists();
        self.fallback_allocator.init(heap_start, heap_size);
        proof {
            let pool2 = self.pool();
            assert(self.lists() == lists);
            assert forall|k: int, j: int, i: int|
                valid_block(lists, k, j) && 0 <= i < pool2.len() implies apart(
                #[trigger] lists[k][j] as int,
                block_size_spec(k),
                #[trigger] pool2[i].start as int,
                pool2[i].size as int,
            ) by {
                if i > 0 {
                    assert(pool2[i] == old(self).pool()[i - 1]);
                }
            }
        }
    }

    /// The block size of class `k`.
    pub fn block_size(k: usize) -> (r: usize)
        requires
            k < BLOCK_CLASSES,
        ensures
            r == block_size_spec(k as int),
    {
        if k == 0 {
            8
        } else if k == 1 {
            16
        } else if k == 2 {
            32
        } else if k == 3 {
            64
        } else if k == 4 {
            128
        } else if k == 5 {
            256
        } else if k == 6 {
            512
        } else if k == 7 {
            1024
        } else {
            2048
        }
    }

    /// Allocates straight from the pool; `None` where no free region can take the request.
    fn fallback_alloc(&mut self, size: usize, align: usize) -> (r: Option<usize>)
        requires
            regions_wf(old(self).pool()),
            layout_ok(size, align),
        ensures
            regions_wf(final(self).pool()),
            final(self).lists() == old(self).lists(),
            (r, final(self).pool()) == ({
                let (res, p) = alloc_outcome(old(self).pool(), size, align);
                (res.ok(), p)
            }),
    {
        match self.fallback_allocator.alloc_first(size, align) {
            Ok(ptr) => Some(ptr),
            Err(()) => None,
        }
    }

    /// The smallest class whose blocks hold `size` bytes aligned to `align`.
    pub fn list_index(size: usize, align: usize) -> (r: Option<usize>)
        ensures
            r is Some <==> class_of(size, align) is Some,
            r is Some ==> r->0 as int == class_of(size, align)->0,
            r is Some ==> r->0 < BLOCK_CLASSES,
    {
        let needed = if size >= align {
            size
        } else {
            align
        };
        let mut k: usize = 0;
        while k < BLOCK_CLASSES
            invariant
                k <= BLOCK_CLASSES,
                class_of(size, align) == class_from(k as int, needed as int),
            decreases BLOCK_CLASSES - k,
        {
            if Self::block_size(k) >= needed {
                return Some(k);
            }
            k += 1;
        }
        None
    }

    /// Allocates `size` bytes aligned to `align`: from the matching class list where one fits,
    /// else from the pool.
    pub fn allocate(&mut self, size: usize, align: usize) -> (r: Option<usize>)
        requires
            old(self).wf(),
            layout_ok(size, align),
        ensures
            final(self).wf(),
            (r, final(self).lists(), final(self).pool()) == block_alloc_outcome(
                old(self).lists(),
                old(self).pool(),
                size,
                align,
            ),
    {
        proof {
            lemma_allocate_keeps_live_apart(self.lists(), self.pool(), Seq::empty(), size, align);
        }
        match Self::list_index(size, align) {
            Some(index) => {
                let ghost lists = self.lists();
                if self.list_heads[index].len() > 0 {
                    let block = self.list_heads[index].pop();
                    proof {
                        assert(self.lists() =~= lists.update(index as int, lists[index as int].drop_last()));
                    }
                    block
                } else {
                    let block_size = Self::block_size(index);
                    proof {
                        lemma_class_layout(index as int);
                    }
                    self.fallback_alloc(block_size, block_size)
                }
            },
            None => self.fallback_alloc(size, align),
        }
    }

    /// Returns the block at `addr`, allocated as `size` bytes aligned to `align`, to its class
    /// list, or to the pool where no class serves that request.
    pub fn deallocate(&mut self, addr: usize, size: usize, align: usize)
        requires
            old(self).wf(),
            layout_ok(size, align),
            live_ok(old(self).lists(), old(self).pool(), seq![(addr, size, align)]),
        ensures
            final(self).wf(),
            (final(self).lists(), final(self).pool()) == block_dealloc_outcome(
                old(self).lists(),
                old(self).pool(),
                addr,
                size,
                align,
            ),
    {
        proof {
            let live = seq![(addr, size, align)];
            assert(live[0] == (addr, size, align));
            lemma_deallocate_keeps_live_apart(self.lists(), self.pool(), live, 0);
            assert(live.remove(0) =~= Seq::<(usize, usize, usize)>::empty());
        }
        match Self::list_index(size, align) {
            Some(index) => {
                let ghost lists = self.lists();
                self.list_heads[index].push(addr);
                proof {
                    assert(self.lists() =~= lists.update(index as int, lists[index as int].push(addr)));
                }
            },
            None => {
                assert forall|i: int| 0 <= i < self.fallback_allocator@.len() implies disjoint(
                    #[trigger] self.fallback_allocator@[i],
                    ListNode { start: addr, size: eff_size(size, align) as usize },
                ) by {
                    assert(self.fallback_allocator@[i] == self.pool()[i]);
                }
                self.fallback_allocator.deallocate(addr, size, align);
            },
        }
    }
}

} // verus!
