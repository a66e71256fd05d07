use sos::allocator::pool::{ListNode, PoolAllocator};
use sos::allocator::{align_up};

#[test]
fn align_up_rounds_to_multiple() {
    assert_eq!(align_up(0x1001, 8), Some(0x1008));
    assert_eq!(align_up(0x1000, 4096), Some(0x1000));
    assert_eq!(align_up(usize::MAX, 16), None);
}

#[test]
fn size_align_rounds_to_node() {
    assert_eq!(PoolAllocator::size_align(1, 1), (16, 8));
    assert_eq!(PoolAllocator::size_align(20, 8), (24, 8));
    assert_eq!(PoolAllocator::size_align(20, 32), (32, 32));
    assert_eq!(PoolAllocator::size_align(64, 8), (64, 8));
}

#[test]
fn first_fit_not_best_fit() {
    let mut pool = PoolAllocator::new();
    pool.init(0x10000, 4096);
    pool.init(0x5000, 64);
    pool.init(0x1000, 4096);
    assert_eq!(
        pool.free_regions(),
        vec![
            ListNode::new(0x1000, 4096),
            ListNode::new(0x5000, 64),
            ListNode::new(0x10000, 4096),
        ]
    );
    assert_eq!(pool.alloc_first(32, 8), Ok(0x1000));
    assert_eq!(
        pool.free_regions(),
        vec![
            ListNode::new(0x1020, 4096 - 32),
            ListNode::new(0x5000, 64),
            ListNode::new(0x10000, 4096),
        ]
    );
}

#[test]
fn split_leaves_tail_free() {
    let mut pool = PoolAllocator::new();
    pool.init(0x1000, 4096);
    assert_eq!(pool.alloc_first(64, 8), Ok(0x1000));
    assert_eq!(pool.free_regions(), vec![ListNode::new(0x1040, 4096 - 64)]);
    assert_eq!(pool.alloc_first(8000, 8), Err(()));
    assert_eq!(pool.free_regions(), vec![ListNode::new(0x1040, 4096 - 64)]);
}

#[test]
fn whole_region_taken_when_exact() {
    let mut pool = PoolAllocator::new();
    pool.init(0x2000, 64);
    assert_eq!(pool.alloc_first(64, 8), Ok(0x2000));
    assert_eq!(pool.free_regions(), vec![]);
    assert_eq!(pool.alloc_first(8, 8), Err(()));
}

#[test]
fn too_small_leftover_skips_region() {
    let mut pool = PoolAllocator::new();
    pool.init(0x8000, 256);
    pool.init(0x2000, 72);
    // 64 bytes from the 72-byte region would leave an 8-byte sliver.
    assert_eq!(pool.alloc_first(64, 8), Ok(0x8000));
    assert_eq!(
        pool.free_regions(),
        vec![ListNode::new(0x8040, 192), ListNode::new(0x2000, 72)]
    );
}

#[test]
fn alignment_is_honoured() {
    let mut pool = PoolAllocator::new();
    pool.init(0x1008, 4096);
    assert_eq!(pool.alloc_first(16, 64), Ok(0x1040));
    assert_eq!(pool.free_regions(), vec![ListNode::new(0x1080, 0x1008 + 4096 - 0x1080)]);
}

#[test]
fn deallocate_pushes_at_head_without_merging() {
    let mut pool = PoolAllocator::new();
    pool.init(0x1000, 4096);
    let a = pool.alloc_first(64, 8).unwrap();
    let b = pool.alloc_first(10, 1).unwrap();
    assert_eq!(b, 0x1040);
    pool.deallocate(a, 64, 8);
    assert_eq!(
        pool.free_regions(),
        vec![ListNode::new(0x1000, 64), ListNode::new(0x1050, 4096 - 0x50)]
    );
    pool.deallocate(b, 10, 1);
    assert_eq!(
        pool.free_regions(),
        vec![
            ListNode::new(0x1040, 16),
            ListNode::new(0x1000, 64),
            ListNode::new(0x1050, 4096 - 0x50),
        ]
    );
    // Most recently freed first: the 16-byte region serves a 16-byte request.
    assert_eq!(pool.alloc_first(16, 8), Ok(0x1040));
}

#[test]
fn list_node_accessors() {
    let n = ListNode::new(0x1000, 0x20);
    assert_eq!(n.start_addr(), 0x1000);
    assert_eq!(n.end_addr(), 0x1020);
}
