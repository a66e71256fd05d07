use sos::allocator::block::BlockAllocator;

fn heap() -> BlockAllocator {
    let mut b = BlockAllocator::new();
    b.init(0x10000, 0x10000);
    b
}

#[test]
fn list_index_picks_smallest_class() {
    assert_eq!(BlockAllocator::list_index(1, 1), Some(0));
    assert_eq!(BlockAllocator::list_index(8, 8), Some(0));
    assert_eq!(BlockAllocator::list_index(9, 1), Some(1));
    assert_eq!(BlockAllocator::list_index(16, 8), Some(1));
    assert_eq!(BlockAllocator::list_index(8, 64), Some(3));
    assert_eq!(BlockAllocator::list_index(2048, 8), Some(8));
    assert_eq!(BlockAllocator::list_index(2049, 8), None);
    assert_eq!(BlockAllocator::list_index(5000, 8), None);
}

#[test]
fn block_sizes_are_powers_of_two() {
    let sizes: Vec<usize> = (0..9).map(BlockAllocator::block_size).collect();
    assert_eq!(sizes, vec![8, 16, 32, 64, 128, 256, 512, 1024, 2048]);
}

#[test]
fn freed_block_is_reused_first() {
    let mut b = heap();
    let a = b.allocate(16, 8).unwrap();
    assert_eq!(a, 0x10000);
    b.deallocate(a, 16, 8);
    assert_eq!(b.allocate(16, 8), Some(a));
}

#[test]
fn fresh_blocks_are_carved_at_class_size() {
    let mut b = heap();
    // A 20-byte request gets a whole 32-byte block aligned to 32.
    assert_eq!(b.allocate(20, 4), Some(0x10000));
    assert_eq!(b.allocate(20, 4), Some(0x10020));
    // A 100-byte request is served from the 128 class, aligned to 128.
    assert_eq!(b.allocate(100, 8), Some(0x10080));
}

#[test]
fn blocks_of_one_class_are_interchangeable() {
    let mut b = heap();
    let x = b.allocate(20, 4).unwrap();
    b.deallocate(x, 32, 32);
    assert_eq!(b.allocate(17, 1), Some(x));
}

#[test]
fn large_requests_go_to_the_pool() {
    let mut b = heap();
    let big = b.allocate(5000, 8).unwrap();
    assert_eq!(big, 0x10000);
    let small = b.allocate(8, 8).unwrap();
    assert_eq!(small, 0x10000 + 5000);
    b.deallocate(big, 5000, 8);
    assert_eq!(b.allocate(5000, 8), Some(big));
}

#[test]
fn exhausted_heap_fails() {
    let mut b = BlockAllocator::new();
    b.init(0x1000, 64);
    assert_eq!(b.allocate(5000, 8), None);
    assert_eq!(b.allocate(2048, 8), None);
    assert_eq!(b.allocate(64, 8), Some(0x1000));
    assert_eq!(b.allocate(64, 8), None);
}

#[test]
fn mixed_live_blocks_do_not_overlap() {
    let mut b = heap();
    let sizes = [8usize, 16, 32, 64, 128, 256, 512, 1024, 2048, 5000, 8, 5000, 2048];
    let mut live: Vec<(usize, usize)> = Vec::new();
    for (n, &s) in sizes.iter().enumerate() {
        let a = b.allocate(s, 8).unwrap();
        live.push((a, s));
        if n % 3 == 2 {
            let (fa, fs) = live.remove(0);
            b.deallocate(fa, fs, 8);
        }
    }
    for i in 0..live.len() {
        for j in 0..live.len() {
            if i != j {
                let (a, sa) = live[i];
                let (c, sc) = live[j];
                assert!(a + sa <= c || c + sc <= a);
            }
        }
    }
}

#[test]
fn allocations_are_aligned() {
    let mut b = BlockAllocator::new();
    b.init(0x10008, 0x10000);
    for &(size, align) in &[(8usize, 64usize), (3, 1), (100, 128), (5000, 4096), (24, 16), (2049, 8)] {
        let a = b.allocate(size, align).unwrap();
        assert_eq!(a % align, 0);
    }
}
