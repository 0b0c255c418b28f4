use ternary_memory_pool::BlockAllocator;

#[test]
fn block_alloc_basic() {
    let mut ba = BlockAllocator::new(256, 10);
    let a = ba.allocate().unwrap();
    let b = ba.allocate().unwrap();
    assert_ne!(a, b);
    assert_eq!(ba.allocated_count(), 2);
    assert_eq!(ba.free_count(), 8);
}

#[test]
fn block_dealloc_reuse() {
    let mut ba = BlockAllocator::new(64, 3);
    let _a = ba.allocate().unwrap();
    let b = ba.allocate().unwrap();
    let _c = ba.allocate().unwrap();
    assert!(ba.allocate().is_none()); // full

    assert!(ba.deallocate(b));
    let d = ba.allocate().unwrap(); // should reuse b's slot
    assert_eq!(d, b);
    assert_eq!(ba.allocated_count(), 3);
}

#[test]
fn block_dealloc_invalid() {
    let mut ba = BlockAllocator::new(64, 2);
    assert!(!ba.deallocate(99)); // never allocated
}

#[test]
fn block_total_bytes() {
    let ba = BlockAllocator::new(128, 5);
    assert_eq!(ba.total_bytes(), 640);
}

#[test]
fn block_used_bytes() {
    let mut ba = BlockAllocator::new(128, 5);
    ba.allocate();
    ba.allocate();
    assert_eq!(ba.used_bytes(), 256);
}

#[test]
fn block_last_freed_is_reused_first() {
    let mut pool = BlockAllocator::new(256, 100);
    assert_eq!(pool.allocate(), Some(0));
    assert_eq!(pool.allocate(), Some(1));
    assert!(pool.deallocate(0));
    assert_eq!(pool.allocate(), Some(0));
    assert_eq!(pool.allocate(), Some(2));
}

#[test]
fn block_reuse_runs_backwards() {
    let mut pool = BlockAllocator::new(8, 4);
    for i in 0..4 {
        assert_eq!(pool.allocate(), Some(i));
    }
    assert!(pool.deallocate(2));
    assert!(pool.deallocate(0));
    assert_eq!(pool.allocate(), Some(0));
    assert_eq!(pool.allocate(), Some(2));
    assert_eq!(pool.allocate(), None);
}

#[test]
fn block_free_undoes_allocate() {
    let mut pool = BlockAllocator::new(8, 3);
    pool.allocate();
    let b = pool.allocate().unwrap();
    assert!(pool.deallocate(b));
    assert_eq!(pool.allocated_count(), 1);
    assert_eq!(pool.free_count(), 2);
    assert_eq!(pool.allocate(), Some(1));
    assert_eq!(pool.allocate(), Some(2));
}

#[test]
fn block_double_free_is_refused() {
    let mut pool = BlockAllocator::new(8, 2);
    let a = pool.allocate().unwrap();
    assert!(pool.deallocate(a));
    assert!(!pool.deallocate(a));
    assert_eq!(pool.free_count(), 2);
}

#[test]
fn block_counts_conserved() {
    let mut pool = BlockAllocator::new(32, 7);
    for _ in 0..5 {
        pool.allocate();
    }
    pool.deallocate(3);
    assert_eq!(pool.allocated_count() + pool.free_count(), 7);
    assert_eq!(pool.used_bytes() + pool.block_size() * pool.free_count(), pool.total_bytes());
}

#[test]
fn block_empty_pool() {
    let mut pool = BlockAllocator::new(32, 0);
    assert_eq!(pool.allocate(), None);
    assert_eq!(pool.total_bytes(), 0);
    assert_eq!(pool.block_size(), 32);
}
