use ternary_memory_pool::{MemoryPool, PoolStatistics};

#[test]
fn pool_basic_alloc_dealloc() {
    let mut pool = MemoryPool::new(1024, 64);
    let a = pool.allocate(128).unwrap();
    assert_eq!(pool.statistics().total_allocations, 1);
    assert_eq!(pool.statistics().current_allocations, 1);
    assert!(pool.deallocate(a));
    assert_eq!(pool.statistics().total_deallocations, 1);
    assert_eq!(pool.statistics().current_allocations, 0);
}

#[test]
fn pool_fragmentation_ratio() {
    let mut pool = MemoryPool::new(1024, 64);
    // Allocate then free alternating blocks to create fragmentation
    let a = pool.allocate(64).unwrap();
    let _b = pool.allocate(64).unwrap();
    let c = pool.allocate(64).unwrap();
    let _d = pool.allocate(64).unwrap();

    pool.deallocate(a);
    pool.deallocate(c);
    // Free blocks at offsets 0 and 128, not contiguous
    let (largest, total) = pool.free_space().unwrap();
    let frag = 1.0 - (largest as f64 / total as f64);
    assert!(frag > 0.0, "fragmentation should be > 0");
}

#[test]
fn pool_utilization() {
    let mut pool = MemoryPool::new(1024, 64);
    pool.allocate(256);
    let util = pool.buddy().allocated_bytes() as f64 / pool.buddy().arena_size() as f64;
    assert!(util > 0.0 && util <= 1.0);
}

#[test]
fn pool_peak_tracking() {
    let mut pool = MemoryPool::new(1024, 64);
    pool.allocate(128);
    pool.allocate(256);
    assert_eq!(pool.statistics().peak_allocated_bytes, 384);
    pool.deallocate(0); // doesn't change peak
    assert_eq!(pool.statistics().peak_allocated_bytes, 384);
}

#[test]
fn pool_stats_display() {
    let stats = PoolStatistics {
        total_allocations: 10,
        total_deallocations: 5,
        current_allocations: 5,
        total_allocated_bytes: 512,
        peak_allocated_bytes: 640,
        fragmentation_count: 0,
    };
    let s = stats.to_string();
    assert!(s.contains("allocs: 10"));
    assert!(s.contains("peak: 640"));
}

#[test]
fn pool_stats_text() {
    let stats = PoolStatistics {
        total_allocations: u64::MAX,
        total_deallocations: 907,
        current_allocations: 0,
        total_allocated_bytes: 1234567890,
        peak_allocated_bytes: 64,
        fragmentation_count: 9,
    };
    assert_eq!(
        stats.to_string(),
        "PoolStatistics { allocs: 18446744073709551615, deallocs: 907, current: 0, \
         bytes: 1234567890, peak: 64 }"
    );
    assert_eq!(stats.clone().fragmentation_count, 9);
    assert_eq!(
        PoolStatistics::default().to_string(),
        "PoolStatistics { allocs: 0, deallocs: 0, current: 0, bytes: 0, peak: 0 }"
    );
}

#[test]
fn pool_peak_is_the_most_allocated_at_one_time() {
    let mut pool = MemoryPool::new(1024, 64);
    let a = pool.allocate(256).unwrap();
    let b = pool.allocate(128).unwrap();
    assert!(pool.deallocate(a));
    assert_eq!(pool.statistics().peak_allocated_bytes, 384);
    let c = pool.allocate(200).unwrap();
    assert_eq!(pool.statistics().peak_allocated_bytes, 384);
    pool.allocate(1);
    assert_eq!(pool.statistics().peak_allocated_bytes, 448);
    assert!(pool.deallocate(b) && pool.deallocate(c));
    assert_eq!(pool.statistics().peak_allocated_bytes, 448);
    assert_eq!(pool.statistics().total_allocated_bytes, 256 + 128 + 256 + 64);
}

#[test]
fn pool_counters_balance() {
    let mut pool = MemoryPool::new(512, 64);
    let mut offsets = Vec::new();
    while let Some(at) = pool.allocate(64) {
        offsets.push(at);
    }
    assert_eq!(offsets.len(), 8);
    for at in &offsets[..5] {
        assert!(pool.deallocate(*at));
    }
    assert!(!pool.deallocate(offsets[0]));
    let stats = pool.statistics();
    assert_eq!(stats.total_allocations, 8);
    assert_eq!(stats.total_deallocations, 5);
    assert_eq!(stats.current_allocations, 3);
    assert_eq!(stats.current_allocations, pool.buddy().allocated_count());
    assert_eq!(stats.fragmentation_count, 1); // 0..320 is one region
}

#[test]
fn pool_refused_request_counts_nothing() {
    let mut pool = MemoryPool::new(256, 64);
    assert_eq!(pool.allocate(257), None);
    assert_eq!(pool.allocate(usize::MAX), None);
    assert!(!pool.deallocate(0));
    assert_eq!(pool.statistics().total_allocations, 0);
    assert_eq!(pool.statistics().total_deallocations, 0);
    assert_eq!(pool.statistics().total_allocated_bytes, 0);
}

#[test]
fn pool_free_space() {
    let mut pool = MemoryPool::new(1024, 64);
    assert_eq!(pool.free_space(), Some((1024, 1024)));
    let a = pool.allocate(64).unwrap();
    assert_eq!(pool.free_space(), Some((512, 960)));
    assert!(pool.deallocate(a));
    assert_eq!(pool.free_space(), Some((1024, 1024)));
    pool.allocate(1024);
    assert_eq!(pool.free_space(), None);
}

#[test]
fn pool_free_undoes_allocate() {
    let mut pool = MemoryPool::new(1024, 64);
    pool.allocate(100);
    let counts = pool.buddy().free_block_counts();
    let at = pool.allocate(64).unwrap();
    assert!(pool.deallocate(at));
    assert_eq!(pool.buddy().free_block_counts(), counts);
    assert_eq!(pool.statistics().current_allocations, 1);
    assert_eq!(pool.statistics().total_allocations, 2);
    assert_eq!(pool.statistics().total_deallocations, 1);
}

#[test]
fn pool_quick_start() {
    let mut pool = MemoryPool::new(16384, 64);
    assert_eq!(pool.allocate(256), Some(0));
    assert_eq!(pool.allocate(512), Some(512));
    assert_eq!(pool.statistics().total_allocated_bytes, 768);
    assert_eq!(pool.buddy().allocated_bytes(), 768);
}

#[test]
fn pool_fragmentation_count() {
    let mut pool = MemoryPool::new(256, 64);
    assert_eq!(pool.statistics().fragmentation_count, 1);
    for at in [0, 64, 128, 192] {
        assert_eq!(pool.allocate(64), Some(at));
    }
    assert_eq!(pool.statistics().fragmentation_count, 0);
    assert!(pool.deallocate(0));
    assert_eq!(pool.statistics().fragmentation_count, 1);
    assert!(pool.deallocate(128));
    assert_eq!(pool.statistics().fragmentation_count, 2); // 0..64 and 128..192
    assert!(!pool.deallocate(128));
    assert_eq!(pool.statistics().fragmentation_count, 2);
    assert!(pool.deallocate(64)); // joins 0..64 and touches 128..192
    assert_eq!(pool.statistics().fragmentation_count, 1);
    assert!(pool.deallocate(192));
    assert_eq!(pool.statistics().fragmentation_count, 1);
}

#[test]
fn pool_touching_blocks_are_one_region() {
    let mut pool = MemoryPool::new(256, 64);
    for _ in 0..4 {
        pool.allocate(64);
    }
    assert!(pool.deallocate(64));
    assert!(pool.deallocate(128)); // not the buddy of 64, but next to it
    assert_eq!(pool.buddy().free_block_counts(), vec![(6, 2)]);
    assert_eq!(pool.statistics().fragmentation_count, 1);
}

#[test]
fn pool_allocation_changes_the_regions() {
    let mut pool = MemoryPool::new(512, 64);
    let a = pool.allocate(64).unwrap(); // 0..64
    assert_eq!(pool.statistics().fragmentation_count, 1); // 64..512
    let b = pool.allocate(128).unwrap(); // 128..256
    assert_eq!(b, 128);
    assert_eq!(pool.statistics().fragmentation_count, 2); // 64..128 and 256..512
    assert_eq!(pool.allocate(512), None);
    assert_eq!(pool.statistics().fragmentation_count, 2);
    assert!(pool.deallocate(a));
    assert_eq!(pool.statistics().fragmentation_count, 2); // 0..128 and 256..512
    pool.allocate(256);
    assert_eq!(pool.statistics().fragmentation_count, 1); // 0..128
}
