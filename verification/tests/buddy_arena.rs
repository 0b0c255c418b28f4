use ternary_memory_pool::BuddyAllocator;

#[test]
fn buddy_alloc_basic() {
    let mut ba = BuddyAllocator::new(1024, 64);
    let a = ba.allocate(128).unwrap();
    assert_eq!(a % 128, 0); // aligned to block size
    assert_eq!(ba.allocated_count(), 1);
}

#[test]
fn buddy_alloc_round_up() {
    let mut ba = BuddyAllocator::new(1024, 64);
    // 100 rounds up to 128
    let a = ba.allocate(100).unwrap();
    assert_eq!(a % 128, 0);
}

#[test]
fn buddy_alloc_min_block() {
    let mut ba = BuddyAllocator::new(1024, 64);
    // 1 byte rounds up to the smallest block, 64
    let a = ba.allocate(1).unwrap();
    assert_eq!(a % 64, 0);
}

#[test]
fn buddy_split_and_alloc() {
    let mut ba = BuddyAllocator::new(1024, 64);
    // Allocate all 1024 as 16 blocks of 64 bytes
    let mut offsets = Vec::new();
    for _ in 0..16 {
        offsets.push(ba.allocate(64).unwrap());
    }
    assert_eq!(ba.allocated_count(), 16);
    assert!(ba.allocate(64).is_none()); // exhausted
}

#[test]
fn buddy_coalesce_on_free() {
    let mut ba = BuddyAllocator::new(256, 64);
    let a = ba.allocate(64).unwrap(); // order 6 (64)
    let b = ba.allocate(64).unwrap();
    assert_eq!(ba.allocated_count(), 2);
    ba.deallocate(a);
    ba.deallocate(b);
    assert_eq!(ba.allocated_count(), 0);
    // Should be able to allocate the full 256 again
    let full = ba.allocate(256).unwrap();
    assert_eq!(full, 0);
}

#[test]
fn buddy_partial_coalesce() {
    let mut ba = BuddyAllocator::new(256, 64);
    let a = ba.allocate(64).unwrap(); // offset 0
    let b = ba.allocate(64).unwrap(); // offset 64
    let _c = ba.allocate(64).unwrap(); // offset 128

    // Free a and b: they join to 128 bytes
    ba.deallocate(a);
    ba.deallocate(b);
    // Now allocate 128: should get offset 0
    let d = ba.allocate(128).unwrap();
    assert_eq!(d, 0);
}

#[test]
fn buddy_deallocate_invalid() {
    let mut ba = BuddyAllocator::new(256, 64);
    assert!(!ba.deallocate(999));
}

#[test]
fn buddy_allocated_bytes() {
    let mut ba = BuddyAllocator::new(1024, 64);
    ba.allocate(64);
    ba.allocate(128);
    // 64 + 128 = 192
    assert_eq!(ba.allocated_bytes(), 192);
}

#[test]
fn buddy_free_bytes() {
    let mut ba = BuddyAllocator::new(1024, 64);
    ba.allocate(128);
    assert_eq!(ba.free_bytes(), 896);
}

#[test]
fn buddy_stress() {
    let mut ba = BuddyAllocator::new(4096, 64);
    let mut allocs: Vec<usize> = Vec::new();
    // Allocate many small blocks
    for _ in 0..64 {
        if let Some(off) = ba.allocate(64) {
            allocs.push(off);
        }
    }
    assert_eq!(allocs.len(), 64);
    assert!(ba.allocate(64).is_none());

    // Free every other one
    let to_free: Vec<usize> = allocs.iter().step_by(2).copied().collect();
    for off in &to_free {
        ba.deallocate(*off);
    }
    // Can allocate again
    let new = ba.allocate(64).unwrap();
    assert!(allocs.contains(&new) || to_free.contains(&new));
}

#[test]
fn buddy_splits_from_the_low_end() {
    let mut buddy = BuddyAllocator::new(4096, 64);
    assert_eq!(buddy.arena_size(), 4096);
    assert_eq!(buddy.allocate(128), Some(0));
    assert_eq!(buddy.allocate(64), Some(128));
    assert!(buddy.deallocate(0));
    assert_eq!(buddy.allocate(256), Some(256));
    assert_eq!(buddy.free_block_counts(), vec![(6, 1), (7, 1), (9, 1), (10, 1), (11, 1)]);
}

#[test]
fn buddy_free_undoes_allocate() {
    let mut buddy = BuddyAllocator::new(1024, 64);
    buddy.allocate(64);
    buddy.allocate(256);
    let counts = buddy.free_block_counts();
    let offset = buddy.allocate(100).unwrap();
    assert_ne!(buddy.free_block_counts(), counts);
    assert!(buddy.deallocate(offset));
    assert_eq!(buddy.free_block_counts(), counts);
}

#[test]
fn buddy_all_freed_is_one_block() {
    let mut buddy = BuddyAllocator::new(1024, 32);
    let sizes = [40, 200, 32, 1, 300, 64];
    let mut offsets = Vec::new();
    for size in sizes {
        offsets.push(buddy.allocate(size).unwrap());
    }
    for i in [3, 0, 5, 1, 4, 2] {
        assert!(buddy.deallocate(offsets[i]));
    }
    assert_eq!(buddy.free_block_counts(), vec![(10, 1)]);
    assert_eq!(buddy.free_bytes(), 1024);
    assert_eq!(buddy.allocated_bytes(), 0);
}

#[test]
fn buddy_live_blocks_do_not_overlap() {
    let mut buddy = BuddyAllocator::new(2048, 16);
    let mut blocks = Vec::new();
    for size in [16, 100, 17, 256, 33, 64, 500] {
        let bytes = usize::max(size, 16).next_power_of_two();
        let at = buddy.allocate(size).unwrap();
        assert_eq!(at % bytes, 0);
        assert!(at + bytes <= 2048);
        for &(other, len) in &blocks {
            assert!(at + bytes <= other || other + len <= at);
        }
        blocks.push((at, bytes));
    }
    assert_eq!(buddy.allocated_count(), 7);
    assert_eq!(buddy.allocated_bytes() + buddy.free_bytes(), 2048);
}

#[test]
fn buddy_rounding() {
    for (size, bytes) in [(0, 64), (1, 64), (64, 64), (65, 128), (129, 256), (1024, 1024)] {
        let mut buddy = BuddyAllocator::new(1024, 64);
        assert!(buddy.allocate(size).is_some());
        assert_eq!(buddy.allocated_bytes(), bytes);
    }
}

#[test]
fn buddy_refuses_what_does_not_fit() {
    let mut buddy = BuddyAllocator::new(1024, 64);
    assert_eq!(buddy.allocate(1025), None);
    assert_eq!(buddy.allocate(usize::MAX), None);
    assert_eq!(buddy.allocated_count(), 0);
    assert_eq!(buddy.allocate(1024), Some(0));
    assert_eq!(buddy.allocate(1), None);
    assert_eq!(buddy.free_block_counts(), vec![]);
    assert_eq!(buddy.largest_free_block(), 0);
}

#[test]
fn buddy_one_block_arena() {
    let mut buddy = BuddyAllocator::new(64, 64);
    assert_eq!(buddy.allocate(3), Some(0));
    assert_eq!(buddy.allocate(3), None);
    assert!(buddy.deallocate(0));
    assert!(!buddy.deallocate(0));
    assert_eq!(buddy.largest_free_block(), 64);

    let mut byte = BuddyAllocator::new(1, 1);
    assert_eq!(byte.allocate(0), Some(0));
    assert_eq!(byte.allocate(0), None);
}

#[test]
fn buddy_counts_make_up_the_free_bytes() {
    let mut buddy = BuddyAllocator::new(4096, 64);
    buddy.allocate(64);
    buddy.allocate(700);
    let total: usize = buddy.free_block_counts().iter().map(|&(o, n)| (1usize << o) * n).sum();
    assert_eq!(total, buddy.free_bytes());
    assert_eq!(buddy.largest_free_block(), 2048);
}

#[test]
fn buddy_operations_keep_other_blocks() {
    let mut buddy = BuddyAllocator::new(1024, 64);
    let a = buddy.allocate(64).unwrap();
    let b = buddy.allocate(128).unwrap();
    let c = buddy.allocate(256).unwrap();
    assert!(buddy.deallocate(b));
    assert!(!buddy.deallocate(b));
    assert_eq!(buddy.allocated_count(), 2);
    assert_eq!(buddy.allocated_bytes(), 320);
    assert!(buddy.deallocate(a) && buddy.deallocate(c));
    assert_eq!(buddy.allocated_count(), 0);
}

#[test]
fn buddy_order_of_frees_does_not_matter() {
    let mut one = BuddyAllocator::new(1024, 64);
    let mut other = BuddyAllocator::new(1024, 64);
    let sizes = [64, 128, 64, 256, 64, 64];
    let offsets: Vec<usize> = sizes.iter().map(|&n| one.allocate(n).unwrap()).collect();
    for (n, at) in sizes.iter().zip(&offsets) {
        assert_eq!(other.allocate(*n), Some(*at));
    }
    for i in [0, 2, 3, 5] {
        assert!(one.deallocate(offsets[i]));
    }
    for i in [5, 3, 0, 2] {
        assert!(other.deallocate(offsets[i]));
    }
    assert_eq!(one.free_block_counts(), other.free_block_counts());
}

#[test]
fn buddy_served_iff_an_aligned_range_is_clear() {
    let mut buddy = BuddyAllocator::new(512, 64);
    let offsets: Vec<usize> = (0..8).map(|_| buddy.allocate(64).unwrap()).collect();
    // 64..192 is clear, but no aligned 128 bytes are
    assert!(buddy.deallocate(offsets[1]) && buddy.deallocate(offsets[2]));
    assert_eq!(buddy.allocate(128), None);
    // 128..256 is aligned and clear
    assert!(buddy.deallocate(offsets[3]));
    assert_eq!(buddy.allocate(128), Some(128));
}
